//! Tests for players, tagged indices, and game construction.

use vpg::game::ConstructionError;
use vpg::game::ParityGame;
use vpg::game::Player;
use vpg::game::Priority;
use vpg::game::VertexIndex;

fn edge(from: usize, to: usize) -> (VertexIndex, VertexIndex) {
    (VertexIndex::new(from), VertexIndex::new(to))
}

#[test]
fn player_from_index() {
    assert_eq!(Player::from_index(0), Player::Even);
    assert_eq!(Player::from_index(1), Player::Odd);
}

#[test]
fn player_to_index() {
    assert_eq!(Player::Even.to_index(), 0);
    assert_eq!(Player::Odd.to_index(), 1);
}

#[test]
fn player_opponent() {
    assert_eq!(Player::Even.opponent(), Player::Odd);
    assert_eq!(Player::Odd.opponent(), Player::Even);
}

#[test]
fn player_solution_strings() {
    assert_eq!(Player::Even.solution(), "true");
    assert_eq!(Player::Odd.solution(), "false");
}

#[test]
fn player_from_priority() {
    assert_eq!(Player::from_priority(&Priority::new(0)), Player::Even);
    assert_eq!(Player::from_priority(&Priority::new(1)), Player::Odd);
    assert_eq!(Player::from_priority(&Priority::new(2)), Player::Even);
    assert_eq!(Player::from_priority(&Priority::new(7)), Player::Odd);
}

#[test]
fn from_edges_builds_adjacency() {
    let owner = vec![Player::Even, Player::Odd, Player::Even];
    let priority = vec![Priority::new(2), Priority::new(1), Priority::new(0)];
    let edges = vec![edge(0, 1), edge(1, 2), edge(0, 2), edge(2, 0)];
    let game = ParityGame::from_edges(VertexIndex::new(0), owner, priority, Some(3), &edges)
        .expect("well-formed game");

    assert_eq!(game.num_of_vertices(), 3);
    assert_eq!(game.num_of_edges(), 4);
    assert_eq!(game.initial_vertex().value(), 0);
    assert_eq!(game.owner(VertexIndex::new(1)), Player::Odd);
    assert_eq!(game.priority(VertexIndex::new(0)).value(), 2);

    // Successors keep the order in which the edges were supplied.
    let succs0: Vec<usize> = game
        .outgoing_edges(VertexIndex::new(0))
        .iter()
        .map(|v| v.value())
        .collect();
    assert_eq!(succs0, vec![1, 2]);
    assert_eq!(game.out_degree(VertexIndex::new(2)), 1);
    assert_eq!(game.successor(VertexIndex::new(2), 0).value(), 0);
}

#[test]
fn from_edges_order_independent_multisets() {
    let owner = vec![Player::Even, Player::Odd, Player::Even];
    let priority = vec![Priority::new(0), Priority::new(1), Priority::new(2)];
    let forward = vec![edge(0, 1), edge(0, 2), edge(1, 2), edge(0, 1)];
    let backward = vec![edge(0, 1), edge(1, 2), edge(0, 2), edge(0, 1)];

    let g1 = ParityGame::from_edges(
        VertexIndex::new(0),
        owner.clone(),
        priority.clone(),
        Some(3),
        &forward,
    )
    .expect("well-formed game");
    let g2 = ParityGame::from_edges(VertexIndex::new(0), owner, priority, Some(3), &backward)
        .expect("well-formed game");

    for v in 0..3 {
        let mut s1: Vec<usize> = g1
            .outgoing_edges(VertexIndex::new(v))
            .iter()
            .map(|w| w.value())
            .collect();
        let mut s2: Vec<usize> = g2
            .outgoing_edges(VertexIndex::new(v))
            .iter()
            .map(|w| w.value())
            .collect();
        s1.sort();
        s2.sort();
        assert_eq!(s1, s2, "successor multisets must agree at vertex {}", v);
    }
}

#[test]
fn from_edges_rejects_wrong_counts() {
    let owner = vec![Player::Even, Player::Odd];
    let priority = vec![Priority::new(0)];
    let edges = vec![edge(0, 1)];
    let r = ParityGame::from_edges(VertexIndex::new(0), owner, priority, Some(2), &edges);
    assert_eq!(r.err(), Some(ConstructionError::WrongCounts));

    let owner = vec![Player::Even, Player::Odd];
    let priority = vec![Priority::new(0), Priority::new(1)];
    let r = ParityGame::from_edges(VertexIndex::new(0), owner, priority, Some(3), &edges);
    assert_eq!(r.err(), Some(ConstructionError::WrongCounts));
}

#[test]
fn from_edges_rejects_dangling_vertices() {
    let owner = vec![Player::Even, Player::Odd];
    let priority = vec![Priority::new(0), Priority::new(1)];

    let out_of_bounds = vec![edge(0, 5)];
    let r = ParityGame::from_edges(
        VertexIndex::new(0),
        owner.clone(),
        priority.clone(),
        Some(2),
        &out_of_bounds,
    );
    assert_eq!(r.err(), Some(ConstructionError::DanglingVertex));

    let edges = vec![edge(0, 1)];
    let r = ParityGame::from_edges(VertexIndex::new(9), owner, priority, Some(2), &edges);
    assert_eq!(r.err(), Some(ConstructionError::DanglingVertex));
}

#[test]
fn iter_vertices_lists_all() {
    let owner = vec![Player::Even, Player::Even];
    let priority = vec![Priority::new(0), Priority::new(0)];
    let edges = vec![edge(0, 1), edge(1, 0)];
    let game = ParityGame::from_edges(VertexIndex::new(0), owner, priority, Some(2), &edges)
        .expect("well-formed game");
    let vertices: Vec<usize> = game.iter_vertices().iter().map(|v| v.value()).collect();
    assert_eq!(vertices, vec![0, 1]);
}
