//! Tests for the solver and reachability trimming.

use vpg::game::ParityGame;
use vpg::game::Player;
use vpg::game::Priority;
use vpg::game::VertexIndex;
use vpg::reachability::compute_reachable;
use vpg::zielonka::solve_zielonka;

fn edge(from: usize, to: usize) -> (VertexIndex, VertexIndex) {
    (VertexIndex::new(from), VertexIndex::new(to))
}

fn game(
    initial: usize,
    owners: Vec<Player>,
    priorities: Vec<usize>,
    edges: Vec<(usize, usize)>,
) -> ParityGame {
    let n = owners.len();
    let priorities = priorities.into_iter().map(Priority::new).collect();
    let edges: Vec<(VertexIndex, VertexIndex)> =
        edges.into_iter().map(|(f, t)| edge(f, t)).collect();
    ParityGame::from_edges(VertexIndex::new(initial), owners, priorities, Some(n), &edges)
        .expect("well-formed game")
}

#[test]
fn self_loop_even_priority_won_by_even() {
    let g = game(0, vec![Player::Even], vec![2], vec![(0, 0)]);
    let solution = solve_zielonka(&g);
    assert_eq!(solution.winner(VertexIndex::new(0)), Player::Even);
    assert_eq!(solution.solution(), "true");
}

#[test]
fn self_loop_odd_priority_won_by_odd() {
    let g = game(0, vec![Player::Even], vec![3], vec![(0, 0)]);
    let solution = solve_zielonka(&g);
    assert_eq!(solution.winner(VertexIndex::new(0)), Player::Odd);
    assert_eq!(solution.solution(), "false");
}

#[test]
fn two_vertex_cycle_won_by_odd() {
    // Vertex 0: owner Odd, priority 1, edge to 1; vertex 1: owner Even,
    // priority 0, edge to 0. The highest priority seen infinitely often on
    // the only play is 1, which is odd.
    let g = game(
        0,
        vec![Player::Odd, Player::Even],
        vec![1, 0],
        vec![(0, 1), (1, 0)],
    );
    let solution = solve_zielonka(&g);
    assert_eq!(solution.winner(VertexIndex::new(0)), Player::Odd);
    assert_eq!(solution.winner(VertexIndex::new(1)), Player::Odd);
    assert_eq!(solution.solution(), "false");
}

#[test]
fn choice_vertex_escapes_to_winning_loop() {
    // Vertex 0 (Even, priority 1) chooses between a bad odd self-loop at 1
    // and a good even self-loop at 2: Even picks the even loop.
    let g = game(
        0,
        vec![Player::Even, Player::Even, Player::Even],
        vec![1, 3, 2],
        vec![(0, 1), (0, 2), (1, 1), (2, 2)],
    );
    let solution = solve_zielonka(&g);
    assert_eq!(solution.winner(VertexIndex::new(0)), Player::Even);
    assert_eq!(solution.winner(VertexIndex::new(1)), Player::Odd);
    assert_eq!(solution.winner(VertexIndex::new(2)), Player::Even);
}

#[test]
fn solving_twice_gives_identical_partitions() {
    let g = game(
        0,
        vec![Player::Even, Player::Odd, Player::Even, Player::Odd],
        vec![2, 1, 3, 0],
        vec![(0, 1), (1, 2), (2, 3), (3, 0), (1, 0), (2, 2)],
    );
    let s1 = solve_zielonka(&g);
    let s2 = solve_zielonka(&g);
    for v in 0..4 {
        assert_eq!(
            s1.winner(VertexIndex::new(v)),
            s2.winner(VertexIndex::new(v)),
            "winner at vertex {} must be identical",
            v
        );
    }
    assert_eq!(s1.solution(), s2.solution());
}

#[test]
fn dead_end_goes_to_the_player_of_its_priority() {
    // A vertex with no successors is never attracted; the recursion ends by
    // assigning the whole remaining subgame to the player of its highest
    // priority.
    let g = game(0, vec![Player::Even], vec![2], vec![]);
    assert_eq!(solve_zielonka(&g).solution(), "true");
    let g = game(0, vec![Player::Even], vec![1], vec![]);
    assert_eq!(solve_zielonka(&g).solution(), "false");
}

#[test]
fn unreachable_vertices_are_trimmed() {
    // Vertices 2 and 3 are unreachable from the initial vertex 0.
    let g = game(
        0,
        vec![Player::Even, Player::Odd, Player::Even, Player::Odd],
        vec![0, 1, 2, 3],
        vec![(0, 1), (1, 0), (2, 3), (3, 2)],
    );
    let (trimmed, mapping) = compute_reachable(&g);
    assert_eq!(trimmed.num_of_vertices(), 2);
    assert_eq!(trimmed.initial_vertex().value(), 0);
    assert!(mapping[0].is_some());
    assert!(mapping[1].is_some());
    assert!(mapping[2].is_none());
    assert!(mapping[3].is_none());
    assert_eq!(mapping[0].unwrap().value(), 0);
}

#[test]
fn trimming_preserves_the_winner() {
    // An unreachable even self-loop must not influence the verdict.
    let g = game(
        0,
        vec![Player::Odd, Player::Even, Player::Even],
        vec![1, 0, 2],
        vec![(0, 1), (1, 0), (2, 2)],
    );
    let full = solve_zielonka(&g);
    let (trimmed, mapping) = compute_reachable(&g);
    let trimmed_solution = solve_zielonka(&trimmed);
    let new_initial = mapping[0].unwrap();
    assert_eq!(
        full.winner(VertexIndex::new(0)),
        trimmed_solution.winner(new_initial)
    );
    assert_eq!(full.solution(), trimmed_solution.solution());
}

#[test]
fn trimming_remaps_owners_and_priorities() {
    let g = game(
        1,
        vec![Player::Even, Player::Odd, Player::Even],
        vec![4, 5, 6],
        vec![(1, 2), (2, 1), (0, 1)],
    );
    let (trimmed, mapping) = compute_reachable(&g);
    assert_eq!(trimmed.num_of_vertices(), 2);
    let m1 = mapping[1].unwrap();
    let m2 = mapping[2].unwrap();
    assert_eq!(m1.value(), 0);
    assert_eq!(m2.value(), 1);
    assert_eq!(trimmed.owner(m1), Player::Odd);
    assert_eq!(trimmed.owner(m2), Player::Even);
    assert_eq!(trimmed.priority(m1).value(), 5);
    assert_eq!(trimmed.priority(m2).value(), 6);
    let succs: Vec<usize> = trimmed.outgoing_edges(m1).iter().map(|v| v.value()).collect();
    assert_eq!(succs, vec![1]);
}
