//! Tests for variability parity games, projection, and the symbolic
//! attractor step, run against the real Boolean-function library.

use oxidd::BooleanFunction;
use oxidd::Manager;
use oxidd::ManagerRef;
use oxidd::bdd::BDDFunction;
use oxidd::bdd::BDDManagerRef;

use vpg::game::ParityGame;
use vpg::game::Player;
use vpg::game::Priority;
use vpg::game::VertexIndex;
use vpg::variability::LibraryError;
use vpg::variability::VariabilityParityGame;
use vpg::variability::project_variability_parity_game;
use vpg::variability::symbolic_attractor;
use vpg::variability::symbolic_attractor_step;

fn edge(from: usize, to: usize) -> (VertexIndex, VertexIndex) {
    (VertexIndex::new(from), VertexIndex::new(to))
}

fn manager_with_vars(vars: u32) -> BDDManagerRef {
    let mref = oxidd::bdd::new_manager(4096, 1024, 1);
    mref.with_manager_exclusive(|m| {
        m.add_vars(vars);
    });
    mref
}

fn var(mref: &BDDManagerRef, i: u32) -> BDDFunction {
    mref.with_manager_shared(|m| BDDFunction::var(m, i)).expect("variable")
}

fn top(mref: &BDDManagerRef) -> BDDFunction {
    mref.with_manager_shared(|m| BDDFunction::t(m))
}

fn bot(mref: &BDDManagerRef) -> BDDFunction {
    mref.with_manager_shared(|m| BDDFunction::f(m))
}

/// The example family: vertex 0 (Even, priority 0) and vertex 1 (Odd,
/// priority 1); edge 0 -> 1 exists when the feature holds, edge 0 -> 0
/// always, edge 1 -> 0 when the feature does not hold.
fn example_vpg(mref: &BDDManagerRef) -> VariabilityParityGame {
    let x = var(mref, 0);
    let not_x = x.not().expect("negation");
    let owners = vec![Player::Even, Player::Odd];
    let priorities = vec![Priority::new(0), Priority::new(1)];
    let edges = vec![edge(0, 1), edge(0, 0), edge(1, 0)];
    let game = ParityGame::from_edges(
        VertexIndex::new(0),
        owners,
        priorities,
        Some(2),
        &edges,
    )
    .expect("well-formed game");
    // Configurations in edge-array order: successors of 0, then of 1.
    let configurations = vec![x, top(mref), not_x];
    VariabilityParityGame::new(game, configurations)
}

fn successor_values(game: &ParityGame, v: usize) -> Vec<usize> {
    game.outgoing_edges(VertexIndex::new(v))
        .iter()
        .map(|w| w.value())
        .collect()
}

#[test]
fn projection_keeps_enabled_edges() {
    let mref = manager_with_vars(1);
    let vpg = example_vpg(&mref);
    let x = var(&mref, 0);

    let projected = project_variability_parity_game(&vpg, &x).expect("projection");
    assert_eq!(projected.num_of_vertices(), 2);
    assert_eq!(projected.initial_vertex().value(), 0);
    assert_eq!(successor_values(&projected, 0), vec![1, 0]);
    assert_eq!(successor_values(&projected, 1), Vec::<usize>::new());
    assert_eq!(projected.owner(VertexIndex::new(1)), Player::Odd);
    assert_eq!(projected.priority(VertexIndex::new(1)).value(), 1);
}

#[test]
fn projection_coverage_partitions_the_edges() {
    // For selections with s1 OR s2 = true and s1 AND s2 = false, the edges
    // of the two projections together are exactly the edges of the family.
    let mref = manager_with_vars(1);
    let vpg = example_vpg(&mref);
    let s1 = var(&mref, 0);
    let s2 = s1.not().expect("negation");

    let p1 = project_variability_parity_game(&vpg, &s1).expect("projection");
    let p2 = project_variability_parity_game(&vpg, &s2).expect("projection");

    let mut union: Vec<(usize, usize)> = Vec::new();
    for v in 0..2 {
        for w in successor_values(&p1, v) {
            union.push((v, w));
        }
        for w in successor_values(&p2, v) {
            if !union.contains(&(v, w)) {
                union.push((v, w));
            }
        }
    }
    union.sort();
    let mut expected = vec![(0, 1), (0, 0), (1, 0)];
    expected.sort();
    assert_eq!(union, expected, "no edge is lost and none is invented");
}

#[test]
fn projection_of_constant_true_keeps_everything() {
    let mref = manager_with_vars(1);
    let vpg = example_vpg(&mref);
    let all = top(&mref);
    let projected = project_variability_parity_game(&vpg, &all).expect("projection");
    assert_eq!(successor_values(&projected, 0), vec![1, 0]);
    assert_eq!(successor_values(&projected, 1), vec![0]);
}

#[test]
fn symbolic_step_for_the_owner_collects_enabled_wins() {
    let mref = manager_with_vars(1);
    let vpg = example_vpg(&mref);
    let x = var(&mref, 0);

    // Vertex 1 is won everywhere, vertex 0 nowhere: vertex 0 (owned by
    // Even) is attracted exactly where its edge to vertex 1 exists.
    let state = vec![bot(&mref), top(&mref)];
    let r = symbolic_attractor_step(&vpg, VertexIndex::new(0), Player::Even, &state, &mref)
        .expect("symbolic step");
    assert!(r == x);
}

#[test]
fn symbolic_step_for_the_opponent_needs_every_edge() {
    let mref = manager_with_vars(1);
    let vpg = example_vpg(&mref);

    // Vertex 0 is owned by Even; for player Odd it is an opponent vertex.
    // With vertex 1 won everywhere and vertex 0 nowhere, the self-loop
    // escapes everywhere, except that nothing changes where only the edge
    // to vertex 1 exists... the self-loop always exists, so the escape set
    // is everything and the attracted set is empty.
    let state = vec![bot(&mref), top(&mref)];
    let r = symbolic_attractor_step(&vpg, VertexIndex::new(0), Player::Odd, &state, &mref)
        .expect("symbolic step");
    assert!(r == bot(&mref));

    // Vertex 1 (owned by Odd) as an opponent vertex of Even: its only edge
    // leads to vertex 0 and exists where the feature is off. With vertex 0
    // won everywhere there is no escape anywhere, so the algebraic step
    // attracts vertex 1 on every configuration: where the feature is on,
    // the vertex has no enabled successor at all, and the De Morgan form
    // counts such configurations as attracted.
    let state = vec![top(&mref), bot(&mref)];
    let r = symbolic_attractor_step(&vpg, VertexIndex::new(1), Player::Even, &state, &mref)
        .expect("symbolic step");
    assert!(r == top(&mref));
}

#[test]
fn symbolic_attractor_reaches_a_fixpoint() {
    let mref = manager_with_vars(1);
    let vpg = example_vpg(&mref);
    let x = var(&mref, 0);

    // Starting from Even winning vertex 1 everywhere and vertex 0 nowhere,
    // the iteration settles with vertex 0 attracted exactly where its edge
    // to vertex 1 exists, and vertex 1 kept everywhere.
    let state = vec![bot(&mref), top(&mref)];
    let fixpoint =
        symbolic_attractor(&vpg, Player::Even, state, &mref, 10).expect("stable chain");
    assert!(fixpoint[0] == x);
    assert!(fixpoint[1] == top(&mref));
}

#[test]
fn symbolic_attractor_reports_exhausted_rounds() {
    let mref = manager_with_vars(1);
    let vpg = example_vpg(&mref);
    let state = vec![bot(&mref), top(&mref)];
    let r = symbolic_attractor(&vpg, Player::Even, state, &mref, 0);
    assert_eq!(r.err(), Some(LibraryError::IterationLimit));
}

/// A family without configuration-dependent dead ends: every vertex keeps a
/// self-loop in every configuration, and one cross edge per direction that
/// depends on the feature. Vertex 0 is Even with priority 1, vertex 1 is
/// Odd with priority 2.
fn looping_vpg(mref: &BDDManagerRef) -> VariabilityParityGame {
    let x = var(mref, 0);
    let not_x = x.not().expect("negation");
    let owners = vec![Player::Even, Player::Odd];
    let priorities = vec![Priority::new(1), Priority::new(2)];
    let edges = vec![edge(0, 0), edge(0, 1), edge(1, 1), edge(1, 0)];
    let game = ParityGame::from_edges(
        VertexIndex::new(0),
        owners,
        priorities,
        Some(2),
        &edges,
    )
    .expect("well-formed game");
    let configurations = vec![top(mref), x, top(mref), not_x];
    VariabilityParityGame::new(game, configurations)
}

#[test]
fn lifted_solve_computes_winning_configurations() {
    let mref = manager_with_vars(1);
    let vpg = looping_vpg(&mref);
    let x = var(&mref, 0);
    let not_x = x.not().expect("negation");

    // Where the feature holds, Even escapes its odd self-loop to the even
    // loop at vertex 1, which Odd cannot leave; where it does not, the
    // games are mirrored and Odd wins both vertices.
    let (even_wins, odd_wins) =
        vpg::variability::solve_variability_zielonka(&vpg, &mref, 10, 10).expect("solve");
    assert!(even_wins[0] == x);
    assert!(even_wins[1] == x);
    assert!(odd_wins[0] == not_x);
    assert!(odd_wins[1] == not_x);
}

#[test]
fn lifted_solve_agrees_with_projected_solving() {
    // The oracle check: for each feature selection, projecting and solving
    // the concrete game gives the same winner that the symbolic solution
    // assigns to that configuration.
    let mref = manager_with_vars(1);
    let vpg = looping_vpg(&mref);
    let x = var(&mref, 0);
    let selections = vec![x.clone(), x.not().expect("negation")];

    let (even_wins, _odd_wins) =
        vpg::variability::solve_variability_zielonka(&vpg, &mref, 10, 10).expect("solve");

    for s in &selections {
        let projected = project_variability_parity_game(&vpg, s).expect("projection");
        let solution = vpg::zielonka::solve_zielonka(&projected);
        for v in 0..2 {
            let symbolic_even = even_wins[v].and(s).expect("conjunction").satisfiable();
            let concrete_even =
                solution.winner(VertexIndex::new(v)) == Player::Even;
            assert_eq!(symbolic_even, concrete_even, "winner at vertex {}", v);
        }
    }
}

#[test]
fn lifted_solve_partitions_every_vertex() {
    let mref = manager_with_vars(1);
    let vpg = example_vpg(&mref);
    let (even_wins, odd_wins) =
        vpg::variability::solve_variability_zielonka(&vpg, &mref, 10, 10).expect("solve");
    for v in 0..2 {
        let union = even_wins[v].or(&odd_wins[v]).expect("union");
        let overlap = even_wins[v].and(&odd_wins[v]).expect("intersection");
        assert!(union == top(&mref), "the two regions cover vertex {}", v);
        assert!(!overlap.satisfiable(), "the two regions overlap at vertex {}", v);
    }
}

#[test]
fn lifted_solve_reports_exhausted_fuel() {
    let mref = manager_with_vars(1);
    let vpg = example_vpg(&mref);
    let r = vpg::variability::solve_variability_zielonka(&vpg, &mref, 0, 10);
    assert_eq!(r.err(), Some(LibraryError::IterationLimit));
}
