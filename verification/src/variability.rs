//! Variability parity games: each edge additionally carries a
//! configuration, a Boolean function over feature variables denoting
//! exactly the product configurations in which the edge exists. Projection
//! onto one feature selection yields an ordinary parity game.
//!
//! Configurations are handles of the external Boolean-function library.
//! Logically a configuration is a set of feature assignments; the handles
//! of one manager are canonical, so equal sets compare equal.

use oxidd::bdd::BDDFunction;
use oxidd::bdd::BDDManagerRef;
use oxidd::util::OutOfMemory;
use vstd::prelude::*;

use crate::game::ParityGame;
use crate::game::Player;
use crate::game::Priority;
use crate::game::VertexIndex;

verus! {

#[verifier::external_type_specification]
#[verifier::external_body]
pub struct ExBDDFunction(BDDFunction);

#[verifier::external_type_specification]
#[verifier::external_body]
pub struct ExBDDManagerRef(BDDManagerRef);

#[verifier::external_type_specification]
#[verifier::external_body]
pub struct ExOutOfMemory(OutOfMemory);

/// The set of feature assignments on which a Boolean function is true. An
/// assignment gives every feature variable a value; the function library
/// computes with a canonical representation of such sets.
pub uninterp spec fn bdd_configs(f: BDDFunction) -> Set<Map<int, bool>>;

/// The set of all feature assignments.
pub open spec fn all_assignments() -> Set<Map<int, bool>> {
    Set::full()
}

/// The empty set of feature assignments.
pub open spec fn no_assignments() -> Set<Map<int, bool>> {
    Set::empty()
}

/// The manager a Boolean-function handle belongs to. Handles can only be
/// combined within one manager.
pub uninterp spec fn bdd_manager_of(f: BDDFunction) -> int;

/// The identity of a manager.
pub uninterp spec fn manager_id(m: BDDManagerRef) -> int;

/// An error of the external Boolean-function library, propagated through
/// projection and symbolic solving: such a failure must never be treated
/// as "unsatisfiable".
#[derive(Clone, Copy, PartialEq, Eq, Debug, Structural)]
pub enum LibraryError {
    OutOfMemory,
    IterationLimit,
}

/// Relies on oxidd's `BooleanFunction::and`: within one manager, the
/// conjunction denotes the intersection of the assignment sets; the call
/// fails only on memory exhaustion.
#[verifier::external_body]
fn bdd_and(a: &BDDFunction, b: &BDDFunction) -> (r: Result<BDDFunction, OutOfMemory>)
    requires
        bdd_manager_of(*a) == bdd_manager_of(*b),
    ensures
        r matches Ok(f) ==> bdd_configs(f) == bdd_configs(*a).intersect(bdd_configs(*b))
            && bdd_manager_of(f) == bdd_manager_of(*a),
{
    oxidd::BooleanFunction::and(a, b)
}

/// Relies on oxidd's `BooleanFunction::or`: within one manager, the
/// disjunction denotes the union of the assignment sets.
#[verifier::external_body]
fn bdd_or(a: &BDDFunction, b: &BDDFunction) -> (r: Result<BDDFunction, OutOfMemory>)
    requires
        bdd_manager_of(*a) == bdd_manager_of(*b),
    ensures
        r matches Ok(f) ==> bdd_configs(f) == bdd_configs(*a).union(bdd_configs(*b))
            && bdd_manager_of(f) == bdd_manager_of(*a),
{
    oxidd::BooleanFunction::or(a, b)
}

/// Relies on oxidd's `BooleanFunction::not`: the negation denotes the
/// complement of the assignment set.
#[verifier::external_body]
fn bdd_not(a: &BDDFunction) -> (r: Result<BDDFunction, OutOfMemory>)
    ensures
        r matches Ok(f) ==> bdd_configs(f) == bdd_configs(*a).complement() && bdd_manager_of(f)
            == bdd_manager_of(*a),
{
    oxidd::BooleanFunction::not(a)
}

/// Relies on oxidd's `BooleanFunction::satisfiable`: a function is
/// satisfiable exactly when it is not the constant false, that is, when
/// some assignment satisfies it.
#[verifier::external_body]
fn bdd_satisfiable(a: &BDDFunction) -> (r: bool)
    ensures
        r == !bdd_configs(*a).is_empty(),
{
    oxidd::BooleanFunction::satisfiable(a)
}

/// Relies on oxidd's `BooleanFunction::f`: the constant false function
/// holds on no assignment. Public so that verified callers can obtain
/// handles whose manager is known, which the one-manager preconditions of
/// this module ask for.
#[verifier::external_body]
pub fn bdd_constant_false(m: &BDDManagerRef) -> (r: BDDFunction)
    ensures
        bdd_configs(r) == no_assignments(),
        bdd_manager_of(r) == manager_id(*m),
{
    oxidd::ManagerRef::with_manager_shared(m, |manager| {
        <BDDFunction as oxidd::BooleanFunction>::f(manager)
    })
}

/// Relies on oxidd's `PartialEq` on functions: handles of one manager are
/// canonical, so two of them are equal exactly when they denote the same
/// set of assignments.
#[verifier::external_body]
fn bdd_eq(a: &BDDFunction, b: &BDDFunction) -> (r: bool)
    requires
        bdd_manager_of(*a) == bdd_manager_of(*b),
    ensures
        r == (bdd_configs(*a) == bdd_configs(*b)),
{
    a == b
}

/// A parity game whose edges additionally carry configurations: the vertex
/// set, ownership and priorities are configuration-independent, only the
/// topology varies. The configuration of the `k`-th edge of vertex `v`
/// sits at that edge's position in the flat edge array.
pub struct VariabilityParityGame {
    game: ParityGame,
    configurations: Vec<BDDFunction>,
}

impl VariabilityParityGame {
    /// The underlying parity game structure.
    pub closed spec fn spec_game(self) -> ParityGame {
        self.game
    }

    /// The configuration attached to the edge at position `i`.
    pub closed spec fn spec_config(self, i: int) -> BDDFunction {
        self.configurations@[i]
    }

    /// Well-formedness: the game is well-formed, there is one configuration
    /// per edge, and all configurations live in one manager.
    pub closed spec fn wf(self) -> bool {
        &&& self.game.wf()
        &&& self.configurations@.len() == self.game.spec_num_edges()
        &&& forall|i: int, j: int|
            0 <= i < self.configurations@.len() && 0 <= j < self.configurations@.len()
                ==> bdd_manager_of(#[trigger] self.configurations@[i]) == bdd_manager_of(
                #[trigger] self.configurations@[j],
            )
    }

    /// Constructs a variability parity game from a parity game and one
    /// configuration per edge, in edge-array order.
    pub fn new(game: ParityGame, configurations: Vec<BDDFunction>) -> (r: Self)
        requires
            game.wf(),
            configurations@.len() == game.spec_num_edges(),
            forall|i: int, j: int|
                0 <= i < configurations@.len() && 0 <= j < configurations@.len()
                    ==> bdd_manager_of(#[trigger] configurations@[i]) == bdd_manager_of(
                    #[trigger] configurations@[j],
                ),
        ensures
            r.wf(),
            r.spec_game() == game,
            forall|i: int|
                0 <= i < configurations@.len() ==> r.spec_config(i) == configurations@[i],
    {
        VariabilityParityGame { game, configurations }
    }

    /// Returns the underlying parity game.
    pub fn game(&self) -> (r: &ParityGame)
        ensures
            *r == self.spec_game(),
    {
        &self.game
    }

    /// Returns the initial vertex.
    pub fn initial_vertex(&self) -> (r: VertexIndex)
        ensures
            r.spec_value() == self.spec_game().spec_initial(),
    {
        self.game.initial_vertex()
    }

    /// Returns the number of vertices.
    pub fn num_of_vertices(&self) -> (r: usize)
        ensures
            r == self.spec_game().spec_num_vertices(),
    {
        self.game.num_of_vertices()
    }

    /// Returns the configuration of the `k`-th edge of the given vertex.
    /// All configurations of one game live in one manager, so any two
    /// handles obtained this way satisfy the one-manager preconditions of
    /// this module.
    pub fn edge_configuration(&self, vertex: VertexIndex, k: usize) -> (r: &BDDFunction)
        requires
            self.wf(),
            (vertex.spec_value() as int) < self.spec_game().spec_num_vertices(),
            k < self.spec_game().succs(vertex.spec_value() as int).len(),
        ensures
            *r == self.spec_config(
                self.spec_game().spec_edge_index(vertex.spec_value() as int, k as int),
            ),
            forall|i: int|
                0 <= i < self.spec_game().spec_num_edges() ==> bdd_manager_of(
                    #[trigger] self.spec_config(i),
                ) == bdd_manager_of(*r),
    {
        proof {
            self.game.lemma_wf();
        }
        let idx = self.game.edge_index(vertex, k);
        &self.configurations[idx]
    }

    /// Whether an edge is enabled by a feature selection: the edge exists
    /// for at least one configuration compatible with the selection.
    pub open spec fn edge_kept(self, selection: BDDFunction, v: int, k: int) -> bool {
        !bdd_configs(self.spec_config(self.spec_game().spec_edge_index(v, k))).intersect(
            bdd_configs(selection),
        ).is_empty()
    }

    /// The successors of `v` that survive projection onto a selection, in
    /// edge order.
    pub open spec fn kept_succs(self, selection: BDDFunction, v: int, k: int) -> Seq<usize>
        decreases k,
    {
        if k <= 0 {
            Seq::empty()
        } else {
            let rest = self.kept_succs(selection, v, k - 1);
            if self.edge_kept(selection, v, k - 1) {
                rest.push(self.spec_game().succs(v)[k - 1])
            } else {
                rest
            }
        }
    }
}

/// Every edge with a satisfiable configuration survives projection onto at
/// least one side of a partition of the configuration space: for two
/// selections that together cover every assignment and share none, the
/// games projected onto them keep, between them, exactly the edges of the
/// variability game whose configurations are satisfiable at all.
pub proof fn lemma_projection_coverage(
    vpg: VariabilityParityGame,
    s1: BDDFunction,
    s2: BDDFunction,
    v: int,
    k: int,
)
    requires
        bdd_configs(s1).union(bdd_configs(s2)) == Set::<Map<int, bool>>::full(),
        bdd_configs(s1).intersect(bdd_configs(s2)) == Set::<Map<int, bool>>::empty(),
    ensures
        vpg.edge_kept(s1, v, k) || vpg.edge_kept(s2, v, k) <==> !bdd_configs(
            vpg.spec_config(vpg.spec_game().spec_edge_index(v, k)),
        ).is_empty(),
{
    let c = bdd_configs(vpg.spec_config(vpg.spec_game().spec_edge_index(v, k)));
    if !c.is_empty() {
        let a = c.choose();
        assert(c.contains(a));
        assert(Set::<Map<int, bool>>::full().contains(a));
        assert(bdd_configs(s1).union(bdd_configs(s2)).contains(a));
        if bdd_configs(s1).contains(a) {
            assert(c.intersect(bdd_configs(s1)).contains(a));
        } else {
            assert(c.intersect(bdd_configs(s2)).contains(a));
        }
    } else {
        assert(c.intersect(bdd_configs(s1)) =~= Set::<Map<int, bool>>::empty());
        assert(c.intersect(bdd_configs(s2)) =~= Set::<Map<int, bool>>::empty());
    }
}

/// Projects a variability parity game onto one feature selection: the
/// result is an ordinary parity game over the same vertices, owners,
/// priorities and initial vertex, keeping exactly the edges whose
/// configuration intersected with the selection is satisfiable. Fails only
/// when the Boolean-function library runs out of memory; such a failure is
/// never treated as "unsatisfiable".
#[verifier::rlimit(100)]
pub fn project_variability_parity_game(
    vpg: &VariabilityParityGame,
    feature_selection: &BDDFunction,
) -> (r: Result<ParityGame, LibraryError>)
    requires
        vpg.wf(),
        forall|i: int|
            0 <= i < vpg.spec_game().spec_num_edges() ==> bdd_manager_of(
                #[trigger] vpg.spec_config(i),
            ) == bdd_manager_of(*feature_selection),
    ensures
        vpg.spec_game().spec_num_edges() == 0 ==> r is Ok,
        r matches Ok(pg) ==> {
            &&& pg.wf()
            &&& pg.spec_num_vertices() == vpg.spec_game().spec_num_vertices()
            &&& pg.spec_initial() == vpg.spec_game().spec_initial()
            &&& forall|v: int|
                0 <= v < pg.spec_num_vertices() ==> pg.spec_owner(v) == vpg.spec_game().spec_owner(
                    v,
                )
            &&& forall|v: int|
                0 <= v < pg.spec_num_vertices() ==> pg.spec_priority(v)
                    == vpg.spec_game().spec_priority(v)
            &&& forall|v: int|
                0 <= v < pg.spec_num_vertices() ==> pg.succs(v) == vpg.kept_succs(
                    *feature_selection,
                    v,
                    vpg.spec_game().succs(v).len() as int,
                )
        },
{
    let game = vpg.game();
    let nv = game.num_of_vertices();
    proof {
        game.lemma_wf();
    }

    // Keep each edge whose configuration is compatible with the selection.
    let mut edges: Vec<(VertexIndex, VertexIndex)> = Vec::new();
    let mut owners: Vec<Player> = Vec::new();
    let mut priorities: Vec<Priority> = Vec::new();
    let mut v: usize = 0;
    while v < nv
        invariant
            vpg.wf(),
            *game == vpg.spec_game(),
            game.wf(),
            nv == game.spec_num_vertices(),
            forall|i: int|
                0 <= i < game.spec_num_edges() ==> bdd_manager_of(#[trigger] vpg.spec_config(i))
                    == bdd_manager_of(*feature_selection),
            0 <= v <= nv,
            owners@.len() == v,
            priorities@.len() == v,
            forall|v2: int| 0 <= v2 < v ==> (#[trigger] owners@[v2]) == game.spec_owner(v2),
            forall|v2: int|
                0 <= v2 < v ==> ((#[trigger] priorities@[v2]).spec_value() as int)
                    == game.spec_priority(v2),
            forall|j: int|
                0 <= j < edges@.len() ==> ((#[trigger] edges@[j]).0.spec_value() as int) < v && (
                edges@[j].1.spec_value() as int) < nv,
            forall|v2: int|
                0 <= v2 < v ==> #[trigger] crate::csr::tos_from(
                    crate::game::edge_pairs(edges@),
                    v2,
                ) =~= vpg.kept_succs(*feature_selection, v2, game.succs(v2).len() as int),
        decreases nv - v,
    {
        proof {
            game.lemma_wf();
        }
        let vi = VertexIndex::new(v);
        owners.push(game.owner(vi));
        priorities.push(game.priority(vi));
        let d = game.out_degree(vi);
        proof {
            assert(forall|j: int|
                0 <= j < crate::game::edge_pairs(edges@).len() ==> ((
                #[trigger] crate::game::edge_pairs(edges@)[j]).0 as int) != v as int);
            crate::csr::lemma_tos_from_absent(crate::game::edge_pairs(edges@), v as int);
        }
        let mut k: usize = 0;
        while k < d
            invariant
                vpg.wf(),
                *game == vpg.spec_game(),
                game.wf(),
                nv == game.spec_num_vertices(),
                forall|i: int|
                    0 <= i < game.spec_num_edges() ==> bdd_manager_of(
                        #[trigger] vpg.spec_config(i),
                    ) == bdd_manager_of(*feature_selection),
                0 <= v < nv,
                vi.spec_value() == v,
                d == game.succs(v as int).len(),
                0 <= k <= d,
                forall|j: int|
                    0 <= j < edges@.len() ==> ((#[trigger] edges@[j]).0.spec_value() as int) <= (
                    v as int) && (edges@[j].1.spec_value() as int) < nv,
                forall|v2: int|
                    0 <= v2 < v ==> #[trigger] crate::csr::tos_from(
                        crate::game::edge_pairs(edges@),
                        v2,
                    ) =~= vpg.kept_succs(*feature_selection, v2, game.succs(v2).len() as int),
                crate::csr::tos_from(crate::game::edge_pairs(edges@), v as int) =~= vpg.kept_succs(
                    *feature_selection,
                    v as int,
                    k as int,
                ),
            decreases d - k,
        {
            proof {
                game.lemma_wf();
            }
            let w = game.successor(vi, k);
            let idx = game.edge_index(vi, k);
            proof {
                assert(bdd_manager_of(vpg.spec_config(idx as int)) == bdd_manager_of(
                    *feature_selection,
                ));
                assert(vpg.spec_config(idx as int) == vpg.configurations@[idx as int]);
            }
            let conj = match bdd_and(&vpg.configurations[idx], feature_selection) {
                Ok(c) => c,
                Err(_) => {
                    return Err(LibraryError::OutOfMemory);
                },
            };
            let ghost edges0 = edges@;
            if bdd_satisfiable(&conj) {
                edges.push((vi, w));
                proof {
                    assert(crate::game::edge_pairs(edges@) =~= crate::game::edge_pairs(
                        edges0,
                    ).push((v, w.spec_value())));
                    assert(crate::game::edge_pairs(edges0).push(
                        (v, w.spec_value()),
                    ).drop_last() =~= crate::game::edge_pairs(edges0));
                    assert(vpg.edge_kept(*feature_selection, v as int, k as int));
                    assert forall|v2: int| 0 <= v2 < v implies #[trigger] crate::csr::tos_from(
                        crate::game::edge_pairs(edges@),
                        v2,
                    ) =~= vpg.kept_succs(
                        *feature_selection,
                        v2,
                        game.succs(v2).len() as int,
                    ) by {
                        assert(crate::csr::tos_from(crate::game::edge_pairs(edges@), v2)
                            == crate::csr::tos_from(crate::game::edge_pairs(edges0), v2));
                    }
                }
            } else {
                proof {
                    assert(!vpg.edge_kept(*feature_selection, v as int, k as int));
                }
            }
            k = k + 1;
        }
        proof {
            assert(game.succs(v as int).take(d as int) =~= game.succs(v as int));
        }
        v = v + 1;
    }

    let ghost owners_v = owners@;
    let ghost priorities_v = priorities@;
    let result = match ParityGame::from_edges(
        game.initial_vertex(),
        owners,
        priorities,
        Some(nv),
        &edges,
    ) {
        Ok(pg) => pg,
        Err(_) => {
            proof {
                assert(false);
            }
            return Err(LibraryError::OutOfMemory);
        },
    };
    proof {
        assert(result.spec_initial() == vpg.spec_game().spec_initial());
        assert forall|v2: int| 0 <= v2 < nv implies result.spec_owner(v2)
            == vpg.spec_game().spec_owner(v2) by {
            assert(result.spec_owner(v2) == owners_v[v2]);
        }
        assert forall|v2: int| 0 <= v2 < nv implies result.spec_priority(v2)
            == vpg.spec_game().spec_priority(v2) by {
            assert(result.spec_priority(v2) == priorities_v[v2].spec_value());
        }
        assert forall|v2: int| 0 <= v2 < nv implies result.succs(v2) == vpg.kept_succs(
            *feature_selection,
            v2,
            vpg.spec_game().succs(v2).len() as int,
        ) by {
            assert(result.succs(v2) == crate::csr::tos_from(
                crate::game::edge_pairs(edges@),
                v2,
            ));
            assert(crate::csr::tos_from(crate::game::edge_pairs(edges@), v2) =~= vpg.kept_succs(
                *feature_selection,
                v2,
                vpg.spec_game().succs(v2).len() as int,
            ));
        }
    }
    Ok(result)
}

/// The configurations contributed to the attractor at a player-owned
/// vertex by its first `k` edges: the union over those edges of the edge's
/// configuration intersected with the successor's winning configurations.
pub open spec fn owner_step_configs(
    vpg: VariabilityParityGame,
    state: Seq<BDDFunction>,
    v: int,
    k: int,
) -> Set<Map<int, bool>>
    decreases k,
{
    if k <= 0 {
        no_assignments()
    } else {
        owner_step_configs(vpg, state, v, k - 1).union(
            bdd_configs(vpg.spec_config(vpg.spec_game().spec_edge_index(v, k - 1))).intersect(
                bdd_configs(state[vpg.spec_game().succs(v)[k - 1] as int]),
            ),
        )
    }
}

/// The configurations on which some enabled edge of an opponent-owned
/// vertex escapes, over its first `k` edges: the union of each edge's
/// configuration intersected with the complement of the successor's
/// winning configurations.
pub open spec fn opponent_escape_configs(
    vpg: VariabilityParityGame,
    state: Seq<BDDFunction>,
    v: int,
    k: int,
) -> Set<Map<int, bool>>
    decreases k,
{
    if k <= 0 {
        no_assignments()
    } else {
        opponent_escape_configs(vpg, state, v, k - 1).union(
            bdd_configs(vpg.spec_config(vpg.spec_game().spec_edge_index(v, k - 1))).intersect(
                bdd_configs(state[vpg.spec_game().succs(v)[k - 1] as int]).complement(),
            ),
        )
    }
}

/// One algebraic attractor step at a vertex of a variability parity game.
/// The per-vertex state assigns every vertex the configurations for which
/// the attracting player currently wins it. A vertex owned by the player
/// contributes the union, over its edges, of the edge's configuration
/// intersected with the successor's winning configurations; a vertex of
/// the opponent contributes the complement of the union of its escapes.
/// Fails only when the Boolean-function library runs out of memory.
#[verifier::rlimit(100)]
pub fn symbolic_attractor_step(
    vpg: &VariabilityParityGame,
    vertex: VertexIndex,
    player: Player,
    state: &Vec<BDDFunction>,
    manager: &BDDManagerRef,
) -> (r: Result<BDDFunction, LibraryError>)
    requires
        vpg.wf(),
        (vertex.spec_value() as int) < vpg.spec_game().spec_num_vertices(),
        state@.len() == vpg.spec_game().spec_num_vertices(),
        forall|i: int|
            0 <= i < vpg.spec_game().spec_num_edges() ==> bdd_manager_of(
                #[trigger] vpg.spec_config(i),
            ) == manager_id(*manager),
        forall|i: int|
            0 <= i < state@.len() ==> bdd_manager_of(#[trigger] state@[i]) == manager_id(
                *manager,
            ),
    ensures
        vpg.spec_game().spec_owner(vertex.spec_value() as int) == player && vpg.spec_game().succs(
            vertex.spec_value() as int,
        ).len() == 0 ==> r is Ok,
        r matches Ok(f) ==> {
            let v = vertex.spec_value() as int;
            let d = vpg.spec_game().succs(v).len() as int;
            &&& bdd_manager_of(f) == manager_id(*manager)
            &&& vpg.spec_game().spec_owner(v) == player ==> bdd_configs(f) == owner_step_configs(
                *vpg,
                state@,
                v,
                d,
            )
            &&& vpg.spec_game().spec_owner(v) != player ==> bdd_configs(f)
                == opponent_escape_configs(*vpg, state@, v, d).complement()
        },
{
    let game = vpg.game();
    proof {
        game.lemma_wf();
    }
    let v = vertex.value();
    let d = game.out_degree(vertex);
    let owner = game.owner(vertex);
    let same = owner.to_index() == player.to_index();
    let mut acc = bdd_constant_false(manager);
    let mut k: usize = 0;
    while k < d
        invariant
            vpg.wf(),
            *game == vpg.spec_game(),
            game.wf(),
            vertex.spec_value() == v,
            (v as int) < game.spec_num_vertices(),
            state@.len() == game.spec_num_vertices(),
            d == game.succs(v as int).len(),
            0 <= k <= d,
            same == (game.spec_owner(v as int) == player),
            forall|i: int|
                0 <= i < game.spec_num_edges() ==> bdd_manager_of(#[trigger] vpg.spec_config(i))
                    == manager_id(*manager),
            forall|i: int|
                0 <= i < state@.len() ==> bdd_manager_of(#[trigger] state@[i]) == manager_id(
                    *manager,
                ),
            bdd_manager_of(acc) == manager_id(*manager),
            same ==> bdd_configs(acc) == owner_step_configs(*vpg, state@, v as int, k as int),
            !same ==> bdd_configs(acc) == opponent_escape_configs(
                *vpg,
                state@,
                v as int,
                k as int,
            ),
        decreases d - k,
    {
        proof {
            game.lemma_wf();
        }
        let w = game.successor(vertex, k).value();
        let idx = game.edge_index(vertex, k);
        proof {
            assert(vpg.spec_config(idx as int) == vpg.configurations@[idx as int]);
            assert(bdd_manager_of(state@[w as int]) == manager_id(*manager));
        }
        let term = if same {
            match bdd_and(&vpg.configurations[idx], &state[w]) {
                Ok(t) => t,
                Err(_) => {
                    return Err(LibraryError::OutOfMemory);
                },
            }
        } else {
            let losing = match bdd_not(&state[w]) {
                Ok(t) => t,
                Err(_) => {
                    return Err(LibraryError::OutOfMemory);
                },
            };
            match bdd_and(&vpg.configurations[idx], &losing) {
                Ok(t) => t,
                Err(_) => {
                    return Err(LibraryError::OutOfMemory);
                },
            }
        };
        acc = match bdd_or(&acc, &term) {
            Ok(t) => t,
            Err(_) => {
                return Err(LibraryError::OutOfMemory);
            },
        };
        k = k + 1;
    }
    if same {
        Ok(acc)
    } else {
        // By De Morgan, the opponent is attracted exactly where it has no
        // escape.
        match bdd_not(&acc) {
            Ok(t) => Ok(t),
            Err(_) => Err(LibraryError::OutOfMemory),
        }
    }
}

/// The configurations that one algebraic step contributes at a vertex: the
/// owner's union of enabled wins, or the complement of the opponent's
/// escapes.
pub open spec fn step_configs(
    vpg: VariabilityParityGame,
    state: Seq<BDDFunction>,
    player: Player,
    v: int,
) -> Set<Map<int, bool>> {
    let d = vpg.spec_game().succs(v).len() as int;
    if vpg.spec_game().spec_owner(v) == player {
        owner_step_configs(vpg, state, v, d)
    } else {
        opponent_escape_configs(vpg, state, v, d).complement()
    }
}

/// Iterates the algebraic attractor step over every vertex until no
/// vertex's configurations change, within the given number of rounds. The
/// result extends the given state and is closed under one more step: each
/// vertex already holds everything the step would contribute. Fails when
/// the rounds run out before the chain stabilizes, or when the
/// Boolean-function library runs out of memory.
#[verifier::rlimit(100)]
pub fn symbolic_attractor(
    vpg: &VariabilityParityGame,
    player: Player,
    state: Vec<BDDFunction>,
    manager: &BDDManagerRef,
    max_rounds: usize,
) -> (r: Result<Vec<BDDFunction>, LibraryError>)
    requires
        vpg.wf(),
        state@.len() == vpg.spec_game().spec_num_vertices(),
        forall|i: int|
            0 <= i < vpg.spec_game().spec_num_edges() ==> bdd_manager_of(
                #[trigger] vpg.spec_config(i),
            ) == manager_id(*manager),
        forall|i: int|
            0 <= i < state@.len() ==> bdd_manager_of(#[trigger] state@[i]) == manager_id(
                *manager,
            ),
    ensures
        max_rounds == 0 ==> r == Result::<Vec<BDDFunction>, LibraryError>::Err(
            LibraryError::IterationLimit,
        ),
        r matches Ok(s2) ==> {
            &&& s2@.len() == vpg.spec_game().spec_num_vertices()
            &&& forall|i: int|
                0 <= i < s2@.len() ==> bdd_manager_of(#[trigger] s2@[i]) == manager_id(*manager)
            &&& forall|v: int|
                0 <= v < s2@.len() ==> bdd_configs(state@[v]).subset_of(bdd_configs(
                    #[trigger] s2@[v],
                ))
            &&& forall|v: int|
                0 <= v < s2@.len() ==> step_configs(*vpg, s2@, player, v).subset_of(bdd_configs(
                    #[trigger] s2@[v],
                ))
        },
{
    let game = vpg.game();
    let nv = game.num_of_vertices();
    proof {
        game.lemma_wf();
    }
    let ghost initial_state = state@;
    let mut current = state;
    let mut round: usize = 0;
    #[verifier::loop_isolation(false)]
    while round < max_rounds
        invariant
            vpg.wf(),
            *game == vpg.spec_game(),
            game.wf(),
            nv == game.spec_num_vertices(),
            0 <= round <= max_rounds,
            current@.len() == nv,
            forall|i: int|
                0 <= i < game.spec_num_edges() ==> bdd_manager_of(#[trigger] vpg.spec_config(i))
                    == manager_id(*manager),
            forall|i: int|
                0 <= i < current@.len() ==> bdd_manager_of(#[trigger] current@[i]) == manager_id(
                    *manager,
                ),
            initial_state.len() == nv,
            forall|v: int|
                0 <= v < nv ==> bdd_configs(initial_state[v]).subset_of(bdd_configs(
                    #[trigger] current@[v],
                )),
        decreases max_rounds - round,
    {
        let ghost before = current@;
        let mut next_state: Vec<BDDFunction> = Vec::new();
        let mut changed = false;
        let mut v: usize = 0;
        while v < nv
            invariant
                vpg.wf(),
                *game == vpg.spec_game(),
                game.wf(),
                nv == game.spec_num_vertices(),
                round < max_rounds,
                0 <= v <= nv,
                before == current@,
                current@.len() == nv,
                next_state@.len() == v,
                forall|i: int|
                    0 <= i < game.spec_num_edges() ==> bdd_manager_of(
                        #[trigger] vpg.spec_config(i),
                    ) == manager_id(*manager),
                forall|i: int|
                    0 <= i < current@.len() ==> bdd_manager_of(#[trigger] current@[i])
                        == manager_id(*manager),
                forall|i: int|
                    0 <= i < next_state@.len() ==> bdd_manager_of(#[trigger] next_state@[i])
                        == manager_id(*manager),
                forall|u: int|
                    0 <= u < v ==> bdd_configs(#[trigger] next_state@[u]) == bdd_configs(
                        current@[u],
                    ).union(step_configs(*vpg, current@, player, u)),
                !changed ==> forall|u: int|
                    0 <= u < v ==> bdd_configs(#[trigger] next_state@[u]) == bdd_configs(
                        current@[u],
                    ),
            decreases nv - v,
        {
            let step = match symbolic_attractor_step(
                vpg,
                VertexIndex::new(v),
                player,
                &current,
                manager,
            ) {
                Ok(f) => f,
                Err(e) => {
                    return Err(e);
                },
            };
            let combined = match bdd_or(&current[v], &step) {
                Ok(f) => f,
                Err(_) => {
                    return Err(LibraryError::OutOfMemory);
                },
            };
            if !bdd_eq(&combined, &current[v]) {
                changed = true;
            }
            next_state.push(combined);
            v = v + 1;
        }
        if !changed {
            // The chain is stable: the state absorbs its own step.
            proof {
                assert forall|u: int| 0 <= u < nv implies step_configs(
                    *vpg,
                    current@,
                    player,
                    u,
                ).subset_of(bdd_configs(#[trigger] current@[u])) by {
                    assert(bdd_configs(next_state@[u]) == bdd_configs(current@[u]).union(
                        step_configs(*vpg, current@, player, u),
                    ));
                    assert(bdd_configs(next_state@[u]) == bdd_configs(current@[u]));
                    assert forall|a: Map<int, bool>|
                        step_configs(*vpg, current@, player, u).contains(a) implies bdd_configs(
                        current@[u],
                    ).contains(a) by {
                        assert(bdd_configs(current@[u]).union(
                            step_configs(*vpg, current@, player, u),
                        ).contains(a));
                    }
                }
            }
            return Ok(current);
        }
        current = next_state;
        round = round + 1;
    }
    Err(LibraryError::IterationLimit)
}

/// Relies on oxidd's `BooleanFunction::t`: the constant true function
/// holds on every assignment.
#[verifier::external_body]
pub fn bdd_constant_true(m: &BDDManagerRef) -> (r: BDDFunction)
    ensures
        bdd_configs(r) == all_assignments(),
        bdd_manager_of(r) == manager_id(*m),
{
    oxidd::ManagerRef::with_manager_shared(m, |manager| {
        <BDDFunction as oxidd::BooleanFunction>::t(manager)
    })
}

/// Relies on oxidd's `Clone` on functions: a cloned handle denotes the
/// same set of assignments in the same manager.
#[verifier::external_body]
fn bdd_clone(a: &BDDFunction) -> (r: BDDFunction)
    ensures
        bdd_configs(r) == bdd_configs(*a),
        bdd_manager_of(r) == bdd_manager_of(*a),
{
    a.clone()
}

/// The configurations on which an opponent-owned vertex escapes within a
/// subgame, over its first `k` edges: the union of each edge's
/// configuration, restricted to where the successor is in the subgame,
/// intersected with the complement of the successor's winning
/// configurations.
pub open spec fn opponent_subgame_escapes(
    vpg: VariabilityParityGame,
    sub: Seq<BDDFunction>,
    state: Seq<BDDFunction>,
    v: int,
    k: int,
) -> Set<Map<int, bool>>
    decreases k,
{
    if k <= 0 {
        no_assignments()
    } else {
        opponent_subgame_escapes(vpg, sub, state, v, k - 1).union(
            bdd_configs(vpg.spec_config(vpg.spec_game().spec_edge_index(v, k - 1))).intersect(
                bdd_configs(sub[vpg.spec_game().succs(v)[k - 1] as int]),
            ).intersect(bdd_configs(state[vpg.spec_game().succs(v)[k - 1] as int]).complement()),
        )
    }
}

/// The configurations that one attractor step contributes at a vertex of a
/// subgame: the owner's union of enabled wins, or the complement of the
/// opponent's escapes within the subgame.
pub open spec fn subgame_step_configs(
    vpg: VariabilityParityGame,
    sub: Seq<BDDFunction>,
    state: Seq<BDDFunction>,
    player: Player,
    v: int,
) -> Set<Map<int, bool>> {
    let d = vpg.spec_game().succs(v).len() as int;
    if vpg.spec_game().spec_owner(v) == player {
        owner_step_configs(vpg, state, v, d)
    } else {
        opponent_subgame_escapes(vpg, sub, state, v, d).complement()
    }
}

/// One algebraic attractor step at a vertex of a subgame: as
/// `symbolic_attractor_step`, but an opponent's escape must lead to a
/// successor that is itself in the subgame.
#[verifier::rlimit(100)]
fn symbolic_subgame_step(
    vpg: &VariabilityParityGame,
    sub: &Vec<BDDFunction>,
    state: &Vec<BDDFunction>,
    vertex: VertexIndex,
    player: Player,
    manager: &BDDManagerRef,
) -> (r: Result<BDDFunction, LibraryError>)
    requires
        vpg.wf(),
        (vertex.spec_value() as int) < vpg.spec_game().spec_num_vertices(),
        sub@.len() == vpg.spec_game().spec_num_vertices(),
        state@.len() == vpg.spec_game().spec_num_vertices(),
        forall|i: int|
            0 <= i < vpg.spec_game().spec_num_edges() ==> bdd_manager_of(
                #[trigger] vpg.spec_config(i),
            ) == manager_id(*manager),
        forall|i: int|
            0 <= i < sub@.len() ==> bdd_manager_of(#[trigger] sub@[i]) == manager_id(*manager),
        forall|i: int|
            0 <= i < state@.len() ==> bdd_manager_of(#[trigger] state@[i]) == manager_id(
                *manager,
            ),
    ensures
        r matches Ok(f) ==> bdd_manager_of(f) == manager_id(*manager) && bdd_configs(f)
            == subgame_step_configs(*vpg, sub@, state@, player, vertex.spec_value() as int),
{
    let game = vpg.game();
    proof {
        game.lemma_wf();
    }
    let v = vertex.value();
    let d = game.out_degree(vertex);
    let owner = game.owner(vertex);
    let same = owner.to_index() == player.to_index();
    let mut acc = bdd_constant_false(manager);
    let mut k: usize = 0;
    while k < d
        invariant
            vpg.wf(),
            *game == vpg.spec_game(),
            game.wf(),
            vertex.spec_value() == v,
            (v as int) < game.spec_num_vertices(),
            sub@.len() == game.spec_num_vertices(),
            state@.len() == game.spec_num_vertices(),
            d == game.succs(v as int).len(),
            0 <= k <= d,
            same == (game.spec_owner(v as int) == player),
            forall|i: int|
                0 <= i < game.spec_num_edges() ==> bdd_manager_of(#[trigger] vpg.spec_config(i))
                    == manager_id(*manager),
            forall|i: int|
                0 <= i < sub@.len() ==> bdd_manager_of(#[trigger] sub@[i]) == manager_id(
                    *manager,
                ),
            forall|i: int|
                0 <= i < state@.len() ==> bdd_manager_of(#[trigger] state@[i]) == manager_id(
                    *manager,
                ),
            bdd_manager_of(acc) == manager_id(*manager),
            same ==> bdd_configs(acc) == owner_step_configs(*vpg, state@, v as int, k as int),
            !same ==> bdd_configs(acc) == opponent_subgame_escapes(
                *vpg,
                sub@,
                state@,
                v as int,
                k as int,
            ),
        decreases d - k,
    {
        proof {
            game.lemma_wf();
        }
        let w = game.successor(vertex, k).value();
        let idx = game.edge_index(vertex, k);
        proof {
            assert(vpg.spec_config(idx as int) == vpg.configurations@[idx as int]);
            assert(bdd_manager_of(sub@[w as int]) == manager_id(*manager));
            assert(bdd_manager_of(state@[w as int]) == manager_id(*manager));
        }
        let term = if same {
            match bdd_and(&vpg.configurations[idx], &state[w]) {
                Ok(t) => t,
                Err(_) => {
                    return Err(LibraryError::OutOfMemory);
                },
            }
        } else {
            let enabled = match bdd_and(&vpg.configurations[idx], &sub[w]) {
                Ok(t) => t,
                Err(_) => {
                    return Err(LibraryError::OutOfMemory);
                },
            };
            let losing = match bdd_not(&state[w]) {
                Ok(t) => t,
                Err(_) => {
                    return Err(LibraryError::OutOfMemory);
                },
            };
            match bdd_and(&enabled, &losing) {
                Ok(t) => t,
                Err(_) => {
                    return Err(LibraryError::OutOfMemory);
                },
            }
        };
        acc = match bdd_or(&acc, &term) {
            Ok(t) => t,
            Err(_) => {
                return Err(LibraryError::OutOfMemory);
            },
        };
        k = k + 1;
    }
    if same {
        Ok(acc)
    } else {
        // By De Morgan, the opponent is attracted exactly where it has no
        // escape within the subgame.
        match bdd_not(&acc) {
            Ok(t) => Ok(t),
            Err(_) => Err(LibraryError::OutOfMemory),
        }
    }
}

/// A vector of constant-false functions, one per vertex.
fn false_states(manager: &BDDManagerRef, n: usize) -> (r: Vec<BDDFunction>)
    ensures
        r@.len() == n,
        forall|i: int| 0 <= i < n ==> bdd_configs(#[trigger] r@[i]) == no_assignments(),
        forall|i: int| 0 <= i < n ==> bdd_manager_of(#[trigger] r@[i]) == manager_id(*manager),
{
    let mut out: Vec<BDDFunction> = Vec::new();
    let mut i: usize = 0;
    while i < n
        invariant
            0 <= i <= n,
            out@.len() == i,
            forall|j: int| 0 <= j < i ==> bdd_configs(#[trigger] out@[j]) == no_assignments(),
            forall|j: int| 0 <= j < i ==> bdd_manager_of(#[trigger] out@[j]) == manager_id(*manager),
        decreases n - i,
    {
        out.push(bdd_constant_false(manager));
        i = i + 1;
    }
    out
}

/// A copy of a state vector: the same assignment sets, handle by handle.
fn clone_states(state: &Vec<BDDFunction>) -> (r: Vec<BDDFunction>)
    ensures
        r@.len() == state@.len(),
        forall|i: int|
            0 <= i < state@.len() ==> bdd_configs(#[trigger] r@[i]) == bdd_configs(state@[i]),
        forall|i: int|
            0 <= i < state@.len() ==> bdd_manager_of(#[trigger] r@[i]) == bdd_manager_of(
                state@[i],
            ),
{
    let n = state.len();
    let mut out: Vec<BDDFunction> = Vec::new();
    let mut i: usize = 0;
    while i < n
        invariant
            n == state@.len(),
            0 <= i <= n,
            out@.len() == i,
            forall|j: int|
                0 <= j < i ==> bdd_configs(#[trigger] out@[j]) == bdd_configs(state@[j]),
            forall|j: int|
                0 <= j < i ==> bdd_manager_of(#[trigger] out@[j]) == bdd_manager_of(state@[j]),
        decreases n - i,
    {
        out.push(bdd_clone(&state[i]));
        i = i + 1;
    }
    out
}

/// Whether every vertex's configurations are empty.
fn all_unsatisfiable(state: &Vec<BDDFunction>) -> (r: bool)
    ensures
        r == (forall|i: int| 0 <= i < state@.len() ==> bdd_configs(#[trigger] state@[i]).is_empty()),
{
    let n = state.len();
    let mut i: usize = 0;
    while i < n
        invariant
            n == state@.len(),
            0 <= i <= n,
            forall|j: int| 0 <= j < i ==> bdd_configs(#[trigger] state@[j]).is_empty(),
        decreases n - i,
    {
        if bdd_satisfiable(&state[i]) {
            return false;
        }
        i = i + 1;
    }
    true
}

/// The per-vertex difference of two state vectors.
fn subtract_states(x: &Vec<BDDFunction>, y: &Vec<BDDFunction>) -> (r: Result<
    Vec<BDDFunction>,
    LibraryError,
>)
    requires
        x@.len() == y@.len(),
        forall|i: int|
            0 <= i < x@.len() ==> bdd_manager_of(#[trigger] x@[i]) == bdd_manager_of(y@[i]),
    ensures
        r matches Ok(d) ==> {
            &&& d@.len() == x@.len()
            &&& forall|i: int|
                0 <= i < x@.len() ==> bdd_configs(#[trigger] d@[i]) == bdd_configs(
                    x@[i],
                ).difference(bdd_configs(y@[i]))
            &&& forall|i: int|
                0 <= i < x@.len() ==> bdd_manager_of(#[trigger] d@[i]) == bdd_manager_of(x@[i])
        },
{
    let n = x.len();
    let mut out: Vec<BDDFunction> = Vec::new();
    let mut i: usize = 0;
    while i < n
        invariant
            n == x@.len(),
            x@.len() == y@.len(),
            forall|j: int|
                0 <= j < x@.len() ==> bdd_manager_of(#[trigger] x@[j]) == bdd_manager_of(y@[j]),
            0 <= i <= n,
            out@.len() == i,
            forall|j: int|
                0 <= j < i ==> bdd_configs(#[trigger] out@[j]) == bdd_configs(x@[j]).difference(
                    bdd_configs(y@[j]),
                ),
            forall|j: int|
                0 <= j < i ==> bdd_manager_of(#[trigger] out@[j]) == bdd_manager_of(x@[j]),
        decreases n - i,
    {
        let away = match bdd_not(&y[i]) {
            Ok(t) => t,
            Err(_) => {
                return Err(LibraryError::OutOfMemory);
            },
        };
        let kept = match bdd_and(&x[i], &away) {
            Ok(t) => t,
            Err(_) => {
                return Err(LibraryError::OutOfMemory);
            },
        };
        proof {
            assert(bdd_configs(kept) =~= bdd_configs(x@[i as int]).difference(
                bdd_configs(y@[i as int]),
            ));
        }
        out.push(kept);
        i = i + 1;
    }
    Ok(out)
}

/// The per-vertex union of two state vectors.
fn union_states(x: &Vec<BDDFunction>, y: &Vec<BDDFunction>) -> (r: Result<
    Vec<BDDFunction>,
    LibraryError,
>)
    requires
        x@.len() == y@.len(),
        forall|i: int|
            0 <= i < x@.len() ==> bdd_manager_of(#[trigger] x@[i]) == bdd_manager_of(y@[i]),
    ensures
        r matches Ok(u) ==> {
            &&& u@.len() == x@.len()
            &&& forall|i: int|
                0 <= i < x@.len() ==> bdd_configs(#[trigger] u@[i]) == bdd_configs(x@[i]).union(
                    bdd_configs(y@[i]),
                )
            &&& forall|i: int|
                0 <= i < x@.len() ==> bdd_manager_of(#[trigger] u@[i]) == bdd_manager_of(x@[i])
        },
{
    let n = x.len();
    let mut out: Vec<BDDFunction> = Vec::new();
    let mut i: usize = 0;
    while i < n
        invariant
            n == x@.len(),
            x@.len() == y@.len(),
            forall|j: int|
                0 <= j < x@.len() ==> bdd_manager_of(#[trigger] x@[j]) == bdd_manager_of(y@[j]),
            0 <= i <= n,
            out@.len() == i,
            forall|j: int|
                0 <= j < i ==> bdd_configs(#[trigger] out@[j]) == bdd_configs(x@[j]).union(
                    bdd_configs(y@[j]),
                ),
            forall|j: int|
                0 <= j < i ==> bdd_manager_of(#[trigger] out@[j]) == bdd_manager_of(x@[j]),
        decreases n - i,
    {
        let joined = match bdd_or(&x[i], &y[i]) {
            Ok(t) => t,
            Err(_) => {
                return Err(LibraryError::OutOfMemory);
            },
        };
        out.push(joined);
        i = i + 1;
    }
    Ok(out)
}

/// Iterates the subgame attractor step over every vertex until no vertex's
/// configurations change, within the given number of rounds: in each round,
/// a vertex gains those subgame configurations on which the step attracts
/// it. The result extends the seed, stays inside the subgame wherever the
/// seed does, and absorbs its own step on the subgame.
#[verifier::rlimit(100)]
fn symbolic_subgame_attractor(
    vpg: &VariabilityParityGame,
    sub: &Vec<BDDFunction>,
    player: Player,
    seed: Vec<BDDFunction>,
    manager: &BDDManagerRef,
    max_rounds: usize,
) -> (r: Result<Vec<BDDFunction>, LibraryError>)
    requires
        vpg.wf(),
        sub@.len() == vpg.spec_game().spec_num_vertices(),
        seed@.len() == vpg.spec_game().spec_num_vertices(),
        forall|i: int|
            0 <= i < vpg.spec_game().spec_num_edges() ==> bdd_manager_of(
                #[trigger] vpg.spec_config(i),
            ) == manager_id(*manager),
        forall|i: int|
            0 <= i < sub@.len() ==> bdd_manager_of(#[trigger] sub@[i]) == manager_id(*manager),
        forall|i: int|
            0 <= i < seed@.len() ==> bdd_manager_of(#[trigger] seed@[i]) == manager_id(*manager),
        forall|i: int|
            0 <= i < seed@.len() ==> bdd_configs(#[trigger] seed@[i]).subset_of(bdd_configs(
                sub@[i],
            )),
    ensures
        max_rounds == 0 ==> r == Result::<Vec<BDDFunction>, LibraryError>::Err(
            LibraryError::IterationLimit,
        ),
        r matches Ok(a) ==> {
            &&& a@.len() == vpg.spec_game().spec_num_vertices()
            &&& forall|i: int|
                0 <= i < a@.len() ==> bdd_manager_of(#[trigger] a@[i]) == manager_id(*manager)
            &&& forall|v: int|
                0 <= v < a@.len() ==> bdd_configs(seed@[v]).subset_of(bdd_configs(
                    #[trigger] a@[v],
                ))
            &&& forall|v: int|
                0 <= v < a@.len() ==> bdd_configs(#[trigger] a@[v]).subset_of(bdd_configs(
                    sub@[v],
                ))
            &&& forall|v: int|
                0 <= v < a@.len() ==> subgame_step_configs(*vpg, sub@, a@, player, v).intersect(
                    bdd_configs(sub@[v]),
                ).subset_of(bdd_configs(#[trigger] a@[v]))
        },
{
    let game = vpg.game();
    let nv = game.num_of_vertices();
    proof {
        game.lemma_wf();
    }
    let mut current = seed;
    let mut round: usize = 0;
    #[verifier::loop_isolation(false)]
    while round < max_rounds
        invariant
            current@.len() == nv,
            0 <= round <= max_rounds,
            forall|i: int|
                0 <= i < current@.len() ==> bdd_manager_of(#[trigger] current@[i]) == manager_id(
                    *manager,
                ),
            forall|v: int|
                0 <= v < nv ==> bdd_configs(seed@[v]).subset_of(bdd_configs(
                    #[trigger] current@[v],
                )),
            forall|v: int|
                0 <= v < nv ==> bdd_configs(#[trigger] current@[v]).subset_of(bdd_configs(
                    sub@[v],
                )),
        decreases max_rounds - round,
    {
        let ghost before = current@;
        let mut next_state: Vec<BDDFunction> = Vec::new();
        let mut changed = false;
        let mut v: usize = 0;
        while v < nv
            invariant
                vpg.wf(),
                *game == vpg.spec_game(),
                game.wf(),
                nv == game.spec_num_vertices(),
                round < max_rounds,
                0 <= v <= nv,
                before == current@,
                current@.len() == nv,
                sub@.len() == nv,
                next_state@.len() == v,
                forall|i: int|
                    0 <= i < game.spec_num_edges() ==> bdd_manager_of(
                        #[trigger] vpg.spec_config(i),
                    ) == manager_id(*manager),
                forall|i: int|
                    0 <= i < sub@.len() ==> bdd_manager_of(#[trigger] sub@[i]) == manager_id(
                        *manager,
                    ),
                forall|i: int|
                    0 <= i < current@.len() ==> bdd_manager_of(#[trigger] current@[i])
                        == manager_id(*manager),
                forall|i: int|
                    0 <= i < next_state@.len() ==> bdd_manager_of(#[trigger] next_state@[i])
                        == manager_id(*manager),
                forall|u: int|
                    0 <= u < v ==> bdd_configs(#[trigger] next_state@[u]) == bdd_configs(
                        current@[u],
                    ).union(
                        subgame_step_configs(*vpg, sub@, current@, player, u).intersect(
                            bdd_configs(sub@[u]),
                        ),
                    ),
                !changed ==> forall|u: int|
                    0 <= u < v ==> bdd_configs(#[trigger] next_state@[u]) == bdd_configs(
                        current@[u],
                    ),
            decreases nv - v,
        {
            let step = match symbolic_subgame_step(
                vpg,
                sub,
                &current,
                VertexIndex::new(v),
                player,
                manager,
            ) {
                Ok(f) => f,
                Err(e) => {
                    return Err(e);
                },
            };
            let confined = match bdd_and(&step, &sub[v]) {
                Ok(f) => f,
                Err(_) => {
                    return Err(LibraryError::OutOfMemory);
                },
            };
            let combined = match bdd_or(&current[v], &confined) {
                Ok(f) => f,
                Err(_) => {
                    return Err(LibraryError::OutOfMemory);
                },
            };
            if !bdd_eq(&combined, &current[v]) {
                changed = true;
            }
            next_state.push(combined);
            v = v + 1;
        }
        if !changed {
            // The chain is stable: the state absorbs its own subgame step.
            proof {
                assert forall|u: int| 0 <= u < nv implies subgame_step_configs(
                    *vpg,
                    sub@,
                    current@,
                    player,
                    u,
                ).intersect(bdd_configs(sub@[u])).subset_of(bdd_configs(
                    #[trigger] current@[u],
                )) by {
                    assert(bdd_configs(next_state@[u]) == bdd_configs(current@[u]).union(
                        subgame_step_configs(*vpg, sub@, current@, player, u).intersect(
                            bdd_configs(sub@[u]),
                        ),
                    ));
                    assert(bdd_configs(next_state@[u]) == bdd_configs(current@[u]));
                    assert forall|a: Map<int, bool>|
                        subgame_step_configs(*vpg, sub@, current@, player, u).intersect(
                            bdd_configs(sub@[u]),
                        ).contains(a) implies bdd_configs(current@[u]).contains(a) by {
                        assert(bdd_configs(current@[u]).union(
                            subgame_step_configs(*vpg, sub@, current@, player, u).intersect(
                                bdd_configs(sub@[u]),
                            ),
                        ).contains(a));
                    }
                }
            }
            return Ok(current);
        }
        current = next_state;
        round = round + 1;
    }
    Err(LibraryError::IterationLimit)
}

/// `p` is the maximum priority among the vertices whose subgame
/// configurations are not empty.
pub open spec fn is_live_max_priority(
    vpg: VariabilityParityGame,
    sub: Seq<BDDFunction>,
    p: int,
) -> bool {
    &&& exists|v: int|
        0 <= v < sub.len() && !bdd_configs(#[trigger] sub[v]).is_empty()
            && vpg.spec_game().spec_priority(v) == p
    &&& forall|v: int|
        0 <= v < sub.len() && !bdd_configs(#[trigger] sub[v]).is_empty()
            ==> vpg.spec_game().spec_priority(v) <= p
}

/// Finds the maximum priority among the vertices whose subgame
/// configurations are not empty, if any vertex is live.
fn find_live_max_priority(vpg: &VariabilityParityGame, sub: &Vec<BDDFunction>) -> (r: Option<
    Priority,
>)
    requires
        vpg.wf(),
        sub@.len() == vpg.spec_game().spec_num_vertices(),
    ensures
        r is None <==> forall|v: int|
            0 <= v < sub@.len() ==> bdd_configs(#[trigger] sub@[v]).is_empty(),
        r matches Some(p) ==> is_live_max_priority(*vpg, sub@, p.spec_value() as int),
{
    let game = vpg.game();
    let nv = game.num_of_vertices();
    proof {
        game.lemma_wf();
    }
    let mut best: Option<Priority> = None;
    let mut v: usize = 0;
    while v < nv
        invariant
            vpg.wf(),
            *game == vpg.spec_game(),
            game.wf(),
            nv == game.spec_num_vertices(),
            sub@.len() == nv,
            0 <= v <= nv,
            best is None ==> forall|u: int|
                0 <= u < v ==> bdd_configs(#[trigger] sub@[u]).is_empty(),
            best matches Some(p) ==> (exists|u: int|
                0 <= u < v && !bdd_configs(#[trigger] sub@[u]).is_empty()
                    && game.spec_priority(u) == p.spec_value()) && (forall|u: int|
                0 <= u < v && !bdd_configs(#[trigger] sub@[u]).is_empty() ==> game.spec_priority(
                    u,
                ) <= p.spec_value()),
        decreases nv - v,
    {
        if bdd_satisfiable(&sub[v]) {
            let pr = game.priority(VertexIndex::new(v));
            match best {
                None => {
                    best = Some(pr);
                },
                Some(b) => {
                    if pr.value() > b.value() {
                        best = Some(pr);
                    }
                },
            }
        }
        v = v + 1;
    }
    best
}

/// The subgame configurations of the vertices carrying priority `p`: the
/// target of the first attractor of the recursive step.
fn restrict_to_priority(
    vpg: &VariabilityParityGame,
    sub: &Vec<BDDFunction>,
    p: Priority,
    manager: &BDDManagerRef,
) -> (r: Vec<BDDFunction>)
    requires
        vpg.wf(),
        sub@.len() == vpg.spec_game().spec_num_vertices(),
        forall|i: int|
            0 <= i < sub@.len() ==> bdd_manager_of(#[trigger] sub@[i]) == manager_id(*manager),
    ensures
        r@.len() == sub@.len(),
        forall|v: int|
            0 <= v < sub@.len() ==> bdd_configs(#[trigger] r@[v]) == (
            if vpg.spec_game().spec_priority(v) == p.spec_value() {
                bdd_configs(sub@[v])
            } else {
                no_assignments()
            }),
        forall|v: int|
            0 <= v < sub@.len() ==> bdd_manager_of(#[trigger] r@[v]) == manager_id(*manager),
{
    let game = vpg.game();
    let nv = game.num_of_vertices();
    proof {
        game.lemma_wf();
    }
    let mut out: Vec<BDDFunction> = Vec::new();
    let mut v: usize = 0;
    while v < nv
        invariant
            vpg.wf(),
            *game == vpg.spec_game(),
            game.wf(),
            nv == game.spec_num_vertices(),
            sub@.len() == nv,
            forall|i: int|
                0 <= i < sub@.len() ==> bdd_manager_of(#[trigger] sub@[i]) == manager_id(
                    *manager,
                ),
            0 <= v <= nv,
            out@.len() == v,
            forall|u: int|
                0 <= u < v ==> bdd_configs(#[trigger] out@[u]) == (if game.spec_priority(u)
                    == p.spec_value() {
                    bdd_configs(sub@[u])
                } else {
                    no_assignments()
                }),
            forall|u: int|
                0 <= u < v ==> bdd_manager_of(#[trigger] out@[u]) == manager_id(*manager),
        decreases nv - v,
    {
        if game.priority(VertexIndex::new(v)).value() == p.value() {
            out.push(bdd_clone(&sub[v]));
        } else {
            out.push(bdd_constant_false(manager));
        }
        v = v + 1;
    }
    out
}

/// Solves a subgame of a variability parity game recursively, the lifted
/// form of the attractor-based algorithm: remove the attractor of the
/// configurations carrying the highest live priority, solve the remainder,
/// and either the player of that priority wins the whole subgame, or the
/// opponent's region is expanded by its own attractor and the rest is
/// solved again — with union, intersection and complement of configuration
/// sets in place of set membership. At every vertex the two returned
/// regions partition the subgame's configurations: each configuration of
/// the subgame is won by exactly one player there. `fuel` bounds the
/// recursion depth and `max_rounds` each attractor's rounds; exhausting
/// either is reported, never guessed around.
#[verifier::rlimit(100)]
fn lifted_zielonka(
    vpg: &VariabilityParityGame,
    sub: Vec<BDDFunction>,
    manager: &BDDManagerRef,
    fuel: usize,
    max_rounds: usize,
) -> (r: Result<(Vec<BDDFunction>, Vec<BDDFunction>), LibraryError>)
    requires
        vpg.wf(),
        sub@.len() == vpg.spec_game().spec_num_vertices(),
        forall|i: int|
            0 <= i < vpg.spec_game().spec_num_edges() ==> bdd_manager_of(
                #[trigger] vpg.spec_config(i),
            ) == manager_id(*manager),
        forall|i: int|
            0 <= i < sub@.len() ==> bdd_manager_of(#[trigger] sub@[i]) == manager_id(*manager),
    ensures
        fuel == 0 ==> r == Result::<(Vec<BDDFunction>, Vec<BDDFunction>), LibraryError>::Err(
            LibraryError::IterationLimit,
        ),
        r matches Ok(p) ==> {
            &&& p.0@.len() == vpg.spec_game().spec_num_vertices()
            &&& p.1@.len() == vpg.spec_game().spec_num_vertices()
            &&& forall|i: int|
                0 <= i < p.0@.len() ==> bdd_manager_of(#[trigger] p.0@[i]) == manager_id(*manager)
            &&& forall|i: int|
                0 <= i < p.1@.len() ==> bdd_manager_of(#[trigger] p.1@[i]) == manager_id(*manager)
            &&& forall|v: int|
                0 <= v < sub@.len() ==> bdd_configs(p.0@[v]).union(bdd_configs(p.1@[v]))
                    == bdd_configs(#[trigger] sub@[v])
            &&& forall|v: int|
                0 <= v < sub@.len() ==> bdd_configs((#[trigger] p.0@[v])).intersect(bdd_configs(
                    p.1@[v],
                )) == no_assignments()
        },
    decreases fuel,
{
    let game = vpg.game();
    let nv = game.num_of_vertices();
    proof {
        game.lemma_wf();
    }
    if fuel == 0 {
        return Err(LibraryError::IterationLimit);
    }
    match find_live_max_priority(vpg, &sub) {
        None => {
            // Every vertex's subgame configurations are empty: so are both
            // regions.
            let we = false_states(manager, nv);
            let wo = false_states(manager, nv);
            proof {
                assert forall|v: int| 0 <= v < nv implies bdd_configs(we@[v]).union(bdd_configs(
                    wo@[v],
                )) == bdd_configs(#[trigger] sub@[v]) by {
                    assert(bdd_configs(sub@[v]).is_empty());
                    assert(bdd_configs(we@[v]).union(bdd_configs(wo@[v])) =~= bdd_configs(
                        sub@[v],
                    ));
                }
                assert(forall|v: int|
                    0 <= v < nv ==> bdd_configs((#[trigger] we@[v])).intersect(bdd_configs(
                        wo@[v],
                    )) =~= no_assignments());
            }
            Ok((we, wo))
        },
        Some(p) => {
            let alpha = Player::from_priority(&p);
            let t = restrict_to_priority(vpg, &sub, p, manager);
            proof {
                assert forall|i: int| 0 <= i < nv implies bdd_configs(
                    #[trigger] t@[i],
                ).subset_of(bdd_configs(sub@[i])) by {
                    if game.spec_priority(i) != p.spec_value() {
                        assert(bdd_configs(t@[i]).is_empty());
                    }
                }
            }
            let a = match symbolic_subgame_attractor(vpg, &sub, alpha, t, manager, max_rounds) {
                Ok(a) => a,
                Err(e) => {
                    return Err(e);
                },
            };
            let sub1 = match subtract_states(&sub, &a) {
                Ok(d) => d,
                Err(e) => {
                    return Err(e);
                },
            };
            let ghost sub1v = sub1@;
            let rec1 = match lifted_zielonka(vpg, sub1, manager, fuel - 1, max_rounds) {
                Ok(q) => q,
                Err(e) => {
                    return Err(e);
                },
            };
            let (we1, wo1) = rec1;
            let is_even = match alpha {
                Player::Even => true,
                Player::Odd => false,
            };
            let w_opp_empty = if is_even {
                all_unsatisfiable(&wo1)
            } else {
                all_unsatisfiable(&we1)
            };
            if w_opp_empty {
                // The opponent wins nothing in the remainder: the player of
                // the top priority wins the entire subgame.
                let all = clone_states(&sub);
                let none = false_states(manager, nv);
                proof {
                    assert(forall|v: int|
                        0 <= v < nv ==> bdd_configs((#[trigger] all@[v])).union(bdd_configs(
                            none@[v],
                        )) =~= bdd_configs(sub@[v]));
                    assert(forall|v: int|
                        0 <= v < nv ==> bdd_configs((#[trigger] none@[v])).union(bdd_configs(
                            all@[v],
                        )) =~= bdd_configs(sub@[v]));
                    assert(forall|v: int|
                        0 <= v < nv ==> bdd_configs((#[trigger] all@[v])).intersect(bdd_configs(
                            none@[v],
                        )) =~= no_assignments());
                    assert(forall|v: int|
                        0 <= v < nv ==> bdd_configs((#[trigger] none@[v])).intersect(bdd_configs(
                            all@[v],
                        )) =~= no_assignments());
                }
                if is_even {
                    Ok((all, none))
                } else {
                    Ok((none, all))
                }
            } else {
                let beta = alpha.opponent();
                let w_opp = if is_even {
                    clone_states(&wo1)
                } else {
                    clone_states(&we1)
                };
                proof {
                    // The opponent's region lies in the remainder, which
                    // lies in the subgame.
                    assert forall|i: int| 0 <= i < nv implies bdd_configs(
                        #[trigger] w_opp@[i],
                    ).subset_of(bdd_configs(sub@[i])) by {
                        assert(bdd_configs(we1@[i]).union(bdd_configs(wo1@[i])) == bdd_configs(
                            sub1v[i],
                        ));
                        assert(bdd_configs(sub1v[i]) == bdd_configs(sub@[i]).difference(
                            bdd_configs(a@[i]),
                        ));
                        if is_even {
                            assert(bdd_configs(w_opp@[i]) == bdd_configs(wo1@[i]));
                        } else {
                            assert(bdd_configs(w_opp@[i]) == bdd_configs(we1@[i]));
                        }
                        assert forall|x: Map<int, bool>|
                            bdd_configs(w_opp@[i]).contains(x) implies bdd_configs(
                            sub@[i],
                        ).contains(x) by {
                            assert(bdd_configs(sub1v[i]).contains(x));
                        }
                    }
                }
                let b = match symbolic_subgame_attractor(
                    vpg,
                    &sub,
                    beta,
                    w_opp,
                    manager,
                    max_rounds,
                ) {
                    Ok(b) => b,
                    Err(e) => {
                        return Err(e);
                    },
                };
                let sub2 = match subtract_states(&sub, &b) {
                    Ok(d) => d,
                    Err(e) => {
                        return Err(e);
                    },
                };
                let ghost sub2v = sub2@;
                let rec2 = match lifted_zielonka(vpg, sub2, manager, fuel - 1, max_rounds) {
                    Ok(q) => q,
                    Err(e) => {
                        return Err(e);
                    },
                };
                let (we2, wo2) = rec2;
                if is_even {
                    let wo = match union_states(&wo2, &b) {
                        Ok(u) => u,
                        Err(e) => {
                            return Err(e);
                        },
                    };
                    proof {
                        lemma_lifted_merge(sub@, sub2v, b@, we2@, wo2@, wo@, nv as int);
                    }
                    Ok((we2, wo))
                } else {
                    let we = match union_states(&we2, &b) {
                        Ok(u) => u,
                        Err(e) => {
                            return Err(e);
                        },
                    };
                    proof {
                        assert forall|v: int| 0 <= v < nv implies bdd_configs(
                            #[trigger] wo2@[v],
                        ).union(bdd_configs(we2@[v])) == bdd_configs(sub2v[v]) by {
                            assert(bdd_configs(wo2@[v]).union(bdd_configs(we2@[v])) =~= bdd_configs(
                                we2@[v],
                            ).union(bdd_configs(wo2@[v])));
                        }
                        assert forall|v: int| 0 <= v < nv implies bdd_configs(
                            (#[trigger] wo2@[v]),
                        ).intersect(bdd_configs(we2@[v])) == no_assignments() by {
                            assert(bdd_configs(wo2@[v]).intersect(bdd_configs(we2@[v]))
                                =~= bdd_configs(we2@[v]).intersect(bdd_configs(wo2@[v])));
                        }
                        lemma_lifted_merge(sub@, sub2v, b@, wo2@, we2@, we@, nv as int);
                        assert(forall|v: int|
                            0 <= v < nv ==> bdd_configs((#[trigger] we@[v])).union(bdd_configs(
                                wo2@[v],
                            )) =~= bdd_configs(sub@[v]));
                        assert(forall|v: int|
                            0 <= v < nv ==> bdd_configs((#[trigger] we@[v])).intersect(
                                bdd_configs(wo2@[v]),
                            ) =~= no_assignments());
                    }
                    Ok((we, wo2))
                }
            }
        },
    }
}

/// Merging the opponent's attractor into the opponent's region of the
/// solved remainder partitions the whole subgame: the remainder's regions
/// partition the subgame minus the attractor, and the attractor completes
/// it disjointly.
proof fn lemma_lifted_merge(
    sub: Seq<BDDFunction>,
    rest: Seq<BDDFunction>,
    b: Seq<BDDFunction>,
    keep: Seq<BDDFunction>,
    grow: Seq<BDDFunction>,
    merged: Seq<BDDFunction>,
    n: int,
)
    requires
        sub.len() >= n,
        rest.len() >= n,
        b.len() >= n,
        keep.len() >= n,
        grow.len() >= n,
        merged.len() >= n,
        forall|v: int|
            0 <= v < n ==> bdd_configs(#[trigger] rest[v]) == bdd_configs(sub[v]).difference(
                bdd_configs(b[v]),
            ),
        forall|v: int|
            0 <= v < n ==> bdd_configs(#[trigger] b[v]).subset_of(bdd_configs(sub[v])),
        forall|v: int|
            0 <= v < n ==> bdd_configs(keep[v]).union(bdd_configs(grow[v])) == bdd_configs(
                #[trigger] rest[v],
            ),
        forall|v: int|
            0 <= v < n ==> bdd_configs((#[trigger] keep[v])).intersect(bdd_configs(grow[v]))
                == no_assignments(),
        forall|v: int|
            0 <= v < n ==> bdd_configs(#[trigger] merged[v]) == bdd_configs(grow[v]).union(
                bdd_configs(b[v]),
            ),
    ensures
        forall|v: int|
            0 <= v < n ==> bdd_configs(keep[v]).union(bdd_configs(merged[v])) == bdd_configs(
                #[trigger] sub[v],
            ),
        forall|v: int|
            0 <= v < n ==> bdd_configs((#[trigger] keep[v])).intersect(bdd_configs(merged[v]))
                == no_assignments(),
{
    assert forall|v: int| 0 <= v < n implies bdd_configs(keep[v]).union(bdd_configs(merged[v]))
        == bdd_configs(#[trigger] sub[v]) by {
        assert forall|x: Map<int, bool>|
            bdd_configs(keep[v]).union(bdd_configs(merged[v])).contains(x) == bdd_configs(
            sub[v],
        ).contains(x) by {
            if bdd_configs(sub[v]).contains(x) {
                if bdd_configs(b[v]).contains(x) {
                    assert(bdd_configs(merged[v]).contains(x));
                } else {
                    assert(bdd_configs(rest[v]).contains(x));
                    assert(bdd_configs(keep[v]).union(bdd_configs(grow[v])).contains(x));
                }
            }
            if bdd_configs(keep[v]).union(bdd_configs(merged[v])).contains(x) {
                if bdd_configs(keep[v]).contains(x) {
                    assert(bdd_configs(keep[v]).union(bdd_configs(grow[v])).contains(x));
                    assert(bdd_configs(rest[v]).contains(x));
                } else if bdd_configs(grow[v]).contains(x) {
                    assert(bdd_configs(keep[v]).union(bdd_configs(grow[v])).contains(x));
                    assert(bdd_configs(rest[v]).contains(x));
                }
            }
        }
        assert(bdd_configs(keep[v]).union(bdd_configs(merged[v])) =~= bdd_configs(sub[v]));
    }
    assert forall|v: int| 0 <= v < n implies bdd_configs((#[trigger] keep[v])).intersect(
        bdd_configs(merged[v]),
    ) == no_assignments() by {
        assert forall|x: Map<int, bool>|
            !(bdd_configs(keep[v]).intersect(bdd_configs(merged[v])).contains(x)) by {
            if bdd_configs(keep[v]).contains(x) {
                assert(bdd_configs(rest[v]).contains(x));
                assert(!bdd_configs(b[v]).contains(x));
                if bdd_configs(grow[v]).contains(x) {
                    assert(bdd_configs(keep[v]).intersect(bdd_configs(grow[v])).contains(x));
                }
            }
        }
        assert(bdd_configs(keep[v]).intersect(bdd_configs(merged[v])) =~= no_assignments());
    }
}

/// Solves a variability parity game symbolically: for every vertex, the
/// configurations on which Even wins and those on which Odd wins. Finite
/// parity games are determined for every configuration, and the contract
/// says so: at every vertex the two sets partition the space of
/// assignments, so Odd's winning set is the complement of Even's. `fuel`
/// bounds the recursion depth and `max_rounds` each attractor's rounds;
/// when either runs out before the chains stabilize, the solve reports it
/// rather than return a guess.
pub fn solve_variability_zielonka(
    vpg: &VariabilityParityGame,
    manager: &BDDManagerRef,
    fuel: usize,
    max_rounds: usize,
) -> (r: Result<(Vec<BDDFunction>, Vec<BDDFunction>), LibraryError>)
    requires
        vpg.wf(),
        forall|i: int|
            0 <= i < vpg.spec_game().spec_num_edges() ==> bdd_manager_of(
                #[trigger] vpg.spec_config(i),
            ) == manager_id(*manager),
    ensures
        r matches Ok(p) ==> {
            &&& p.0@.len() == vpg.spec_game().spec_num_vertices()
            &&& p.1@.len() == vpg.spec_game().spec_num_vertices()
            &&& forall|v: int|
                0 <= v < p.0@.len() ==> bdd_configs(p.0@[v]).union(bdd_configs(p.1@[v]))
                    == all_assignments() && bdd_configs((#[trigger] p.0@[v])).intersect(
                    bdd_configs(p.1@[v]),
                ) == no_assignments()
            &&& forall|v: int|
                0 <= v < p.1@.len() ==> bdd_configs(#[trigger] p.1@[v]) == bdd_configs(
                    p.0@[v],
                ).complement()
        },
{
    let game = vpg.game();
    let nv = game.num_of_vertices();
    proof {
        game.lemma_wf();
    }
    let mut sub: Vec<BDDFunction> = Vec::new();
    let mut i: usize = 0;
    while i < nv
        invariant
            0 <= i <= nv,
            sub@.len() == i,
            forall|j: int| 0 <= j < i ==> bdd_configs(#[trigger] sub@[j]) == all_assignments(),
            forall|j: int|
                0 <= j < i ==> bdd_manager_of(#[trigger] sub@[j]) == manager_id(*manager),
        decreases nv - i,
    {
        sub.push(bdd_constant_true(manager));
        i = i + 1;
    }
    let ghost subv = sub@;
    match lifted_zielonka(vpg, sub, manager, fuel, max_rounds) {
        Ok(p) => {
            proof {
                assert forall|v: int| 0 <= v < p.1@.len() implies bdd_configs(
                    #[trigger] p.1@[v],
                ) == bdd_configs(p.0@[v]).complement() by {
                    assert(bdd_configs(p.0@[v]).union(bdd_configs(p.1@[v])) == bdd_configs(
                        subv[v],
                    ));
                    assert(bdd_configs(subv[v]) == all_assignments());
                    assert forall|x: Map<int, bool>|
                        bdd_configs(p.1@[v]).contains(x) == bdd_configs(
                        p.0@[v],
                    ).complement().contains(x) by {
                        if bdd_configs(p.1@[v]).contains(x) {
                            if bdd_configs(p.0@[v]).contains(x) {
                                assert(bdd_configs(p.0@[v]).intersect(
                                    bdd_configs(p.1@[v]),
                                ).contains(x));
                            }
                        }
                        if bdd_configs(p.0@[v]).complement().contains(x) {
                            assert(all_assignments().contains(x));
                            assert(bdd_configs(p.0@[v]).union(bdd_configs(p.1@[v])).contains(x));
                        }
                    }
                    assert(bdd_configs(p.1@[v]) =~= bdd_configs(p.0@[v]).complement());
                }
            }
            Ok(p)
        },
        Err(e) => Err(e),
    }
}

} // verus!
