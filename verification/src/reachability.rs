//! Reachability trimming: compacts a parity game to the part reachable
//! from its initial vertex, assigning each first-discovered vertex a new
//! index equal to its discovery order, so the new initial vertex is 0.

use vstd::prelude::*;
use vstd::set_lib::lemma_int_range;
use vstd::set_lib::lemma_len_subset;
use vstd::set_lib::set_int_range;

use crate::csr::tos_from;
use crate::game::ParityGame;
use crate::game::Player;
use crate::game::Priority;
use crate::game::VertexIndex;
use crate::game::edge_pairs;

verus! {

/// A path of the game: it starts at the initial vertex, and each step
/// follows an edge.
pub open spec fn is_path(g: ParityGame, p: Seq<int>) -> bool {
    &&& p.len() >= 1
    &&& p[0] == g.spec_initial()
    &&& forall|i: int| 0 <= i < p.len() ==> 0 <= #[trigger] p[i] < g.spec_num_vertices()
    &&& forall|i: int|
        0 <= i < p.len() - 1 ==> g.succs(#[trigger] p[i]).contains(p[i + 1] as usize)
}

/// Whether a path from the initial vertex reaches `v`.
pub open spec fn reaches(g: ParityGame, v: int) -> bool {
    exists|p: Seq<int>| is_path(g, p) && p.last() == v
}

/// The new index a vertex was mapped to, or -1 if it was dropped.
pub open spec fn mapped_index(mapping: Seq<Option<VertexIndex>>, v: int) -> int {
    match mapping[v] {
        Some(m) => m.spec_value() as int,
        None => -1,
    }
}

/// The set of vertices that a mapping keeps.
pub open spec fn kept_set(mapping: Seq<Option<VertexIndex>>) -> Set<int> {
    Set::new(|v: int| 0 <= v < mapping.len() && mapping[v] is Some)
}

/// The initial vertex reaches itself by the one-vertex path.
proof fn lemma_reaches_initial(g: ParityGame)
    requires
        g.wf(),
    ensures
        reaches(g, g.spec_initial()),
{
    g.lemma_wf();
    let p = seq![g.spec_initial()];
    assert(is_path(g, p));
    assert(p.last() == g.spec_initial());
}

/// Reachability is closed under edges: a successor of a reached vertex is
/// reached.
proof fn lemma_reaches_step(g: ParityGame, u: int, w: int)
    requires
        g.wf(),
        reaches(g, u),
        0 <= u < g.spec_num_vertices(),
        0 <= w < g.spec_num_vertices(),
        g.succs(u).contains(w as usize),
    ensures
        reaches(g, w),
{
    let p = choose|p: Seq<int>| is_path(g, p) && p.last() == u;
    let p2 = p.push(w);
    assert(is_path(g, p2)) by {
        assert(forall|i: int| 0 <= i < p.len() ==> p2[i] == #[trigger] p[i]);
        assert(p2[p2.len() - 1] == w);
        assert(p2[p.len() - 1] == p.last());
    }
    assert(p2.last() == w);
}

/// Any set of vertices that contains the initial vertex and is closed
/// under edges contains every reached vertex.
proof fn lemma_reaches_least(g: ParityGame, d: Set<int>, p: Seq<int>)
    requires
        g.wf(),
        d.contains(g.spec_initial()),
        forall|u: int, k: int|
            #[trigger] d.contains(u) && 0 <= u < g.spec_num_vertices() && 0 <= k < g.succs(
                u,
            ).len() ==> d.contains((#[trigger] g.succs(u)[k]) as int),
        is_path(g, p),
    ensures
        d.contains(p.last()),
    decreases p.len(),
{
    if p.len() == 1 {
    } else {
        let p2 = p.subrange(0, p.len() - 1);
        assert(is_path(g, p2)) by {
            assert(forall|i: int| 0 <= i < p2.len() ==> p2[i] == #[trigger] p[i]);
        }
        lemma_reaches_least(g, d, p2);
        assert(p2.last() == p[p.len() - 2]);
        assert(g.succs(p[p.len() - 2]).contains(p[p.len() - 1] as usize));
        let u = p[p.len() - 2];
        g.lemma_wf();
        assert(0 <= p[p.len() - 1] < g.spec_num_vertices());
        let k = choose|k: int|
            0 <= k < g.succs(u).len() && g.succs(u)[k] == (p[p.len() - 1] as usize);
        assert(d.contains(u));
        assert(d.contains(g.succs(u)[k] as int));
        assert((g.succs(u)[k] as int) == p[p.len() - 1]);
        assert(d.contains(p.last()));
    }
}

/// Trims a game to the vertices reachable from its initial vertex. Returns
/// the trimmed game and the index mapping: a vertex `v` of the original
/// game is kept, under the new index recorded for it, exactly when a path
/// from the initial vertex reaches `v`. Owners and priorities carry over,
/// the successors are the old ones under the new indices, and the new
/// initial vertex is 0.
#[verifier::rlimit(100)]
pub fn compute_reachable(game: &ParityGame) -> (r: (ParityGame, Vec<Option<VertexIndex>>))
    requires
        game.wf(),
    ensures
        r.1@.len() == game.spec_num_vertices(),
        forall|v: int|
            0 <= v < game.spec_num_vertices() ==> ((#[trigger] r.1@[v]) is Some <==> reaches(
                *game,
                v,
            )),
        r.0.wf(),
        r.0.spec_num_vertices() <= game.spec_num_vertices(),
        r.0.spec_initial() == 0,
        r.1@[game.spec_initial()] matches Some(m) && m.spec_value() == 0,
        forall|v: int|
            0 <= v < game.spec_num_vertices() && (#[trigger] r.1@[v]) is Some ==> {
                let m = mapped_index(r.1@, v);
                &&& 0 <= m < r.0.spec_num_vertices()
                &&& r.0.spec_owner(m) == game.spec_owner(v)
                &&& r.0.spec_priority(m) == game.spec_priority(v)
                &&& r.0.succs(m) == game.succs(v).map_values(
                    |w: usize| mapped_index(r.1@, w as int) as usize,
                )
            },
{
    let nv = game.num_of_vertices();
    proof {
        game.lemma_wf();
        lemma_int_range(0, nv as int);
    }

    // Discover the reachable vertices in order, assigning discovery indices.
    let mut mapping: Vec<Option<VertexIndex>> = Vec::new();
    let mut v: usize = 0;
    while v < nv
        invariant
            0 <= v <= nv,
            mapping@.len() == v,
            forall|u: int| 0 <= u < v ==> (#[trigger] mapping@[u]) is None,
        decreases nv - v,
    {
        mapping.push(None);
        v = v + 1;
    }

    let initial = game.initial_vertex().value();
    let mut order: Vec<usize> = Vec::new();
    mapping[initial] = Some(VertexIndex::new(0));
    order.push(initial);
    proof {
        lemma_reaches_initial(*game);
        assert(kept_set(mapping@) =~= Set::<int>::empty().insert(initial as int));
        assert(Set::<int>::empty().insert(initial as int).len() == 1) by {
            vstd::set::axiom_set_insert_len(Set::<int>::empty(), initial as int);
        }
    }

    let mut head: usize = 0;
    while head < order.len()
        invariant
            game.wf(),
            nv == game.spec_num_vertices(),
            mapping@.len() == nv,
            initial == game.spec_initial(),
            0 <= head <= order@.len(),
            order@.len() <= nv,
            order@.len() == kept_set(mapping@).len(),
            kept_set(mapping@).finite(),
            kept_set(mapping@).subset_of(set_int_range(0, nv as int)),
            order@[0] == initial,
            mapping@[initial as int] is Some,
            forall|i: int|
                0 <= i < order@.len() ==> ((#[trigger] order@[i]) as int) < nv
                    && (mapping@[order@[i] as int] matches Some(m) && m.spec_value() == i),
            forall|u: int|
                0 <= u < nv && (#[trigger] mapping@[u]) is Some ==> mapped_index(mapping@, u)
                    < order@.len() && order@[mapped_index(mapping@, u)] == u,
            forall|u: int| 0 <= u < nv && (#[trigger] mapping@[u]) is Some ==> reaches(*game, u),
            forall|i: int, k: int|
                0 <= i < head && 0 <= k < game.succs((#[trigger] order@[i]) as int).len()
                    ==> mapping@[(#[trigger] game.succs(order@[i] as int)[k]) as int] is Some,
        decreases nv - head,
    {
        proof {
            game.lemma_wf();
            lemma_int_range(0, nv as int);
        }
        let u = order[head];
        let d = game.out_degree(VertexIndex::new(u));
        let mut k: usize = 0;
        while k < d
            invariant
                game.wf(),
                nv == game.spec_num_vertices(),
                mapping@.len() == nv,
                initial == game.spec_initial(),
                0 <= head < order@.len(),
                u == order@[head as int],
                (u as int) < nv,
                d == game.succs(u as int).len(),
                0 <= k <= d,
                order@.len() <= nv,
                order@.len() == kept_set(mapping@).len(),
                kept_set(mapping@).finite(),
                kept_set(mapping@).subset_of(set_int_range(0, nv as int)),
                order@[0] == initial,
                mapping@[initial as int] is Some,
                forall|i: int|
                    0 <= i < order@.len() ==> ((#[trigger] order@[i]) as int) < nv
                        && (mapping@[order@[i] as int] matches Some(m) && m.spec_value() == i),
                forall|u2: int|
                    0 <= u2 < nv && (#[trigger] mapping@[u2]) is Some ==> mapped_index(
                        mapping@,
                        u2,
                    ) < order@.len() && order@[mapped_index(mapping@, u2)] == u2,
                forall|u2: int|
                    0 <= u2 < nv && (#[trigger] mapping@[u2]) is Some ==> reaches(*game, u2),
                forall|i: int, k2: int|
                    0 <= i < head && 0 <= k2 < game.succs((#[trigger] order@[i]) as int).len()
                        ==> mapping@[(#[trigger] game.succs(order@[i] as int)[k2]) as int] is Some,
                forall|k2: int|
                    0 <= k2 < k ==> mapping@[(#[trigger] game.succs(u as int)[k2]) as int] is Some,
            decreases d - k,
        {
            proof {
                game.lemma_wf();
                lemma_int_range(0, nv as int);
            }
            let w = game.successor(VertexIndex::new(u), k).value();
            if mapping[w].is_none() {
                proof {
                    lemma_int_range(0, nv as int);
                    assert(mapping@[u as int] is Some);
                    assert(reaches(*game, u as int));
                    lemma_reaches_step(*game, u as int, w as int);
                    assert(!kept_set(mapping@).contains(w as int));
                    vstd::set::axiom_set_insert_len(kept_set(mapping@), w as int);
                    lemma_len_subset(kept_set(mapping@), set_int_range(0, nv as int));
                }
                let ghost mapping0 = mapping@;
                let ghost order0 = order@;
                let n = order.len();
                mapping[w] = Some(VertexIndex::new(n));
                order.push(w);
                proof {
                    lemma_int_range(0, nv as int);
                    assert(kept_set(mapping@) =~= kept_set(mapping0).insert(w as int));
                    lemma_len_subset(kept_set(mapping@), set_int_range(0, nv as int));
                    assert forall|i2: int| 0 <= i2 < order@.len() implies ((
                    #[trigger] order@[i2]) as int) < nv && (mapping@[order@[i2] as int]
                        matches Some(m) && m.spec_value() == i2) by {
                        if i2 < order0.len() {
                            assert(order@[i2] == order0[i2]);
                            assert((order0[i2] as int) != w as int);
                        } else {
                            assert(order@[i2] == w);
                        }
                    }
                    assert forall|u2: int|
                        0 <= u2 < nv && (#[trigger] mapping@[u2]) is Some implies mapped_index(
                        mapping@,
                        u2,
                    ) < order@.len() && order@[mapped_index(mapping@, u2)] == u2 by {
                        if u2 == w as int {
                            assert(order@[n as int] == w);
                        } else {
                            assert(mapping@[u2] == mapping0[u2]);
                            assert(order@[mapped_index(mapping0, u2)] == order0[mapped_index(
                                mapping0,
                                u2,
                            )]);
                        }
                    }
                }
            }
            k = k + 1;
        }
        head = head + 1;
    }

    // Every reached vertex is now mapped: the discovered set contains the
    // initial vertex and is closed under edges.
    proof {
        assert forall|v2: int| 0 <= v2 < nv implies ((#[trigger] mapping@[v2]) is Some <==> reaches(
            *game,
            v2,
        )) by {
            if reaches(*game, v2) {
                let d = kept_set(mapping@);
                assert(d.contains(game.spec_initial()));
                assert forall|u2: int, k2: int|
                    #[trigger] d.contains(u2) && 0 <= u2 < nv && 0 <= k2 < game.succs(
                        u2,
                    ).len() implies d.contains((#[trigger] game.succs(u2)[k2]) as int) by {
                    let i = mapped_index(mapping@, u2);
                    assert(order@[i] == u2);
                    assert(mapping@[game.succs(order@[i] as int)[k2] as int] is Some);
                }
                let p = choose|p: Seq<int>| is_path(*game, p) && p.last() == v2;
                lemma_reaches_least(*game, d, p);
            }
        }
    }

    // Build the trimmed arrays in discovery order.
    let count = order.len();
    let mut owners: Vec<Player> = Vec::new();
    let mut priorities: Vec<Priority> = Vec::new();
    let mut edges: Vec<(VertexIndex, VertexIndex)> = Vec::new();
    let mut i: usize = 0;
    while i < count
        invariant
            game.wf(),
            nv == game.spec_num_vertices(),
            mapping@.len() == nv,
            count == order@.len(),
            count <= nv,
            0 <= i <= count,
            forall|i2: int|
                0 <= i2 < count ==> ((#[trigger] order@[i2]) as int) < nv && (mapping@[order@[i2]
                    as int] matches Some(m) && m.spec_value() == i2),
            forall|i2: int, k2: int|
                0 <= i2 < count && 0 <= k2 < game.succs((#[trigger] order@[i2]) as int).len()
                    ==> mapping@[(#[trigger] game.succs(order@[i2] as int)[k2]) as int] is Some,
            forall|u2: int|
                0 <= u2 < nv && (#[trigger] mapping@[u2]) is Some ==> mapped_index(mapping@, u2)
                    < count && order@[mapped_index(mapping@, u2)] == u2,
            owners@.len() == i,
            priorities@.len() == i,
            forall|i2: int|
                0 <= i2 < i ==> (#[trigger] owners@[i2]) == game.spec_owner(order@[i2] as int),
            forall|i2: int|
                0 <= i2 < i ==> ((#[trigger] priorities@[i2]).spec_value() as int)
                    == game.spec_priority(order@[i2] as int),
            forall|j: int|
                0 <= j < edges@.len() ==> ((#[trigger] edges@[j]).0.spec_value() as int) < i && (
                edges@[j].1.spec_value() as int) < count,
            forall|i2: int|
                0 <= i2 < i ==> tos_from(edge_pairs(edges@), i2) =~= game.succs(
                    (#[trigger] order@[i2]) as int,
                ).map_values(|w: usize| mapped_index(mapping@, w as int) as usize),
        decreases count - i,
    {
        proof {
            game.lemma_wf();
            lemma_int_range(0, nv as int);
        }
        let u = order[i];
        let ui = VertexIndex::new(u);
        owners.push(game.owner(ui));
        priorities.push(game.priority(ui));
        let d = game.out_degree(ui);
        proof {
            assert(forall|j: int|
                0 <= j < edge_pairs(edges@).len() ==> ((#[trigger] edge_pairs(edges@)[j]).0
                    as int) != i as int);
            crate::csr::lemma_tos_from_absent(edge_pairs(edges@), i as int);
            assert(game.succs(u as int).take(0) =~= Seq::<usize>::empty());
            assert(tos_from(edge_pairs(edges@), i as int) =~= game.succs(u as int).take(
                0,
            ).map_values(|w2: usize| mapped_index(mapping@, w2 as int) as usize));
        }
        let mut k: usize = 0;
        while k < d
            invariant
                game.wf(),
                nv == game.spec_num_vertices(),
                mapping@.len() == nv,
                count == order@.len(),
                count <= nv,
                0 <= i < count,
                u == order@[i as int],
                (u as int) < nv,
                ui.spec_value() == u,
                d == game.succs(u as int).len(),
                0 <= k <= d,
                forall|i2: int|
                    0 <= i2 < count ==> ((#[trigger] order@[i2]) as int) < nv && (mapping@[order@[i2]
                        as int] matches Some(m) && m.spec_value() == i2),
                forall|i2: int, k2: int|
                    0 <= i2 < count && 0 <= k2 < game.succs((#[trigger] order@[i2]) as int).len()
                        ==> mapping@[(#[trigger] game.succs(order@[i2] as int)[k2]) as int]
                        is Some,
                forall|u2: int|
                    0 <= u2 < nv && (#[trigger] mapping@[u2]) is Some ==> mapped_index(
                        mapping@,
                        u2,
                    ) < count && order@[mapped_index(mapping@, u2)] == u2,
                forall|j: int|
                    0 <= j < edges@.len() ==> ((#[trigger] edges@[j]).0.spec_value() as int) <= i
                        && (edges@[j].1.spec_value() as int) < count,
                forall|i2: int|
                    0 <= i2 < i ==> tos_from(edge_pairs(edges@), i2) =~= game.succs(
                        (#[trigger] order@[i2]) as int,
                    ).map_values(|w: usize| mapped_index(mapping@, w as int) as usize),
                tos_from(edge_pairs(edges@), i as int) =~= game.succs(u as int).take(
                    k as int,
                ).map_values(|w: usize| mapped_index(mapping@, w as int) as usize),
            decreases d - k,
        {
            proof {
                game.lemma_wf();
                lemma_int_range(0, nv as int);
            }
            let w = game.successor(ui, k).value();
            let m = match mapping[w] {
                Some(m) => m,
                None => {
                    proof {
                        assert(false);
                    }
                    VertexIndex::new(0)
                },
            };
            let ghost edges0 = edges@;
            edges.push((VertexIndex::new(i), m));
            proof {
                assert(edge_pairs(edges@) =~= edge_pairs(edges0).push((i, m.spec_value())));
                assert(edge_pairs(edges0).push((i, m.spec_value())).drop_last() =~= edge_pairs(
                    edges0,
                ));
                assert forall|i2: int| 0 <= i2 < i implies tos_from(edge_pairs(edges@), i2)
                    =~= game.succs((#[trigger] order@[i2]) as int).map_values(
                    |w2: usize| mapped_index(mapping@, w2 as int) as usize,
                ) by {
                    assert(tos_from(edge_pairs(edges@), i2) == tos_from(edge_pairs(edges0), i2));
                }
                assert(game.succs(u as int).take(k as int + 1) =~= game.succs(u as int).take(
                    k as int,
                ).push(game.succs(u as int)[k as int]));
                assert(tos_from(edge_pairs(edges@), i as int) =~= game.succs(u as int).take(
                    k as int + 1,
                ).map_values(|w2: usize| mapped_index(mapping@, w2 as int) as usize));
            }
            k = k + 1;
        }
        proof {
            assert(game.succs(u as int).take(d as int) =~= game.succs(u as int));
        }
        i = i + 1;
    }

    proof {
        assert(mapping@[initial as int] is Some);
        assert(mapped_index(mapping@, initial as int) < count);
        assert(count >= 1);
    }
    let ghost owners_v = owners@;
    let ghost priorities_v = priorities@;
    let trimmed = match ParityGame::from_edges(
        VertexIndex::new(0),
        owners,
        priorities,
        Some(count),
        &edges,
    ) {
        Ok(gm) => gm,
        Err(_) => {
            proof {
                assert(false);
            }
            ParityGame::new(VertexIndex::new(0), Vec::new(), Vec::new(), Vec::new(), Vec::new())
        },
    };
    proof {
        assert(mapping@[initial as int] is Some && mapped_index(mapping@, initial as int) == 0);
        assert forall|v2: int|
            0 <= v2 < nv && (#[trigger] mapping@[v2]) is Some implies {
            let m = mapped_index(mapping@, v2);
            &&& 0 <= m < trimmed.spec_num_vertices()
            &&& trimmed.spec_owner(m) == game.spec_owner(v2)
            &&& trimmed.spec_priority(m) == game.spec_priority(v2)
            &&& trimmed.succs(m) == game.succs(v2).map_values(
                |w2: usize| mapped_index(mapping@, w2 as int) as usize,
            )
        } by {
            let m = mapped_index(mapping@, v2);
            assert(0 <= m < count);
            assert(order@[m] == v2);
            assert(trimmed.spec_owner(m) == owners_v[m]);
            assert(owners_v[m] == game.spec_owner(order@[m] as int));
            assert(trimmed.spec_priority(m) == priorities_v[m].spec_value());
            assert((priorities_v[m].spec_value() as int) == game.spec_priority(
                order@[m] as int,
            ));
            assert(trimmed.succs(m) == tos_from(edge_pairs(edges@), m));
            assert(tos_from(edge_pairs(edges@), m) =~= game.succs(v2).map_values(
                |w2: usize| mapped_index(mapping@, w2 as int) as usize,
            ));
        }
    }
    (trimmed, mapping)
}

} // verus!
