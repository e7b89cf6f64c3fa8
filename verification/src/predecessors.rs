//! The predecessor index of a parity game: a reverse CSR adjacency built
//! with the same counting-sort technique as the forward one. Attractor
//! computation needs, for a given vertex, "who can reach me in one step",
//! which the forward adjacency cannot answer without a full scan.

use vstd::prelude::*;

use crate::csr::build_csr;
use crate::csr::offset_of;
use crate::csr::tos_from;
use crate::game::ParityGame;
use crate::game::VertexIndex;
use crate::game::index_values;

verus! {

/// Membership in a per-source successor list is exactly the presence of the
/// corresponding edge in the edge list.
pub proof fn lemma_tos_from_contains(es: Seq<(usize, usize)>, v: int, x: usize)
    ensures
        tos_from(es, v).contains(x) <==> exists|i: int|
            0 <= i < es.len() && ((#[trigger] es[i]).0 as int) == v && es[i].1 == x,
    decreases es.len(),
{
    if es.len() == 0 {
    } else {
        let es2 = es.drop_last();
        lemma_tos_from_contains(es2, v, x);
        assert(forall|i: int| 0 <= i < es2.len() ==> (#[trigger] es2[i]) == es[i]);
        assert(es.last() == es[es.len() - 1]);
        if (es.last().0 as int) == v {
            lemma_push_contains(tos_from(es2, v), es.last().1, x);
        }
        if tos_from(es, v).contains(x) {
            if tos_from(es2, v).contains(x) {
                let i = choose|i: int|
                    0 <= i < es2.len() && ((#[trigger] es2[i]).0 as int) == v && es2[i].1 == x;
                assert((es[i].0 as int) == v && es[i].1 == x);
            } else {
                assert((es[es.len() - 1].0 as int) == v && es[es.len() - 1].1 == x);
            }
        }
        if exists|i: int| 0 <= i < es.len() && ((#[trigger] es[i]).0 as int) == v && es[i].1 == x {
            let i = choose|i: int|
                0 <= i < es.len() && ((#[trigger] es[i]).0 as int) == v && es[i].1 == x;
            if i < es.len() - 1 {
                assert(((es2[i]).0 as int) == v && es2[i].1 == x);
                assert(tos_from(es2, v).contains(x));
            }
            assert(tos_from(es, v).contains(x));
        }
    }
}

/// The predecessor index of a parity game: for every vertex, the sources of
/// its incoming edges, in a compact reverse adjacency.
pub struct Predecessors {
    offsets: Vec<usize>,
    preds: Vec<VertexIndex>,
}

impl Predecessors {
    /// The predecessors of vertex `v`.
    pub closed spec fn preds_of(self, v: int) -> Seq<usize> {
        index_values(self.preds@.subrange(self.offsets@[v] as int, self.offsets@[v + 1] as int))
    }

    /// This index lists exactly the reversed edges of `g`: `u` is recorded
    /// as a predecessor of `w` if and only if `w` is a successor of `u`.
    pub closed spec fn built_from(self, g: ParityGame) -> bool {
        &&& self.offsets@.len() == g.spec_num_vertices() + 1
        &&& forall|v: int|
            0 <= v < g.spec_num_vertices() ==> (#[trigger] self.offsets@[v]) <= self.offsets@[v
                + 1] <= self.preds@.len()
        &&& forall|i: int|
            0 <= i < self.preds@.len() ==> ((#[trigger] self.preds@[i]).spec_value() as int)
                < g.spec_num_vertices()
        &&& forall|u: int, w: int|
            0 <= u < g.spec_num_vertices() && 0 <= w < g.spec_num_vertices() ==> ((
            #[trigger] self.preds_of(w).contains(u as usize)) <==> g.succs(u).contains(w as usize))
    }

    /// The index inverts the edge relation: `u` is a recorded predecessor
    /// of `w` exactly when `w` is a successor of `u`.
    pub proof fn lemma_preds_iff(self, g: ParityGame, u: int, w: int)
        requires
            self.built_from(g),
            0 <= u < g.spec_num_vertices(),
            0 <= w < g.spec_num_vertices(),
        ensures
            self.preds_of(w).contains(u as usize) <==> g.succs(u).contains(w as usize),
    {
    }

    /// The number of predecessors of the given vertex.
    pub fn pred_count(&self, vertex: VertexIndex, g: &ParityGame) -> (r: usize)
        requires
            self.built_from(*g),
            (vertex.spec_value() as int) < g.spec_num_vertices(),
        ensures
            r == self.preds_of(vertex.spec_value() as int).len(),
    {
        let n = self.offsets.len();
        let v = vertex.value();
        self.offsets[v + 1] - self.offsets[v]
    }

    /// The `k`-th predecessor of the given vertex.
    pub fn pred(&self, vertex: VertexIndex, k: usize, g: &ParityGame) -> (r: VertexIndex)
        requires
            self.built_from(*g),
            (vertex.spec_value() as int) < g.spec_num_vertices(),
            k < self.preds_of(vertex.spec_value() as int).len(),
        ensures
            r.spec_value() == self.preds_of(vertex.spec_value() as int)[k as int],
            (r.spec_value() as int) < g.spec_num_vertices(),
    {
        let n = self.offsets.len();
        let v = vertex.value();
        let start = self.offsets[v];
        proof {
            assert(start + k < self.offsets@[v as int + 1]);
            assert(self.preds_of(v as int)[k as int] == self.preds@[start + k].spec_value());
        }
        self.preds[start + k]
    }

    /// Builds the predecessor index of a game by reversing every edge and
    /// running the counting-sort CSR construction on the reversed list.
    #[verifier::rlimit(100)]
    pub fn new(g: &ParityGame) -> (r: Self)
        requires
            g.wf(),
        ensures
            r.built_from(*g),
    {
        let nv = g.num_of_vertices();
        proof {
            g.lemma_wf();
        }

        let rev = collect_reversed_edges(g);

        let (offsets, tos) = build_csr(nv, &rev);

        // Re-tag the predecessor values as vertex indices.
        let ne = tos.len();
        let mut preds: Vec<VertexIndex> = Vec::new();
        let mut i: usize = 0;
        while i < ne
            invariant
                0 <= i <= ne,
                ne == tos@.len(),
                preds@.len() == i,
                forall|j: int| 0 <= j < i ==> (#[trigger] preds@[j]).spec_value() == tos@[j],
            decreases ne - i,
        {
            preds.push(VertexIndex::new(tos[i]));
            i = i + 1;
        }

        let index = Predecessors { offsets, preds };
        proof {
            let es = rev@;
            assert(index.offsets@.len() == nv + 1);
            assert forall|j: int| 0 <= j < index.preds@.len() implies ((
            #[trigger] index.preds@[j]).spec_value() as int) < nv by {
                assert(index.preds@[j].spec_value() == tos@[j]);
            }
            assert forall|v: int| 0 <= v < nv implies (#[trigger] index.offsets@[v])
                <= index.offsets@[v + 1] <= index.preds@.len() by {
                assert(offset_of(es, v + 1) == offset_of(es, v) + tos_from(es, v).len());
                crate::csr::lemma_offset_monotone(es, v + 1, nv as int);
                crate::csr::lemma_offset_total(es, nv as int);
            }
            assert forall|v: int| 0 <= v < nv implies #[trigger] index.preds_of(v) == tos_from(
                es,
                v,
            ) by {
                crate::csr::lemma_offset_monotone(es, 0, v);
                crate::csr::lemma_offset_monotone(es, v + 1, nv as int);
                crate::csr::lemma_offset_total(es, nv as int);
                assert(offset_of(es, v + 1) == offset_of(es, v) + tos_from(es, v).len());
                assert(index.preds_of(v) =~= tos@.subrange(offset_of(es, v), offset_of(es, v + 1)));
            }
            assert forall|u_: int, w_: int|
                0 <= u_ < nv && 0 <= w_ < nv implies ((#[trigger] index.preds_of(w_).contains(
                u_ as usize,
            )) <==> g.succs(u_).contains(w_ as usize)) by {
                lemma_tos_from_contains(es, w_, u_ as usize);
                assert(tos_from(es, w_).contains(u_ as usize) <==> es.contains(
                    ((w_ as usize), (u_ as usize)),
                )) by {
                    if es.contains(((w_ as usize), (u_ as usize))) {
                        let i2 = choose|i2: int|
                            0 <= i2 < es.len() && es[i2] == ((w_ as usize), (u_ as usize));
                        assert((es[i2].0 as int) == w_ && es[i2].1 == (u_ as usize));
                    }
                    if exists|i2: int|
                        0 <= i2 < es.len() && ((#[trigger] es[i2]).0 as int) == w_ && es[i2].1 == (
                        u_ as usize) {
                        let i2 = choose|i2: int|
                            0 <= i2 < es.len() && ((#[trigger] es[i2]).0 as int) == w_ && es[i2].1
                                == (u_ as usize);
                        assert(es[i2] == ((w_ as usize), (u_ as usize)));
                        assert(es.contains(((w_ as usize), (u_ as usize))));
                    }
                }
            }
        }
        index
    }
}

/// Collects every edge `(u, w)` of the game as the reversed pair `(w, u)`:
/// the raw material for the reverse adjacency.
fn collect_reversed_edges(g: &ParityGame) -> (rev: Vec<(usize, usize)>)
    requires
        g.wf(),
    ensures
        forall|w_: int, u_: int|
            0 <= w_ < g.spec_num_vertices() && 0 <= u_ < g.spec_num_vertices() ==> ((
            #[trigger] rev@.contains(((w_ as usize), (u_ as usize)))) <==> g.succs(u_).contains(
                w_ as usize,
            )),
        forall|i: int|
            0 <= i < rev@.len() ==> (#[trigger] rev@[i]).0 < g.spec_num_vertices() && rev@[i].1
                < g.spec_num_vertices(),
{
    let nv = g.num_of_vertices();
    let mut rev: Vec<(usize, usize)> = Vec::new();
    let mut u: usize = 0;
    while u < nv
        invariant
            g.wf(),
            nv == g.spec_num_vertices(),
            0 <= u <= nv,
            forall|w_: int, u_: int|
                0 <= w_ < nv && 0 <= u_ < nv ==> ((#[trigger] rev@.contains(
                    ((w_ as usize), (u_ as usize)),
                )) <==> u_ < u && g.succs(u_).contains(w_ as usize)),
            forall|i: int|
                0 <= i < rev@.len() ==> (#[trigger] rev@[i]).0 < nv && rev@[i].1 < nv,
        decreases nv - u,
    {
        let d = g.out_degree(VertexIndex::new(u));
        let mut k: usize = 0;
        while k < d
            invariant
                g.wf(),
                nv == g.spec_num_vertices(),
                0 <= u < nv,
                d == g.succs(u as int).len(),
                0 <= k <= d,
                forall|w_: int, u_: int|
                    0 <= w_ < nv && 0 <= u_ < nv ==> ((#[trigger] rev@.contains(
                        ((w_ as usize), (u_ as usize)),
                    )) <==> (u_ < u && g.succs(u_).contains(w_ as usize)) || (u_ == u
                        && g.succs(u_).take(k as int).contains(w_ as usize))),
                forall|i: int|
                    0 <= i < rev@.len() ==> (#[trigger] rev@[i]).0 < nv && rev@[i].1 < nv,
            decreases d - k,
        {
            let w = g.successor(VertexIndex::new(u), k);
            let ghost rev0 = rev@;
            rev.push((w.value(), u));
            proof {
                g.lemma_wf();
                assert(g.succs(u as int).take(k as int + 1) =~= g.succs(u as int).take(
                    k as int,
                ).push(g.succs(u as int)[k as int]));
                assert forall|w_: int, u_: int|
                    0 <= w_ < nv && 0 <= u_ < nv implies ((#[trigger] rev@.contains(
                    ((w_ as usize), (u_ as usize)),
                )) <==> (u_ < u && g.succs(u_).contains(w_ as usize)) || (u_ == u && g.succs(
                    u_,
                ).take(k as int + 1).contains(w_ as usize))) by {
                    lemma_push_contains(rev0, ((w.spec_value()), u), ((w_ as usize), (u_ as usize)));
                    lemma_push_contains(
                        g.succs(u as int).take(k as int),
                        g.succs(u as int)[k as int],
                        w_ as usize,
                    );
                    assert(g.succs(u as int).take(k as int).push(g.succs(u as int)[k as int])
                        == g.succs(u as int).take(k as int + 1));
                }
            }
            k = k + 1;
        }
        proof {
            assert(g.succs(u as int).take(d as int) =~= g.succs(u as int));
        }
        u = u + 1;
    }
    rev
}

/// Membership in a pushed sequence is membership in the original or equality
/// with the new element.
pub proof fn lemma_push_contains<A>(s: Seq<A>, a: A, x: A)
    ensures
        s.push(a).contains(x) <==> s.contains(x) || a == x,
{
    if s.push(a).contains(x) {
        let k = choose|k: int| 0 <= k < s.push(a).len() && s.push(a)[k] == x;
        if k < s.len() {
            assert(s[k] == x);
        }
    }
    if s.contains(x) {
        let k = choose|k: int| 0 <= k < s.len() && s[k] == x;
        assert(s.push(a)[k] == x);
    }
    if a == x {
        assert(s.push(a)[s.len() as int] == x);
    }
}

} // verus!
