//! Two-pass counting-sort construction of a compact adjacency (CSR) layout:
//! per-vertex offsets into one flat successor array.
//!
//! The same construction serves the forward adjacency of a parity game and
//! the reverse adjacency of its predecessor index.

use vstd::prelude::*;

verus! {

/// The successor values of all edges with source `v`, in the order in which
/// the edges appear in `es`.
pub open spec fn tos_from(es: Seq<(usize, usize)>, v: int) -> Seq<usize>
    decreases es.len(),
{
    if es.len() == 0 {
        Seq::empty()
    } else if es.last().0 as int == v {
        tos_from(es.drop_last(), v).push(es.last().1)
    } else {
        tos_from(es.drop_last(), v)
    }
}

/// The number of edges whose source is below `v`: the exclusive prefix sum
/// of the per-source edge counts.
pub open spec fn offset_of(es: Seq<(usize, usize)>, v: int) -> int
    decreases v,
{
    if v <= 0 {
        0
    } else {
        offset_of(es, v - 1) + tos_from(es, v - 1).len()
    }
}

/// Extending the edge prefix by one edge extends exactly the successor list
/// of that edge's source.
pub proof fn lemma_tos_from_take_step(es: Seq<(usize, usize)>, v: int, n: int)
    requires
        0 <= n < es.len(),
    ensures
        es[n].0 as int == v ==> tos_from(es.take(n + 1), v) == tos_from(es.take(n), v).push(
            es[n].1,
        ),
        es[n].0 as int != v ==> tos_from(es.take(n + 1), v) == tos_from(es.take(n), v),
{
    assert(es.take(n + 1).drop_last() =~= es.take(n));
    assert(es.take(n + 1).last() == es[n]);
}

/// A source has at most as many successors as there are edges.
pub proof fn lemma_tos_from_len(es: Seq<(usize, usize)>, v: int)
    ensures
        tos_from(es, v).len() <= es.len(),
    decreases es.len(),
{
    if es.len() > 0 {
        lemma_tos_from_len(es.drop_last(), v);
    }
}

/// The successor list of an edge prefix is no longer than that of the whole.
pub proof fn lemma_tos_from_prefix_len(es: Seq<(usize, usize)>, v: int, n: int)
    requires
        0 <= n <= es.len(),
    ensures
        tos_from(es.take(n), v).len() <= tos_from(es, v).len(),
    decreases es.len() - n,
{
    if n == es.len() {
        assert(es.take(n) =~= es);
    } else {
        lemma_tos_from_take_step(es, v, n);
        lemma_tos_from_prefix_len(es, v, n + 1);
    }
}

/// Offsets are monotone in the vertex index.
pub proof fn lemma_offset_monotone(es: Seq<(usize, usize)>, a: int, b: int)
    requires
        0 <= a <= b,
    ensures
        offset_of(es, a) <= offset_of(es, b),
    decreases b - a,
{
    if a < b {
        lemma_offset_monotone(es, a, b - 1);
    }
}

/// Dropping the final edge lowers by one the offsets of the vertices above
/// that edge's source, and no others.
pub proof fn lemma_offset_drop_last(es: Seq<(usize, usize)>, v: int)
    requires
        es.len() > 0,
    ensures
        offset_of(es, v) == offset_of(es.drop_last(), v) + (if (es.last().0 as int) < v {
            1int
        } else {
            0int
        }),
    decreases v,
{
    if v > 0 {
        lemma_offset_drop_last(es, v - 1);
    }
}

/// When every edge source lies below `n`, the offset at `n` accounts for all
/// edges: it is the sentinel entry of the offset array.
pub proof fn lemma_offset_total(es: Seq<(usize, usize)>, n: int)
    requires
        n >= 0,
        forall|i: int| 0 <= i < es.len() ==> (#[trigger] es[i]).0 < n,
    ensures
        offset_of(es, n) == es.len(),
    decreases es.len(), n,
{
    if es.len() == 0 {
        if n > 0 {
            lemma_offset_total(es, n - 1);
        }
    } else {
        lemma_offset_drop_last(es, n);
        lemma_offset_total(es.drop_last(), n);
    }
}

/// A source that no edge uses has no successors.
pub proof fn lemma_tos_from_absent(es: Seq<(usize, usize)>, v: int)
    requires
        forall|j: int| 0 <= j < es.len() ==> ((#[trigger] es[j]).0 as int) != v,
    ensures
        tos_from(es, v) == Seq::<usize>::empty(),
    decreases es.len(),
{
    if es.len() > 0 {
        assert(forall|j: int|
            0 <= j < es.drop_last().len() ==> (#[trigger] es.drop_last()[j]) == es[j]);
        lemma_tos_from_absent(es.drop_last(), v);
        assert(es.last() == es[es.len() - 1]);
    }
}

/// The successor list of a source holds exactly the targets of that
/// source's edges: each target value occurs in `tos_from(es, v)` as often
/// as the pair `(v, x)` occurs among the edges.
pub proof fn lemma_tos_from_count(es: Seq<(usize, usize)>, v: usize, x: usize)
    ensures
        tos_from(es, v as int).to_multiset().count(x) == es.to_multiset().count((v, x)),
    decreases es.len(),
{
    tos_from(es, v as int).to_multiset_ensures();
    es.to_multiset_ensures();
    if es.len() == 0 {
        assert(tos_from(es, v as int).to_multiset().count(x) == 0);
        assert(es.to_multiset().count((v, x)) == 0);
    } else {
        let es2 = es.drop_last();
        lemma_tos_from_count(es2, v, x);
        es2.to_multiset_ensures();
        tos_from(es2, v as int).to_multiset_ensures();
        assert(es2.push(es.last()) =~= es);
        assert(es.to_multiset() == es2.to_multiset().insert(es.last()));
        if (es.last().0 as int) == v as int {
            assert(tos_from(es, v as int) == tos_from(es2, v as int).push(es.last().1));
            assert(tos_from(es, v as int).to_multiset() == tos_from(
                es2,
                v as int,
            ).to_multiset().insert(es.last().1));
            assert(es.last() == (v, es.last().1));
        } else {
            assert(es.last() != (v, x));
        }
    }
}

/// Construction is order-independent: two edge lists that are permutations
/// of one another give every source the same multiset of successors, so a
/// game built from either has the same outgoing edges at every vertex, up
/// to the order within the successor range.
pub proof fn lemma_order_independent(es1: Seq<(usize, usize)>, es2: Seq<(usize, usize)>, v: usize)
    requires
        es1.to_multiset() == es2.to_multiset(),
    ensures
        tos_from(es1, v as int).to_multiset() == tos_from(es2, v as int).to_multiset(),
{
    assert forall|x: usize|
        tos_from(es1, v as int).to_multiset().count(x) == tos_from(
            es2,
            v as int,
        ).to_multiset().count(x) by {
        lemma_tos_from_count(es1, v, x);
        lemma_tos_from_count(es2, v, x);
    }
    assert(tos_from(es1, v as int).to_multiset() =~= tos_from(es2, v as int).to_multiset());
}

/// Builds a CSR layout from an edge list: a per-source offset array with a
/// sentinel, and the flat successor array. The successors of each source
/// form a contiguous range, in the order the edges were supplied.
#[verifier::rlimit(50)]
pub(crate) fn build_csr(num_vertices: usize, edges: &Vec<(usize, usize)>) -> (r: (
    Vec<usize>,
    Vec<usize>,
))
    requires
        num_vertices < usize::MAX,
        forall|i: int|
            0 <= i < edges@.len() ==> (#[trigger] edges@[i]).0 < num_vertices && edges@[i].1
                < num_vertices,
    ensures
        r.0@.len() == num_vertices + 1,
        forall|v: int| 0 <= v <= num_vertices ==> r.0@[v] == offset_of(edges@, v),
        r.1@.len() == edges@.len(),
        forall|i: int| 0 <= i < edges@.len() ==> (#[trigger] r.1@[i]) < num_vertices,
        forall|v: int|
            0 <= v < num_vertices ==> r.1@.subrange(
                offset_of(edges@, v),
                offset_of(edges@, v + 1),
            ) =~= tos_from(edges@, v),
{
    let num_edges = edges.len();

    // Pass 1: count the out-degree of every source vertex.
    let mut counts: Vec<usize> = Vec::new();
    counts.resize(num_vertices, 0);
    let mut n: usize = 0;
    while n < num_edges
        invariant
            0 <= n <= num_edges,
            num_edges == edges@.len(),
            counts@.len() == num_vertices,
            forall|i: int|
                0 <= i < edges@.len() ==> (#[trigger] edges@[i]).0 < num_vertices && edges@[i].1
                    < num_vertices,
            forall|v: int|
                0 <= v < num_vertices ==> (#[trigger] counts@[v]) as int == tos_from(
                    edges@.take(n as int),
                    v,
                ).len(),
        decreases num_edges - n,
    {
        let f = edges[n].0;
        proof {
            lemma_tos_from_len(edges@.take(n as int), f as int);
            assert(edges@.take(n as int).len() == n);
        }
        counts[f] = counts[f] + 1;
        proof {
            assert forall|v: int| 0 <= v < num_vertices implies (#[trigger] counts@[v]) as int
                == tos_from(edges@.take(n as int + 1), v).len() by {
                lemma_tos_from_take_step(edges@, v, n as int);
            }
        }
        n = n + 1;
    }

    // Exclusive prefix sums over the counts give the offsets.
    let mut offsets: Vec<usize> = Vec::new();
    let mut total: usize = 0;
    let mut v: usize = 0;
    proof {
        assert(edges@.take(num_edges as int) =~= edges@);
    }
    while v < num_vertices
        invariant
            0 <= v <= num_vertices,
            num_edges == edges@.len(),
            counts@.len() == num_vertices,
            forall|u: int|
                0 <= u < num_vertices ==> (#[trigger] counts@[u]) as int == tos_from(
                    edges@,
                    u,
                ).len(),
            offsets@.len() == v,
            total as int == offset_of(edges@, v as int),
            total <= num_edges,
            forall|u: int| 0 <= u < v ==> (#[trigger] offsets@[u]) as int == offset_of(edges@, u),
            forall|i: int|
                0 <= i < edges@.len() ==> (#[trigger] edges@[i]).0 < num_vertices && edges@[i].1
                    < num_vertices,
        decreases num_vertices - v,
    {
        offsets.push(total);
        proof {
            lemma_offset_monotone(edges@, v as int + 1, num_vertices as int);
            lemma_offset_total(edges@, num_vertices as int);
        }
        total = total + counts[v];
        v = v + 1;
    }
    offsets.push(total);
    proof {
        lemma_offset_total(edges@, num_vertices as int);
    }

    // Pass 2: scatter every edge behind its source's write cursor. The
    // cursors start as a copy of the offsets and advance with each write.
    let mut cursors: Vec<usize> = Vec::new();
    let mut i: usize = 0;
    while i < num_vertices + 1
        invariant
            num_vertices < usize::MAX,
            0 <= i <= num_vertices + 1,
            offsets@.len() == num_vertices + 1,
            cursors@ =~= offsets@.take(i as int),
        decreases num_vertices + 1 - i,
    {
        cursors.push(offsets[i]);
        i = i + 1;
    }
    proof {
        assert(cursors@ =~= offsets@);
    }
    let mut tos: Vec<usize> = Vec::new();
    tos.resize(num_edges, 0);
    proof {
        assert(num_edges > 0 ==> num_vertices >= 1) by {
            if num_edges > 0 {
                assert(edges@[0].0 < num_vertices);
            }
        }
        assert(forall|i: int| 0 <= i < num_edges ==> (#[trigger] tos@[i]) == 0);
        assert(edges@.take(0) =~= Seq::<(usize, usize)>::empty());
        assert forall|u: int| 0 <= u < num_vertices implies tos@.subrange(
            offset_of(edges@, u),
            (#[trigger] cursors@[u]) as int,
        ) =~= tos_from(edges@.take(0), u) by {
            lemma_offset_monotone(edges@, 0, u);
            lemma_offset_monotone(edges@, u, num_vertices as int);
            lemma_offset_total(edges@, num_vertices as int);
        }
    }
    let mut n: usize = 0;
    while n < num_edges
        invariant
            0 <= n <= num_edges,
            num_edges == edges@.len(),
            offsets@.len() == num_vertices + 1,
            cursors@.len() == num_vertices + 1,
            tos@.len() == num_edges,
            forall|u: int|
                0 <= u <= num_vertices ==> (#[trigger] offsets@[u]) as int == offset_of(edges@, u),
            forall|i: int|
                0 <= i < edges@.len() ==> (#[trigger] edges@[i]).0 < num_vertices && edges@[i].1
                    < num_vertices,
            forall|u: int|
                0 <= u < num_vertices ==> (#[trigger] cursors@[u]) as int == offset_of(edges@, u)
                    + tos_from(edges@.take(n as int), u).len(),
            forall|u: int|
                0 <= u < num_vertices ==> tos@.subrange(
                    offset_of(edges@, u),
                    (#[trigger] cursors@[u]) as int,
                ) =~= tos_from(edges@.take(n as int), u),
            num_edges > 0 ==> num_vertices >= 1,
            forall|i: int| 0 <= i < num_edges ==> (#[trigger] tos@[i]) < num_vertices,
        decreases num_edges - n,
    {
        let f = edges[n].0;
        let t = edges[n].1;
        proof {
            lemma_tos_from_take_step(edges@, f as int, n as int);
            lemma_tos_from_prefix_len(edges@, f as int, n as int + 1);
            lemma_tos_from_len(edges@, f as int);
            lemma_offset_monotone(edges@, f as int + 1, num_vertices as int);
            lemma_offset_total(edges@, num_vertices as int);
            // The write cursor stays inside the source's own range.
            assert((cursors@[f as int] as int) < offset_of(edges@, f as int + 1));
        }
        let ghost tos0 = tos@;
        let ghost cursors0 = cursors@;
        let c = cursors[f];
        tos[c] = t;
        cursors[f] = c + 1;
        proof {
            assert forall|u: int| 0 <= u < num_vertices implies (#[trigger] cursors@[u]) as int
                == offset_of(edges@, u) + tos_from(edges@.take(n as int + 1), u).len()
                && tos@.subrange(offset_of(edges@, u), cursors@[u] as int) =~= tos_from(
                edges@.take(n as int + 1),
                u,
            ) by {
                lemma_tos_from_take_step(edges@, u, n as int);
                lemma_tos_from_prefix_len(edges@, u, n as int);
                lemma_tos_from_prefix_len(edges@, u, n as int + 1);
                lemma_tos_from_len(edges@, u);
                lemma_offset_monotone(edges@, 0, u);
                lemma_offset_monotone(edges@, u + 1, num_vertices as int);
                lemma_offset_total(edges@, num_vertices as int);
                let a = offset_of(edges@, u);
                let b = cursors0[u] as int;
                assert(b == a + tos_from(edges@.take(n as int), u).len());
                assert(offset_of(edges@, u + 1) == a + tos_from(edges@, u).len());
                assert(0 <= a && a <= b && b <= offset_of(edges@, u + 1));
                assert(offset_of(edges@, u + 1) <= num_edges as int);
                assert(tos0.len() == num_edges);
                assert(tos@ == tos0.update(c as int, t));
                if u == f as int {
                    assert(b == c as int);
                    assert(cursors@[u] == c + 1);
                    assert(tos@.subrange(a, c as int + 1) =~= tos0.subrange(a, c as int).push(t));
                    assert(tos0.subrange(a, c as int) =~= tos_from(edges@.take(n as int), u));
                } else {
                    // Ranges of distinct sources are disjoint, so the write
                    // did not touch this one.
                    assert(cursors@[u] as int == b);
                    if u < f as int {
                        lemma_offset_monotone(edges@, u + 1, f as int);
                        assert(b <= offset_of(edges@, f as int));
                        assert(b <= c as int);
                    } else {
                        lemma_offset_monotone(edges@, f as int + 1, u);
                        assert((c as int) < a);
                    }
                    assert(tos@.subrange(a, b) =~= tos0.subrange(a, b));
                    assert(tos0.subrange(a, b) =~= tos_from(edges@.take(n as int), u));
                }
            }
        }
        n = n + 1;
    }
    proof {
        assert(edges@.take(num_edges as int) =~= edges@);
        assert forall|u: int| 0 <= u < num_vertices implies tos@.subrange(
            offset_of(edges@, u),
            offset_of(edges@, u + 1),
        ) =~= tos_from(edges@, u) by {
            lemma_offset_monotone(edges@, 0, u);
            lemma_offset_monotone(edges@, u + 1, num_vertices as int);
            lemma_offset_total(edges@, num_vertices as int);
            assert(cursors@[u] as int == offset_of(edges@, u) + tos_from(edges@, u).len());
            assert(offset_of(edges@, u + 1) == offset_of(edges@, u) + tos_from(edges@, u).len());
            assert(tos@.subrange(offset_of(edges@, u), cursors@[u] as int) =~= tos_from(
                edges@.take(num_edges as int),
                u,
            ));
        }
    }
    (offsets, tos)
}

} // verus!
