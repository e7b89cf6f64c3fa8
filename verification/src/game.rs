//! The two players of a parity game, and the tagged index types that keep
//! vertex indices and priorities apart.

use core::marker::PhantomData;
use vstd::prelude::*;

use crate::csr::build_csr;
use crate::csr::lemma_offset_monotone;
use crate::csr::lemma_offset_total;
use crate::csr::offset_of;
use crate::csr::tos_from;

verus! {

/// The two players in a parity game.
#[derive(Clone, Copy, PartialEq, Eq, Debug, Structural)]
pub enum Player {
    Even,
    Odd,
}

impl Player {
    /// Constructs a player from its index.
    pub fn from_index(index: u8) -> (r: Self)
        requires
            index < 2,
        ensures
            r == (if index == 0 { Player::Even } else { Player::Odd }),
    {
        match index {
            0 => Player::Even,
            _ => Player::Odd,
        }
    }

    /// Constructs a player from a priority: even priorities belong to Even.
    pub fn from_priority(priority: &Priority) -> (r: Self)
        ensures
            r == Player::spec_from_priority(priority.spec_value() as int),
    {
        if priority.value() % 2 == 0 {
            Player::Even
        } else {
            Player::Odd
        }
    }

    /// The player that wins plays whose most significant priority is `p`.
    pub open spec fn spec_from_priority(p: int) -> Player {
        if p % 2 == 0 {
            Player::Even
        } else {
            Player::Odd
        }
    }

    /// Returns the index of the player.
    pub fn to_index(&self) -> (r: usize)
        ensures
            r == (if self is Even { 0int } else { 1int }),
    {
        match self {
            Player::Even => 0,
            Player::Odd => 1,
        }
    }

    /// Returns the opponent of the current player.
    pub fn opponent(&self) -> (r: Self)
        ensures
            r == self.spec_opponent(),
    {
        match self {
            Player::Even => Player::Odd,
            Player::Odd => Player::Even,
        }
    }

    /// The opponent of a player.
    pub open spec fn spec_opponent(self) -> Player {
        match self {
            Player::Even => Player::Odd,
            Player::Odd => Player::Even,
        }
    }

    /// Returns the string representation of the solution for this player.
    pub fn solution(&self) -> (r: &'static str)
        ensures
            self is Even ==> r@ == "true"@,
            self is Odd ==> r@ == "false"@,
    {
        match self {
            Player::Even => "true",
            Player::Odd => "false",
        }
    }
}

/// A unique type for the vertices.
#[derive(Clone, Copy, Debug)]
pub struct VertexTag;

/// A unique type for the priorities.
#[derive(Clone, Copy, Debug)]
pub struct PriorityTag;

/// An index tagged with a marker type, so that indices of different domains
/// cannot be interchanged.
#[derive(Copy, Debug)]
pub struct TagIndex<Tag> {
    value: usize,
    tag: PhantomData<Tag>,
}

impl<Tag: Copy> Clone for TagIndex<Tag> {
    fn clone(&self) -> (r: Self)
        ensures
            r == *self,
    {
        *self
    }
}

impl<Tag> TagIndex<Tag> {
    /// The underlying index value.
    pub closed spec fn spec_value(self) -> usize {
        self.value
    }

    /// Wraps a raw index.
    pub fn new(value: usize) -> (r: Self)
        ensures
            r.spec_value() == value,
    {
        TagIndex { value, tag: PhantomData }
    }

    /// Returns the raw index.
    pub fn value(&self) -> (r: usize)
        ensures
            r == self.spec_value(),
    {
        self.value
    }
}

/// The index of a vertex.
pub type VertexIndex = TagIndex<VertexTag>;

/// The strong type for a priority.
pub type Priority = TagIndex<PriorityTag>;

/// An error raised while constructing a game from untrusted input:
/// either the supplied arrays disagree about the number of vertices, or an
/// index refers to a vertex that does not exist.
#[derive(Clone, Copy, PartialEq, Eq, Debug, Structural)]
pub enum ConstructionError {
    WrongCounts,
    DanglingVertex,
}

/// The edge pairs as raw index values.
pub open spec fn edge_pairs(es: Seq<(VertexIndex, VertexIndex)>) -> Seq<(usize, usize)> {
    es.map_values(|e: (VertexIndex, VertexIndex)| (e.0.spec_value(), e.1.spec_value()))
}

/// The raw index values of a sequence of vertex indices.
pub open spec fn index_values(s: Seq<VertexIndex>) -> Seq<usize> {
    s.map_values(|e: VertexIndex| e.spec_value())
}

/// Represents an explicit max-priority parity game. This means that higher
/// priority values are more significant.
///
/// The adjacency is kept in a compact (CSR) layout: `vertices` holds one
/// offset per vertex plus a sentinel, and `edges_to` is the flat successor
/// array; the successors of vertex `v` are the contiguous range between the
/// offsets of `v` and `v + 1`. A game is built once and read-only afterwards.
pub struct ParityGame {
    /// Stores the owner of every vertex.
    owner: Vec<Player>,
    /// Stores the priority of every vertex.
    priority: Vec<Priority>,
    /// Offsets into the successor array for every vertex, with a sentinel.
    vertices: Vec<usize>,
    /// The flat successor array.
    edges_to: Vec<VertexIndex>,
    initial_vertex: VertexIndex,
}

impl ParityGame {
    /// The number of vertices.
    pub closed spec fn spec_num_vertices(self) -> int {
        self.owner@.len() as int
    }

    /// The number of edges.
    pub closed spec fn spec_num_edges(self) -> int {
        self.edges_to@.len() as int
    }

    /// The initial vertex.
    pub closed spec fn spec_initial(self) -> int {
        self.initial_vertex.spec_value() as int
    }

    /// The owner of vertex `v`.
    pub closed spec fn spec_owner(self, v: int) -> Player {
        self.owner@[v]
    }

    /// The priority of vertex `v`.
    pub closed spec fn spec_priority(self, v: int) -> int {
        self.priority@[v].spec_value() as int
    }

    /// The successors of vertex `v`, in edge order.
    pub closed spec fn succs(self, v: int) -> Seq<usize> {
        index_values(self.edges_to@.subrange(
            self.vertices@[v] as int,
            self.vertices@[v + 1] as int,
        ))
    }

    /// The structural invariants of a game: one owner and one priority per
    /// vertex, a monotone offset array closed by a sentinel equal to the
    /// number of edges, every successor and the initial vertex in bounds.
    pub closed spec fn wf(self) -> bool {
        &&& self.priority@.len() == self.owner@.len()
        &&& self.vertices@.len() == self.owner@.len() + 1
        &&& self.vertices@[0] == 0
        &&& forall|v: int|
            0 <= v < self.owner@.len() ==> (#[trigger] self.vertices@[v]) <= self.vertices@[v + 1]
        &&& forall|v: int|
            0 <= v <= self.owner@.len() ==> (#[trigger] self.vertices@[v]) <= self.edges_to@.len()
        &&& self.vertices@[self.owner@.len() as int] == self.edges_to@.len()
        &&& forall|i: int|
            0 <= i < self.edges_to@.len() ==> (#[trigger] self.edges_to@[i]).spec_value()
                < self.owner@.len()
        &&& (self.initial_vertex.spec_value() as int) < self.owner@.len()
    }

    /// Vertex and edge counts are counts: they are never negative.
    pub proof fn lemma_counts_nonneg(self)
        ensures
            self.spec_num_vertices() >= 0,
            self.spec_num_edges() >= 0,
    {
    }

    /// The total number of edges of the vertices from `v` up.
    pub open spec fn degree_sum(self, v: int) -> int
        decreases self.spec_num_vertices() - v,
    {
        if v < 0 || v >= self.spec_num_vertices() {
            0
        } else {
            self.succs(v).len() + self.degree_sum(v + 1)
        }
    }

    /// The degrees of all vertices together count every edge exactly once.
    pub proof fn lemma_degree_sum(self)
        requires
            self.wf(),
        ensures
            self.degree_sum(0) == self.spec_num_edges(),
    {
        self.lemma_degree_sum_from(0);
    }

    proof fn lemma_degree_sum_from(self, v: int)
        requires
            self.wf(),
            0 <= v <= self.spec_num_vertices(),
        ensures
            self.degree_sum(v) == self.spec_num_edges() - self.vertices@[v],
        decreases self.spec_num_vertices() - v,
    {
        if v < self.spec_num_vertices() {
            self.lemma_degree_sum_from(v + 1);
            assert(self.succs(v).len() == self.vertices@[v + 1] - self.vertices@[v]);
        }
    }

    /// Consequences of well-formedness that callers need: there is at least
    /// one vertex, the initial vertex exists, and every successor exists.
    pub proof fn lemma_wf(self)
        requires
            self.wf(),
        ensures
            self.spec_num_vertices() >= 1,
            self.spec_num_vertices() < usize::MAX,
            self.spec_num_edges() <= usize::MAX,
            0 <= self.spec_initial() < self.spec_num_vertices(),
            forall|v: int|
                0 <= v < self.spec_num_vertices() ==> (#[trigger] self.succs(v)).len()
                    <= self.spec_num_edges(),
            forall|v: int, k: int|
                0 <= v < self.spec_num_vertices() && 0 <= k < self.succs(v).len() ==> 0 <= (
                #[trigger] self.succs(v)[k]) < self.spec_num_vertices(),
    {
        assert(self.vertices.len() <= usize::MAX);
        assert(self.vertices.len() == self.vertices@.len());
        assert(self.edges_to.len() <= usize::MAX);
        assert(self.edges_to.len() == self.edges_to@.len());
        assert forall|v: int, k: int|
            0 <= v < self.spec_num_vertices() && 0 <= k < self.succs(v).len() implies 0 <= (
        #[trigger] self.succs(v)[k]) < self.spec_num_vertices() by {
            assert(self.succs(v)[k] == self.edges_to@[self.vertices@[v] + k].spec_value());
        }
    }

    /// Construct a new parity game from prepared arrays. The arrays must
    /// already satisfy the structural invariants.
    pub fn new(
        initial_vertex: VertexIndex,
        owner: Vec<Player>,
        priority: Vec<Priority>,
        vertices: Vec<usize>,
        edges_to: Vec<VertexIndex>,
    ) -> (r: Self)
        requires
            priority@.len() == owner@.len(),
            vertices@.len() == owner@.len() + 1,
            vertices@[0] == 0,
            forall|v: int|
                0 <= v < owner@.len() ==> (#[trigger] vertices@[v]) <= vertices@[v + 1],
            forall|v: int| 0 <= v <= owner@.len() ==> (#[trigger] vertices@[v]) <= edges_to@.len(),
            vertices@[owner@.len() as int] == edges_to@.len(),
            forall|i: int|
                0 <= i < edges_to@.len() ==> (#[trigger] edges_to@[i]).spec_value() < owner@.len(),
            (initial_vertex.spec_value() as int) < owner@.len(),
        ensures
            r.wf(),
            r.spec_num_vertices() == owner@.len(),
            r.spec_num_edges() == edges_to@.len(),
            r.spec_initial() == initial_vertex.spec_value(),
            forall|v: int| 0 <= v < owner@.len() ==> r.spec_owner(v) == owner@[v],
            forall|v: int|
                0 <= v < owner@.len() ==> r.spec_priority(v) == (#[trigger] priority@[v]).spec_value(),
            forall|v: int|
                0 <= v < owner@.len() ==> r.succs(v) == index_values(
                    edges_to@.subrange((#[trigger] vertices@[v]) as int, vertices@[v + 1] as int),
                ),
    {
        Self { owner, priority, vertices, edges_to, initial_vertex }
    }

    /// The conditions under which `from_edges` accepts the array counts:
    /// one priority per owner, and the declared vertex count, if one is
    /// given, equal to the length of the owner array.
    pub open spec fn from_edges_counts_ok(
        owner: Seq<Player>,
        priority: Seq<Priority>,
        num_of_vertices: Option<usize>,
    ) -> bool {
        &&& priority.len() == owner.len()
        &&& match num_of_vertices {
            Some(b) => b == owner.len(),
            None => true,
        }
    }

    /// The conditions under which `from_edges` accepts the indices: the
    /// initial vertex and both endpoints of every edge refer to vertices
    /// that exist.
    pub open spec fn from_edges_bounds_ok(
        owner: Seq<Player>,
        initial_vertex: VertexIndex,
        es: Seq<(VertexIndex, VertexIndex)>,
    ) -> bool {
        &&& (initial_vertex.spec_value() as int) < owner.len()
        &&& forall|i: int|
            0 <= i < es.len() ==> ((#[trigger] es[i]).0.spec_value() as int) < owner.len() && (
            es[i].1.spec_value() as int) < owner.len()
    }

    /// Constructs a new parity game from a list of edges, by a two-pass
    /// counting sort: the first pass counts the out-degree of every source,
    /// the exclusive prefix sums of the counts give the offsets, and the
    /// second pass scatters each edge behind its source's write cursor.
    ///
    /// The successors of every vertex afterwards are exactly the targets of
    /// its edges, in the order in which the edges were supplied. Inputs that
    /// disagree about the number of vertices are rejected with
    /// `WrongCounts`; an initial vertex or edge endpoint out of bounds is
    /// rejected with `DanglingVertex`.
    #[verifier::rlimit(100)]
    pub fn from_edges(
        initial_vertex: VertexIndex,
        owner: Vec<Player>,
        priority: Vec<Priority>,
        num_of_vertices: Option<usize>,
        edges: &Vec<(VertexIndex, VertexIndex)>,
    ) -> (r: Result<ParityGame, ConstructionError>)
        requires
            owner@.len() < usize::MAX,
        ensures
            r is Ok <==> Self::from_edges_counts_ok(owner@, priority@, num_of_vertices)
                && Self::from_edges_bounds_ok(owner@, initial_vertex, edges@),
            r is Err ==> r == Result::<ParityGame, ConstructionError>::Err(
                if !Self::from_edges_counts_ok(owner@, priority@, num_of_vertices) {
                    ConstructionError::WrongCounts
                } else {
                    ConstructionError::DanglingVertex
                },
            ),
            r matches Ok(g) ==> {
                &&& g.wf()
                &&& g.spec_num_vertices() == owner@.len()
                &&& g.spec_num_edges() == edges@.len()
                &&& g.spec_initial() == initial_vertex.spec_value()
                &&& forall|v: int| 0 <= v < owner@.len() ==> g.spec_owner(v) == owner@[v]
                &&& forall|v: int|
                    0 <= v < owner@.len() ==> g.spec_priority(v) == (
                    #[trigger] priority@[v]).spec_value()
                &&& forall|v: int|
                    0 <= v < owner@.len() ==> g.succs(v) == tos_from(edge_pairs(edges@), v)
            },
    {
        let nv = owner.len();
        if priority.len() != nv {
            return Err(ConstructionError::WrongCounts);
        }
        if let Some(b) = num_of_vertices {
            if b != nv {
                return Err(ConstructionError::WrongCounts);
            }
        }
        if initial_vertex.value() >= nv {
            return Err(ConstructionError::DanglingVertex);
        }

        // Validate the edge endpoints and strip the index tags.
        let ne = edges.len();
        let mut plain: Vec<(usize, usize)> = Vec::new();
        let mut i: usize = 0;
        while i < ne
            invariant
                0 <= i <= ne,
                ne == edges@.len(),
                nv == owner@.len(),
                nv < usize::MAX,
                Self::from_edges_counts_ok(owner@, priority@, num_of_vertices),
                (initial_vertex.spec_value() as int) < owner@.len(),
                plain@.len() == i,
                forall|j: int|
                    0 <= j < i ==> #[trigger] plain@[j] == (
                        edges@[j].0.spec_value(),
                        edges@[j].1.spec_value(),
                    ),
                forall|j: int|
                    0 <= j < i ==> (#[trigger] edges@[j]).0.spec_value() < nv
                        && edges@[j].1.spec_value() < nv,
            decreases ne - i,
        {
            let e = edges[i];
            let fv = e.0.value();
            let tv = e.1.value();
            if fv >= nv || tv >= nv {
                return Err(ConstructionError::DanglingVertex);
            }
            plain.push((fv, tv));
            i = i + 1;
        }
        proof {
            assert(plain@ =~= edge_pairs(edges@));
        }

        let (offsets, tos) = build_csr(nv, &plain);

        // Re-tag the successor values as vertex indices.
        let mut edges_to: Vec<VertexIndex> = Vec::new();
        let mut i: usize = 0;
        while i < ne
            invariant
                0 <= i <= ne,
                ne == tos@.len(),
                edges_to@.len() == i,
                forall|j: int|
                    0 <= j < i ==> (#[trigger] edges_to@[j]).spec_value() == tos@[j],
            decreases ne - i,
        {
            edges_to.push(VertexIndex::new(tos[i]));
            i = i + 1;
        }

        let game = ParityGame { owner, priority, vertices: offsets, edges_to, initial_vertex };
        proof {
            let es = plain@;
            assert(forall|j: int|
                0 <= j < es.len() ==> (#[trigger] es[j]).0 < nv && es[j].1 < nv);
            lemma_offset_total(es, nv as int);
            assert forall|v: int| 0 <= v < nv implies (#[trigger] game.vertices@[v])
                <= game.vertices@[v + 1] by {
                assert(offset_of(es, v + 1) == offset_of(es, v) + tos_from(es, v).len());
            }
            assert forall|v: int| 0 <= v <= nv implies (#[trigger] game.vertices@[v])
                <= game.edges_to@.len() by {
                lemma_offset_monotone(es, v, nv as int);
                lemma_offset_total(es, nv as int);
            }
            assert(game.priority@.len() == game.owner@.len());
            assert(game.vertices@.len() == game.owner@.len() + 1);
            assert(offset_of(es, 0) == 0);
            assert(game.vertices@[0] as int == offset_of(es, 0));
            assert(game.vertices@[nv as int] as int == offset_of(es, nv as int));
            assert(game.vertices@[game.owner@.len() as int] == game.edges_to@.len());
            assert forall|i2: int| 0 <= i2 < game.edges_to@.len() implies (
            #[trigger] game.edges_to@[i2]).spec_value() < game.owner@.len() by {
                assert(game.edges_to@[i2].spec_value() == tos@[i2]);
            }
            assert((game.initial_vertex.spec_value() as int) < game.owner@.len());
            assert(game.wf());
            assert forall|v: int| 0 <= v < nv implies #[trigger] game.succs(v) == tos_from(
                edge_pairs(edges@),
                v,
            ) by {
                lemma_offset_monotone(es, 0, v);
                lemma_offset_monotone(es, v + 1, nv as int);
                lemma_offset_total(es, nv as int);
                assert(offset_of(es, v + 1) == offset_of(es, v) + tos_from(es, v).len());
                assert(game.succs(v) =~= tos@.subrange(offset_of(es, v), offset_of(es, v + 1)));
            }
        }
        Ok(game)
    }

    /// Returns the initial vertex of the parity game.
    pub fn initial_vertex(&self) -> (r: VertexIndex)
        ensures
            r.spec_value() == self.spec_initial(),
    {
        self.initial_vertex
    }

    /// Returns the number of vertices in the parity game.
    pub fn num_of_vertices(&self) -> (r: usize)
        ensures
            r == self.spec_num_vertices(),
    {
        self.owner.len()
    }

    /// Returns the number of edges in the parity game.
    pub fn num_of_edges(&self) -> (r: usize)
        ensures
            r == self.spec_num_edges(),
    {
        self.edges_to.len()
    }

    /// Returns all vertices of the parity game, in index order.
    pub fn iter_vertices(&self) -> (r: Vec<VertexIndex>)
        ensures
            r@.len() == self.spec_num_vertices(),
            forall|k: int| 0 <= k < r@.len() ==> (#[trigger] r@[k]).spec_value() == k,
    {
        let n = self.owner.len();
        let mut result: Vec<VertexIndex> = Vec::new();
        let mut i: usize = 0;
        while i < n
            invariant
                0 <= i <= n,
                result@.len() == i,
                forall|k: int| 0 <= k < i ==> (#[trigger] result@[k]).spec_value() == k,
            decreases n - i,
        {
            result.push(VertexIndex::new(i));
            i = i + 1;
        }
        result
    }

    /// The number of successors of the given vertex.
    pub fn out_degree(&self, state_index: VertexIndex) -> (r: usize)
        requires
            self.wf(),
            (state_index.spec_value() as int) < self.spec_num_vertices(),
        ensures
            r == self.succs(state_index.spec_value() as int).len(),
    {
        let nv = self.owner.len();
        let v = state_index.value();
        self.vertices[v + 1] - self.vertices[v]
    }

    /// The `k`-th successor of the given vertex.
    pub fn successor(&self, state_index: VertexIndex, k: usize) -> (r: VertexIndex)
        requires
            self.wf(),
            (state_index.spec_value() as int) < self.spec_num_vertices(),
            k < self.succs(state_index.spec_value() as int).len(),
        ensures
            r.spec_value() == self.succs(state_index.spec_value() as int)[k as int],
            (r.spec_value() as int) < self.spec_num_vertices(),
    {
        let nv = self.owner.len();
        let v = state_index.value();
        let start = self.vertices[v];
        proof {
            assert(start + k < self.vertices@[v as int + 1]);
        }
        self.edges_to[start + k]
    }

    /// Returns the outgoing edges for the given vertex, in edge order.
    pub fn outgoing_edges(&self, state_index: VertexIndex) -> (r: Vec<VertexIndex>)
        requires
            self.wf(),
            (state_index.spec_value() as int) < self.spec_num_vertices(),
        ensures
            index_values(r@) == self.succs(state_index.spec_value() as int),
            r@.len() == self.succs(state_index.spec_value() as int).len(),
    {
        let nv = self.owner.len();
        let v = state_index.value();
        let start = self.vertices[v];
        let end = self.vertices[v + 1];
        let mut result: Vec<VertexIndex> = Vec::new();
        let mut i: usize = start;
        while i < end
            invariant
                self.wf(),
                (state_index.spec_value() as int) < self.spec_num_vertices(),
                v == state_index.spec_value(),
                start == self.vertices@[v as int],
                end == self.vertices@[v as int + 1],
                start <= i <= end,
                result@.len() == i - start,
                forall|k: int|
                    0 <= k < result@.len() ==> (#[trigger] result@[k]) == self.edges_to@[start + k],
            decreases end - i,
        {
            proof {
                assert(self.vertices@[v as int + 1] <= self.edges_to@.len());
            }
            result.push(self.edges_to[i]);
            i = i + 1;
        }
        proof {
            assert(index_values(result@) =~= self.succs(state_index.spec_value() as int));
        }
        result
    }

    /// The position of the `k`-th edge of vertex `v` in the flat edge array.
    pub closed spec fn spec_edge_index(self, v: int, k: int) -> int {
        self.vertices@[v] + k
    }

    /// Returns the position of the `k`-th edge of the given vertex in the
    /// flat edge array: edge positions of one vertex are consecutive, and
    /// distinct vertices use disjoint ranges.
    pub fn edge_index(&self, state_index: VertexIndex, k: usize) -> (r: usize)
        requires
            self.wf(),
            (state_index.spec_value() as int) < self.spec_num_vertices(),
            k < self.succs(state_index.spec_value() as int).len(),
        ensures
            r == self.spec_edge_index(state_index.spec_value() as int, k as int),
            r < self.spec_num_edges(),
    {
        let nv = self.owner.len();
        let v = state_index.value();
        proof {
            assert(self.vertices@[v as int] + k < self.vertices@[v as int + 1]);
        }
        self.vertices[v] + k
    }

    /// Returns the owner of the given vertex.
    pub fn owner(&self, vertex: VertexIndex) -> (r: Player)
        requires
            (vertex.spec_value() as int) < self.spec_num_vertices(),
        ensures
            r == self.spec_owner(vertex.spec_value() as int),
    {
        self.owner[vertex.value()]
    }

    /// Returns the priority of the given vertex.
    pub fn priority(&self, vertex: VertexIndex) -> (r: Priority)
        requires
            self.wf(),
            (vertex.spec_value() as int) < self.spec_num_vertices(),
        ensures
            r.spec_value() == self.spec_priority(vertex.spec_value() as int),
    {
        self.priority[vertex.value()]
    }
}

} // verus!
