//! The wire format of explicit parity games, over its stream of numbers: a
//! header with the vertex count, edge count and initial vertex, then one
//! record per vertex holding its owner, priority, successor count and
//! successor list. Turning text into numbers and back is input plumbing
//! and stays with the caller; the layout itself is decoded and encoded
//! here.

use vstd::prelude::*;

use crate::csr::lemma_tos_from_absent;
use crate::csr::tos_from;
use crate::game::ConstructionError;
use crate::game::ParityGame;
use crate::game::Player;
use crate::game::Priority;
use crate::game::VertexIndex;
use crate::game::edge_pairs;

verus! {

/// An error raised while decoding a game file: the stream ends too early,
/// an owner value is neither 0 nor 1, numbers follow the last record, the
/// announced edge count is wrong, or an index dangles.
#[derive(Clone, Copy, PartialEq, Eq, Debug, Structural)]
pub enum FormatError {
    Truncated,
    BadOwner,
    TrailingInput,
    WrongCounts,
    DanglingVertex,
}

/// The owner as it is written: 0 for Even, 1 for Odd.
pub open spec fn owner_number(p: Player) -> usize {
    if p is Even {
        0
    } else {
        1
    }
}

/// The record of one vertex: owner, priority, successor count, successors.
pub open spec fn spec_record(g: ParityGame, v: int) -> Seq<usize> {
    seq![
        owner_number(g.spec_owner(v)),
        g.spec_priority(v) as usize,
        g.succs(v).len() as usize,
    ] + g.succs(v)
}

/// The records of the vertices below `v`, in order.
pub open spec fn spec_records(g: ParityGame, v: int) -> Seq<usize>
    decreases v,
{
    if v <= 0 {
        Seq::empty()
    } else {
        spec_records(g, v - 1) + spec_record(g, v - 1)
    }
}

/// The whole stream of a game: the header and every vertex record.
pub open spec fn spec_render(g: ParityGame) -> Seq<usize> {
    seq![
        g.spec_num_vertices() as usize,
        g.spec_num_edges() as usize,
        g.spec_initial() as usize,
    ] + spec_records(g, g.spec_num_vertices())
}

/// Encodes a game as its stream of numbers.
pub fn write_pg(game: &ParityGame) -> (r: Vec<usize>)
    requires
        game.wf(),
    ensures
        r@ == spec_render(*game),
{
    let nv = game.num_of_vertices();
    proof {
        game.lemma_wf();
    }
    let mut out: Vec<usize> = Vec::new();
    out.push(nv);
    out.push(game.num_of_edges());
    out.push(game.initial_vertex().value());
    let ghost header = out@;
    let mut v: usize = 0;
    proof {
        assert(out@ =~= header + spec_records(*game, 0));
    }
    while v < nv
        invariant
            game.wf(),
            nv == game.spec_num_vertices(),
            0 <= v <= nv,
            header == seq![
                game.spec_num_vertices() as usize,
                game.spec_num_edges() as usize,
                game.spec_initial() as usize,
            ],
            out@ == header + spec_records(*game, v as int),
        decreases nv - v,
    {
        proof {
            game.lemma_wf();
        }
        let ghost out0 = out@;
        let vi = VertexIndex::new(v);
        let d = game.out_degree(vi);
        out.push(game.owner(vi).to_index());
        out.push(game.priority(vi).value());
        out.push(d);
        let mut k: usize = 0;
        while k < d
            invariant
                game.wf(),
                nv == game.spec_num_vertices(),
                0 <= v < nv,
                vi.spec_value() == v,
                d == game.succs(v as int).len(),
                0 <= k <= d,
                out@ == out0 + seq![
                    owner_number(game.spec_owner(v as int)),
                    game.spec_priority(v as int) as usize,
                    game.succs(v as int).len() as usize,
                ] + game.succs(v as int).take(k as int),
            decreases d - k,
        {
            proof {
                game.lemma_wf();
            }
            out.push(game.successor(vi, k).value());
            proof {
                assert(game.succs(v as int).take(k as int + 1) =~= game.succs(v as int).take(
                    k as int,
                ).push(game.succs(v as int)[k as int]));
                assert(out@ =~= out0 + seq![
                    owner_number(game.spec_owner(v as int)),
                    game.spec_priority(v as int) as usize,
                    game.succs(v as int).len() as usize,
                ] + game.succs(v as int).take(k as int + 1));
            }
            k = k + 1;
        }
        proof {
            assert(game.succs(v as int).take(d as int) =~= game.succs(v as int));
            assert(out@ =~= header + spec_records(*game, v as int + 1));
        }
        v = v + 1;
    }
    proof {
        assert(out@ =~= spec_render(*game));
    }
    out
}

/// The records of the first `v` vertices as decoded components: the arrays
/// plus the collected edges determine the stream so far.
pub open spec fn spec_component_records(
    owners: Seq<Player>,
    priorities: Seq<Priority>,
    es: Seq<(usize, usize)>,
    v: int,
) -> Seq<usize>
    decreases v,
{
    if v <= 0 {
        Seq::empty()
    } else {
        spec_component_records(owners, priorities, es, v - 1) + (seq![
            owner_number(owners[v - 1]),
            priorities[v - 1].spec_value(),
            tos_from(es, v - 1).len() as usize,
        ] + tos_from(es, v - 1))
    }
}

/// When a game's owners, priorities and successor lists agree with decoded
/// components, its records are the components' records.
proof fn lemma_records_agree(
    g: ParityGame,
    owners: Seq<Player>,
    priorities: Seq<Priority>,
    es: Seq<(usize, usize)>,
    v: int,
)
    requires
        v <= g.spec_num_vertices(),
        forall|u: int| 0 <= u < v ==> g.spec_owner(u) == owners[u],
        forall|u: int|
            0 <= u < v ==> g.spec_priority(u) == (#[trigger] priorities[u]).spec_value(),
        forall|u: int| 0 <= u < v ==> g.succs(u) == tos_from(es, u),
    ensures
        spec_records(g, v) == spec_component_records(owners, priorities, es, v),
    decreases v,
{
    if v > 0 {
        lemma_records_agree(g, owners, priorities, es, v - 1);
        assert(spec_record(g, v - 1) =~= seq![
            owner_number(owners[v - 1]),
            priorities[v - 1].spec_value(),
            tos_from(es, v - 1).len() as usize,
        ] + tos_from(es, v - 1));
    }
}

/// The outcome of scanning a run of vertex records: the first decoding
/// error, if one occurs, and otherwise where the run ends, how many edges
/// its records announce, and whether every successor is in bounds.
pub struct ScanOutcome {
    pub error: Option<FormatError>,
    pub end: int,
    pub edge_total: int,
    pub targets_ok: bool,
}

/// Whether the record starting at `pos` is complete and carries a legal
/// owner value.
pub open spec fn record_ok(nums: Seq<usize>, pos: int) -> bool {
    &&& pos + 3 <= nums.len()
    &&& nums[pos] <= 1
    &&& pos + 3 + nums[pos + 2] <= nums.len()
}

/// The error a bad record raises: a record that is cut off is a
/// truncation; an owner value above 1 is a bad owner.
pub open spec fn record_error(nums: Seq<usize>, pos: int) -> FormatError {
    if pos + 3 > nums.len() {
        FormatError::Truncated
    } else if nums[pos] > 1 {
        FormatError::BadOwner
    } else {
        FormatError::Truncated
    }
}

/// Scans `count` vertex records starting at `pos`, with successor bounds
/// checked against `nv` vertices.
pub open spec fn scan_records(nums: Seq<usize>, pos: int, count: int, nv: int) -> ScanOutcome
    decreases count,
{
    if count <= 0 {
        ScanOutcome { error: None, end: pos, edge_total: 0, targets_ok: true }
    } else if !record_ok(nums, pos) {
        ScanOutcome {
            error: Some(record_error(nums, pos)),
            end: pos,
            edge_total: 0,
            targets_ok: true,
        }
    } else {
        let rest = scan_records(nums, pos + 3 + nums[pos + 2], count - 1, nv);
        ScanOutcome {
            error: rest.error,
            end: rest.end,
            edge_total: nums[pos + 2] + rest.edge_total,
            targets_ok: (forall|k: int|
                0 <= k < nums[pos + 2] ==> (#[trigger] nums[pos + 3 + k]) < nv)
                && rest.targets_ok,
        }
    }
}

/// The decoding verdict for a stream: `None` when it is a well-formed game
/// stream, otherwise the error that decoding it raises. A stream fails
/// structurally when it is cut off, holds an illegal owner, continues past
/// its records, or announces the wrong edge count; it fails semantically
/// when its initial vertex or a successor does not exist.
pub open spec fn spec_parse_error(nums: Seq<usize>) -> Option<FormatError> {
    if nums.len() < 3 {
        Some(FormatError::Truncated)
    } else if nums[0] == usize::MAX {
        Some(FormatError::WrongCounts)
    } else {
        let scan = scan_records(nums, 3, nums[0] as int, nums[0] as int);
        if scan.error is Some {
            scan.error
        } else if scan.end != nums.len() {
            Some(FormatError::TrailingInput)
        } else if scan.edge_total != nums[1] {
            Some(FormatError::WrongCounts)
        } else if nums[2] >= nums[0] || !scan.targets_ok {
            Some(FormatError::DanglingVertex)
        } else {
            None
        }
    }
}

/// Whether a stream of numbers is a well-formed game stream.
pub open spec fn spec_valid_stream(nums: Seq<usize>) -> bool {
    spec_parse_error(nums) is None
}

/// Decodes a game from its stream of numbers: decoding succeeds exactly on
/// the well-formed game streams, a malformed stream raises the error that
/// `spec_parse_error` classifies, and on success the returned game renders
/// back to exactly the given stream — the decoder accepts no stream that
/// the encoder would not produce.
#[verifier::rlimit(100)]
pub fn parse_pg(numbers: &Vec<usize>) -> (r: Result<ParityGame, FormatError>)
    ensures
        r is Ok <==> spec_valid_stream(numbers@),
        r matches Err(e) ==> Some(e) == spec_parse_error(numbers@),
        r matches Ok(g) ==> g.wf() && spec_render(g) == numbers@,
{
    let total = numbers.len();
    if total < 3 {
        proof {
            assert(spec_parse_error(numbers@) == Some(FormatError::Truncated));
        }
        return Err(FormatError::Truncated);
    }
    let nv = numbers[0];
    let ne = numbers[1];
    let initial = numbers[2];
    if nv == usize::MAX {
        proof {
            assert(spec_parse_error(numbers@) == Some(FormatError::WrongCounts));
        }
        return Err(FormatError::WrongCounts);
    }
    let ghost full_scan = scan_records(numbers@, 3, nv as int, nv as int);

    let mut owners: Vec<Player> = Vec::new();
    let mut priorities: Vec<Priority> = Vec::new();
    let mut edges: Vec<(VertexIndex, VertexIndex)> = Vec::new();
    let mut pos: usize = 3;
    let mut v: usize = 0;
    proof {
        assert(numbers@.take(3) =~= seq![nv, ne, initial] + spec_component_records(
            owners@,
            priorities@,
            edge_pairs(edges@),
            0,
        ));
    }
    while v < nv
        invariant
            total == numbers@.len(),
            total >= 3,
            nv < usize::MAX,
            nv == numbers@[0],
            ne == numbers@[1],
            initial == numbers@[2],
            full_scan == scan_records(numbers@, 3, nv as int, nv as int),
            0 <= v <= nv,
            3 <= pos <= total,
            owners@.len() == v,
            priorities@.len() == v,
            forall|j: int|
                0 <= j < edges@.len() ==> ((#[trigger] edges@[j]).0.spec_value() as int) < v as int,
            numbers@.take(pos as int) == seq![nv, ne, initial] + spec_component_records(
                owners@,
                priorities@,
                edge_pairs(edges@),
                v as int,
            ),
            full_scan.error == scan_records(
                numbers@,
                pos as int,
                (nv - v) as int,
                nv as int,
            ).error,
            scan_records(numbers@, pos as int, (nv - v) as int, nv as int).error is None ==> {
                &&& full_scan.end == scan_records(
                    numbers@,
                    pos as int,
                    (nv - v) as int,
                    nv as int,
                ).end
                &&& full_scan.edge_total == edges@.len() + scan_records(
                    numbers@,
                    pos as int,
                    (nv - v) as int,
                    nv as int,
                ).edge_total
                &&& (full_scan.targets_ok <==> (forall|j: int|
                    0 <= j < edges@.len() ==> ((#[trigger] edges@[j]).1.spec_value() as int) < (
                    nv as int)) && scan_records(
                    numbers@,
                    pos as int,
                    (nv - v) as int,
                    nv as int,
                ).targets_ok)
            },
        decreases nv - v,
    {
        if pos >= total || total - pos < 3 {
            proof {
                assert(!record_ok(numbers@, pos as int));
                assert(record_error(numbers@, pos as int) == FormatError::Truncated);
                assert(full_scan.error == Some(FormatError::Truncated));
                assert(spec_parse_error(numbers@) == Some(FormatError::Truncated));
            }
            return Err(FormatError::Truncated);
        }
        let owner_value = numbers[pos];
        let priority_value = numbers[pos + 1];
        let degree = numbers[pos + 2];
        if owner_value > 1 {
            proof {
                assert(!record_ok(numbers@, pos as int));
                assert(record_error(numbers@, pos as int) == FormatError::BadOwner);
                assert(full_scan.error == Some(FormatError::BadOwner));
                assert(spec_parse_error(numbers@) == Some(FormatError::BadOwner));
            }
            return Err(FormatError::BadOwner);
        }
        if degree > total - (pos + 3) {
            proof {
                assert(!record_ok(numbers@, pos as int));
                assert(record_error(numbers@, pos as int) == FormatError::Truncated);
                assert(full_scan.error == Some(FormatError::Truncated));
                assert(spec_parse_error(numbers@) == Some(FormatError::Truncated));
            }
            return Err(FormatError::Truncated);
        }
        proof {
            assert(record_ok(numbers@, pos as int));
        }
        let ghost owners0 = owners@;
        let ghost priorities0 = priorities@;
        let ghost edges_before = edges@;
        let ghost pos0 = pos as int;
        owners.push(Player::from_index(owner_value as u8));
        priorities.push(Priority::new(priority_value));
        pos = pos + 3;
        proof {
            assert(forall|j: int|
                0 <= j < edge_pairs(edges@).len() ==> ((#[trigger] edge_pairs(edges@)[j]).0
                    as int) != v as int);
            lemma_tos_from_absent(edge_pairs(edges@), v as int);
        }
        let mut k: usize = 0;
        while k < degree
            invariant
                total == numbers@.len(),
                0 <= v < nv,
                0 <= k <= degree,
                3 <= pos0,
                pos == pos0 + 3 + k,
                pos0 + 3 + degree <= total,
                owners@ == owners0.push(
                    if numbers@[pos0] == 0 {
                        Player::Even
                    } else {
                        Player::Odd
                    },
                ),
                priorities@.len() == v + 1,
                owner_value == numbers@[pos0],
                priority_value == numbers@[pos0 + 1],
                degree == numbers@[pos0 + 2],
                forall|j: int|
                    0 <= j < edges@.len() ==> ((#[trigger] edges@[j]).0.spec_value() as int) <= (
                    v as int),
                edge_pairs(edges@) =~= edge_pairs(edges_before) + Seq::new(
                    k as nat,
                    |i: int| (v, numbers@[pos0 + 3 + i]),
                ),
                tos_from(edge_pairs(edges@), v as int) =~= numbers@.subrange(
                    pos0 + 3,
                    pos0 + 3 + k,
                ),
                forall|u: int|
                    0 <= u < v ==> #[trigger] tos_from(edge_pairs(edges@), u) == tos_from(
                        edge_pairs(edges_before),
                        u,
                    ),
            decreases degree - k,
        {
            let w = numbers[pos];
            let ghost edges0 = edges@;
            edges.push((VertexIndex::new(v), VertexIndex::new(w)));
            pos = pos + 1;
            proof {
                assert(edge_pairs(edges@) =~= edge_pairs(edges0).push((v, w)));
                assert(edge_pairs(edges0).push((v, w)).drop_last() =~= edge_pairs(edges0));
                assert(edge_pairs(edges@) =~= edge_pairs(edges_before) + Seq::new(
                    (k + 1) as nat,
                    |i: int| (v, numbers@[pos0 + 3 + i]),
                ));
                assert(w == numbers@[pos0 + 3 + k]);
                assert(tos_from(edge_pairs(edges@), v as int) == tos_from(
                    edge_pairs(edges0),
                    v as int,
                ).push(w));
                assert(numbers@.subrange(pos0 + 3, pos0 + 3 + k + 1) =~= numbers@.subrange(
                    pos0 + 3,
                    pos0 + 3 + k,
                ).push(numbers@[pos0 + 3 + k]));
                assert(tos_from(edge_pairs(edges@), v as int) =~= numbers@.subrange(
                    pos0 + 3,
                    pos0 + 3 + k + 1,
                ));
                assert forall|u: int| 0 <= u < v implies #[trigger] tos_from(
                    edge_pairs(edges@),
                    u,
                ) == tos_from(edge_pairs(edges_before), u) by {
                    assert(tos_from(edge_pairs(edges@), u) == tos_from(edge_pairs(edges0), u));
                }
            }
            k = k + 1;
        }
        proof {
            assert(numbers@.take(pos as int) =~= seq![nv, ne, initial] + spec_component_records(
                owners@,
                priorities@,
                edge_pairs(edges@),
                v as int + 1,
            )) by {
                assert(spec_component_records(owners@, priorities@, edge_pairs(edges@), v as int)
                    == spec_component_records(
                    owners0,
                    priorities0,
                    edge_pairs(edges_before),
                    v as int,
                )) by {
                    lemma_component_records_stable(
                        owners0,
                        priorities0,
                        edge_pairs(edges_before),
                        owners@,
                        priorities@,
                        edge_pairs(edges@),
                        v as int,
                    );
                }
                assert(tos_from(edge_pairs(edges@), v as int) =~= numbers@.subrange(
                    pos0 + 3,
                    pos0 + 3 + degree,
                ));
                assert(numbers@.take(pos as int) =~= numbers@.take(pos0) + seq![
                    owner_value,
                    priority_value,
                    degree,
                ] + numbers@.subrange(pos0 + 3, pos0 + 3 + degree));
            }
            // The suffix scan steps over exactly the record just consumed.
            let suffix0 = scan_records(numbers@, pos0, (nv - v) as int, nv as int);
            let rest = scan_records(numbers@, pos as int, (nv - v - 1) as int, nv as int);
            assert(record_ok(numbers@, pos0));
            assert(suffix0.error == rest.error);
            assert(suffix0.end == rest.end);
            assert(suffix0.edge_total == degree + rest.edge_total);
            assert(suffix0.targets_ok == ((forall|k2: int|
                0 <= k2 < degree ==> (#[trigger] numbers@[pos0 + 3 + k2]) < nv as int)
                && rest.targets_ok));
            assert(edges@.len() == edges_before.len() + degree) by {
                assert(edge_pairs(edges@).len() == edges@.len());
                assert(edge_pairs(edges_before).len() == edges_before.len());
            }
            assert forall|j: int| 0 <= j < edges@.len() implies ((#[trigger] edges@[j]).1.spec_value()
                as int) == (if j < edges_before.len() {
                edges_before[j].1.spec_value() as int
            } else {
                numbers@[pos0 + 3 + (j - edges_before.len())] as int
            }) by {
                assert(edge_pairs(edges@)[j] == (edges@[j].0.spec_value(), edges@[j].1.spec_value()));
                if j < edges_before.len() {
                    assert(edge_pairs(edges@)[j] == edge_pairs(edges_before)[j]);
                    assert(edge_pairs(edges_before)[j] == (
                        edges_before[j].0.spec_value(),
                        edges_before[j].1.spec_value(),
                    ));
                } else {
                    assert(edge_pairs(edges@)[j] == (v, numbers@[pos0 + 3 + (j
                        - edges_before.len())]));
                }
            }
            assert(((forall|j: int|
                0 <= j < edges@.len() ==> ((#[trigger] edges@[j]).1.spec_value() as int) < (
                nv as int))) == ((forall|j: int|
                0 <= j < edges_before.len() ==> ((#[trigger] edges_before[j]).1.spec_value()
                    as int) < (nv as int)) && (forall|k2: int|
                0 <= k2 < degree ==> (#[trigger] numbers@[pos0 + 3 + k2]) < nv as int))) by {
                if (forall|j: int|
                    0 <= j < edges@.len() ==> ((#[trigger] edges@[j]).1.spec_value() as int) < (
                    nv as int)) {
                    assert forall|k2: int| 0 <= k2 < degree implies (
                    #[trigger] numbers@[pos0 + 3 + k2]) < nv as int by {
                        assert((edges@[edges_before.len() + k2].1.spec_value() as int) < nv as int);
                    }
                    assert forall|j: int| 0 <= j < edges_before.len() implies ((
                    #[trigger] edges_before[j]).1.spec_value() as int) < nv as int by {
                        assert((edges@[j].1.spec_value() as int) < nv as int);
                    }
                } else {
                    let j0 = choose|j: int|
                        0 <= j < edges@.len() && !(((#[trigger] edges@[j]).1.spec_value() as int)
                            < (nv as int));
                    if j0 < edges_before.len() {
                        assert(!((edges_before[j0].1.spec_value() as int) < nv as int));
                    } else {
                        assert(!((numbers@[pos0 + 3 + (j0 - edges_before.len())] as int) < (
                        nv as int)));
                    }
                }
            }
        }
        v = v + 1;
    }

    proof {
        assert(scan_records(numbers@, pos as int, 0, nv as int).end == pos as int);
        assert(full_scan.error is None);
        assert(full_scan.end == pos as int);
        assert(full_scan.edge_total == edges@.len());
        assert(full_scan.targets_ok <==> (forall|j: int|
            0 <= j < edges@.len() ==> ((#[trigger] edges@[j]).1.spec_value() as int) < (
            nv as int)));
    }
    if pos != total {
        proof {
            assert(spec_parse_error(numbers@) == Some(FormatError::TrailingInput));
        }
        return Err(FormatError::TrailingInput);
    }
    if edges.len() != ne {
        proof {
            assert(spec_parse_error(numbers@) == Some(FormatError::WrongCounts));
        }
        return Err(FormatError::WrongCounts);
    }
    let ghost owners_v = owners@;
    let ghost priorities_v = priorities@;
    match ParityGame::from_edges(
        VertexIndex::new(initial),
        owners,
        priorities,
        Some(nv),
        &edges,
    ) {
        Ok(game) => {
            proof {
                lemma_records_agree(
                    game,
                    owners_v,
                    priorities_v,
                    edge_pairs(edges@),
                    nv as int,
                );
                assert(numbers@.take(total as int) =~= numbers@);
                assert(spec_render(game) =~= numbers@);
                // Construction succeeded, so the initial vertex and every
                // successor exist: the stream is valid.
                assert((initial as int) < nv as int);
                assert(full_scan.targets_ok);
                assert(spec_parse_error(numbers@) is None);
            }
            Ok(game)
        },
        Err(ConstructionError::WrongCounts) => {
            proof {
                assert(false);
            }
            Err(FormatError::WrongCounts)
        },
        Err(ConstructionError::DanglingVertex) => {
            proof {
                // Construction rejected a dangling index: either the
                // initial vertex or some successor is out of bounds, since
                // every source is below the vertex count by construction.
                assert(!((initial as int) < nv as int && (forall|j: int|
                    0 <= j < edges@.len() ==> ((#[trigger] edges@[j]).1.spec_value() as int) < (
                    nv as int))));
                assert(spec_parse_error(numbers@) == Some(FormatError::DanglingVertex));
            }
            Err(FormatError::DanglingVertex)
        },
    }
}

/// Records of the vertices below `v` only read the components below `v`,
/// so extending the components does not change them.
proof fn lemma_component_records_stable(
    owners1: Seq<Player>,
    priorities1: Seq<Priority>,
    es1: Seq<(usize, usize)>,
    owners2: Seq<Player>,
    priorities2: Seq<Priority>,
    es2: Seq<(usize, usize)>,
    v: int,
)
    requires
        owners1.len() >= v,
        priorities1.len() >= v,
        forall|u: int| 0 <= u < v ==> owners2[u] == owners1[u],
        forall|u: int| 0 <= u < v ==> priorities2[u] == priorities1[u],
        forall|u: int| 0 <= u < v ==> #[trigger] tos_from(es2, u) == tos_from(es1, u),
        owners2.len() >= v,
        priorities2.len() >= v,
    ensures
        spec_component_records(owners1, priorities1, es1, v) == spec_component_records(
            owners2,
            priorities2,
            es2,
            v,
        ),
    decreases v,
{
    if v > 0 {
        lemma_component_records_stable(owners1, priorities1, es1, owners2, priorities2, es2, v - 1);
        assert(seq![
            owner_number(owners1[v - 1]),
            priorities1[v - 1].spec_value(),
            tos_from(es1, v - 1).len() as usize,
        ] + tos_from(es1, v - 1) =~= seq![
            owner_number(owners2[v - 1]),
            priorities2[v - 1].spec_value(),
            tos_from(es2, v - 1).len() as usize,
        ] + tos_from(es2, v - 1));
    }
}

/// Shorter record runs are prefixes of longer ones.
proof fn lemma_records_prefix(g: ParityGame, v1: int, v2: int)
    requires
        0 <= v1 <= v2,
    ensures
        spec_records(g, v1).len() <= spec_records(g, v2).len(),
        spec_records(g, v2).take(spec_records(g, v1).len() as int) == spec_records(g, v1),
    decreases v2 - v1,
{
    if v1 < v2 {
        lemma_records_prefix(g, v1, v2 - 1);
        assert(spec_records(g, v2).take(spec_records(g, v1).len() as int) =~= spec_records(
            g,
            v2 - 1,
        ).take(spec_records(g, v1).len() as int));
    } else {
        assert(spec_records(g, v2).take(spec_records(g, v1).len() as int) =~= spec_records(
            g,
            v1,
        ));
    }
}

/// Scanning the rendered records of the vertices from `v` up succeeds and
/// accounts exactly for their edges.
proof fn lemma_scan_render_from(g: ParityGame, v: int)
    requires
        g.wf(),
        0 <= v <= g.spec_num_vertices(),
    ensures
        scan_records(
            spec_render(g),
            3 + spec_records(g, v).len() as int,
            g.spec_num_vertices() - v,
            g.spec_num_vertices(),
        ).error is None,
        scan_records(
            spec_render(g),
            3 + spec_records(g, v).len() as int,
            g.spec_num_vertices() - v,
            g.spec_num_vertices(),
        ).end == spec_render(g).len(),
        scan_records(
            spec_render(g),
            3 + spec_records(g, v).len() as int,
            g.spec_num_vertices() - v,
            g.spec_num_vertices(),
        ).edge_total == g.degree_sum(v),
        scan_records(
            spec_render(g),
            3 + spec_records(g, v).len() as int,
            g.spec_num_vertices() - v,
            g.spec_num_vertices(),
        ).targets_ok,
    decreases g.spec_num_vertices() - v,
{
    g.lemma_wf();
    let nums = spec_render(g);
    let nv = g.spec_num_vertices();
    let pos = 3 + spec_records(g, v).len() as int;
    if v == nv {
        lemma_records_prefix(g, v, nv);
        assert(spec_records(g, v).len() == spec_records(g, nv).len()) by {
            assert(spec_records(g, nv).take(spec_records(g, v).len() as int) == spec_records(
                g,
                v,
            ));
        }
    } else {
        let d = g.succs(v).len() as int;
        let record = spec_record(g, v);
        let here = spec_records(g, v).len() as int;
        lemma_records_prefix(g, v + 1, nv);
        assert(spec_records(g, v + 1) == spec_records(g, v) + record);
        assert(spec_records(g, v + 1).len() == here + 3 + d);
        // Every entry of this record sits in the rendered stream at its
        // offset behind the header and the earlier records.
        assert forall|j: int| 0 <= j < 3 + d implies nums[pos + j] == #[trigger] record[j] by {
            assert(nums[pos + j] == spec_records(g, nv)[here + j]);
            assert(spec_records(g, nv)[here + j] == spec_records(g, nv).take(
                spec_records(g, v + 1).len() as int,
            )[here + j]);
            assert(spec_records(g, v + 1)[here + j] == record[j]);
        }
        assert(record[0] == owner_number(g.spec_owner(v)));
        assert(record[1] == g.spec_priority(v) as usize);
        assert(record[2] == g.succs(v).len() as usize);
        assert(forall|k: int| 0 <= k < d ==> #[trigger] record[3 + k] == g.succs(v)[k]);
        assert(nums.len() == 3 + spec_records(g, nv).len());
        assert(record_ok(nums, pos)) by {
            assert(nums[pos] == record[0]);
            assert(nums[pos] <= 1);
            assert(nums[pos + 2] == record[2]);
            assert(g.succs(v).len() <= g.spec_num_edges());
            assert((nums[pos + 2] as int) == d);
            assert(pos + 3 + d == 3 + spec_records(g, v + 1).len());
        }
        lemma_scan_render_from(g, v + 1);
        assert((nums[pos + 2] as int) == d);
        assert(pos + 3 + nums[pos + 2] == 3 + spec_records(g, v + 1).len() as int);
        assert forall|k: int| 0 <= k < nums[pos + 2] implies (#[trigger] nums[pos + 3 + k])
            < nv by {
            assert(nums[pos + 3 + k] == record[3 + k]);
            assert(g.succs(v)[k] < nv);
        }
        assert(g.degree_sum(v) == d + g.degree_sum(v + 1));
    }
}

/// The decoder accepts every encoder output: the rendered stream of any
/// well-formed game is a well-formed game stream, so `parse_pg` succeeds
/// on everything `write_pg` produces.
pub proof fn lemma_render_valid(g: ParityGame)
    requires
        g.wf(),
    ensures
        spec_valid_stream(spec_render(g)),
{
    g.lemma_wf();
    g.lemma_degree_sum();
    lemma_scan_render_from(g, 0);
    let nums = spec_render(g);
    let nv = g.spec_num_vertices();
    assert(spec_records(g, 0) == Seq::<usize>::empty());
    assert(nums.len() >= 3);
    assert(nums[0] == nv as usize);
    assert(nums[1] == g.spec_num_edges() as usize);
    assert(nums[2] == g.spec_initial() as usize);
    assert((nums[0] as int) == nv);
    assert(nums[0] != usize::MAX);
    assert((nums[1] as int) == g.spec_num_edges());
    assert((nums[2] as int) == g.spec_initial());
    let scan = scan_records(nums, 3, nums[0] as int, nums[0] as int);
    assert(scan.error is None);
    assert(scan.end == nums.len());
    assert(scan.edge_total == g.spec_num_edges());
    assert(scan.targets_ok);
    assert((nums[2] as int) < nums[0] as int);
    assert(spec_parse_error(nums) is None);
}

} // verus!
