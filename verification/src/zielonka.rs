//! The recursive attractor-based solver for parity games.
//!
//! The algorithm is stated twice: once as specification functions over sets
//! of vertices, and once as executable code over flag arrays, proved to
//! compute exactly the specified sets. The attractor of a target set is the
//! least fixpoint of a one-step closure operator; the solver removes nested
//! attractors recursively until the subgame is empty.

use vstd::prelude::*;
use vstd::set_lib::lemma_int_range;
use vstd::set_lib::lemma_len_subset;
use vstd::set_lib::set_int_range;

use crate::game::ParityGame;
use crate::game::Player;
use crate::game::Priority;
use crate::game::VertexIndex;
use crate::predecessors::Predecessors;

verus! {

/// The set of vertices whose flag is set.
pub open spec fn flag_set(flags: Seq<bool>) -> Set<int> {
    Set::new(|v: int| 0 <= v < flags.len() && flags[v])
}

/// The set of all vertices of a game.
pub open spec fn all_vertices(g: ParityGame) -> Set<int> {
    set_int_range(0, g.spec_num_vertices())
}

/// Whether `player` can force play from `v` into `a` in one step, within the
/// subgame `sub`: a vertex owned by `player` needs one successor in `a`; a
/// vertex of the opponent needs all its enabled successors in `a`, and at
/// least one enabled successor (a dead end is never attracted).
pub open spec fn attracts(
    g: ParityGame,
    sub: Set<int>,
    a: Set<int>,
    player: Player,
    v: int,
) -> bool {
    &&& sub.contains(v)
    &&& if g.spec_owner(v) == player {
        exists|k: int|
            0 <= k < g.succs(v).len() && sub.contains((#[trigger] g.succs(v)[k]) as int)
                && a.contains(g.succs(v)[k] as int)
    } else {
        &&& exists|k: int| 0 <= k < g.succs(v).len() && sub.contains((#[trigger] g.succs(v)[k]) as int)
        &&& forall|k: int|
            0 <= k < g.succs(v).len() && sub.contains((#[trigger] g.succs(v)[k]) as int)
                ==> a.contains(g.succs(v)[k] as int)
    }
}

/// One step of the attractor closure: add every vertex from which `player`
/// forces play into `a`.
pub open spec fn attr_step(g: ParityGame, sub: Set<int>, a: Set<int>, player: Player) -> Set<int> {
    a.union(Set::new(|v: int| attracts(g, sub, a, player, v)))
}

/// The attractor chain: `n` closure steps applied to the target.
pub open spec fn attr_n(
    g: ParityGame,
    sub: Set<int>,
    t: Set<int>,
    player: Player,
    n: nat,
) -> Set<int>
    decreases n,
{
    if n == 0 {
        t.intersect(sub)
    } else {
        attr_step(g, sub, attr_n(g, sub, t, player, (n - 1) as nat), player)
    }
}

/// The attractor of `t` for `player` within `sub`: the chain stabilizes
/// after at most as many steps as the game has vertices.
pub open spec fn attractor(g: ParityGame, sub: Set<int>, t: Set<int>, player: Player) -> Set<int> {
    attr_n(g, sub, t, player, g.spec_num_vertices() as nat)
}

/// Each chain element stays inside the subgame.
pub proof fn lemma_attr_n_in_sub(g: ParityGame, sub: Set<int>, t: Set<int>, player: Player, n: nat)
    ensures
        attr_n(g, sub, t, player, n).subset_of(sub),
    decreases n,
{
    if n > 0 {
        lemma_attr_n_in_sub(g, sub, t, player, (n - 1) as nat);
    }
}

/// One closure step keeps everything it is given.
pub proof fn lemma_attr_step_extensive(g: ParityGame, sub: Set<int>, a: Set<int>, player: Player)
    ensures
        a.subset_of(attr_step(g, sub, a, player)),
{
}

/// The chain is monotone in the number of steps.
pub proof fn lemma_attr_n_monotone(
    g: ParityGame,
    sub: Set<int>,
    t: Set<int>,
    player: Player,
    m: nat,
    n: nat,
)
    requires
        m <= n,
    ensures
        attr_n(g, sub, t, player, m).subset_of(attr_n(g, sub, t, player, n)),
    decreases n,
{
    if m < n {
        lemma_attr_n_monotone(g, sub, t, player, m, (n - 1) as nat);
        lemma_attr_step_extensive(g, sub, attr_n(g, sub, t, player, (n - 1) as nat), player);
    }
}

/// Once two consecutive chain elements agree, the chain stays constant.
pub proof fn lemma_attr_n_persists(
    g: ParityGame,
    sub: Set<int>,
    t: Set<int>,
    player: Player,
    k: nat,
    n: nat,
)
    requires
        attr_n(g, sub, t, player, k) == attr_n(g, sub, t, player, (k + 1) as nat),
        k <= n,
    ensures
        attr_n(g, sub, t, player, n) == attr_n(g, sub, t, player, k),
    decreases n,
{
    if k < n {
        lemma_attr_n_persists(g, sub, t, player, k, (n - 1) as nat);
    }
}

/// While the chain still grows, its size exceeds the number of steps taken.
pub proof fn lemma_attr_n_growth(
    g: ParityGame,
    sub: Set<int>,
    t: Set<int>,
    player: Player,
    k: nat,
)
    requires
        sub.finite(),
        forall|j: nat|
            j < k ==> #[trigger] attr_n(g, sub, t, player, j) != attr_n(
                g,
                sub,
                t,
                player,
                (j + 1) as nat,
            ),
    ensures
        attr_n(g, sub, t, player, k).len() >= k,
        attr_n(g, sub, t, player, k).finite(),
    decreases k,
{
    lemma_attr_n_in_sub(g, sub, t, player, k);
    lemma_len_subset(attr_n(g, sub, t, player, k), sub);
    if k > 0 {
        let prev = attr_n(g, sub, t, player, (k - 1) as nat);
        let cur = attr_n(g, sub, t, player, k);
        lemma_attr_n_growth(g, sub, t, player, (k - 1) as nat);
        lemma_attr_n_monotone(g, sub, t, player, (k - 1) as nat, k);
        assert(prev != cur);
        // A strictly larger finite set has strictly larger cardinality.
        let x = choose|x: int| cur.contains(x) && !prev.contains(x);
        assert(!(prev =~= cur));
        assert(prev.subset_of(cur.remove(x)));
        lemma_len_subset(prev, cur.remove(x));
        assert(cur.remove(x).len() == cur.len() - 1);
    }
}

/// The attractor is a fixpoint of the closure step, contains its target,
/// and stays inside the subgame.
pub proof fn lemma_attractor_fixpoint(g: ParityGame, sub: Set<int>, t: Set<int>, player: Player)
    requires
        sub.subset_of(all_vertices(g)),
    ensures
        attr_step(g, sub, attractor(g, sub, t, player), player) == attractor(g, sub, t, player),
        t.intersect(sub).subset_of(attractor(g, sub, t, player)),
        attractor(g, sub, t, player).subset_of(sub),
        attractor(g, sub, t, player).finite(),
{
    let nv = g.spec_num_vertices() as nat;
    g.lemma_counts_nonneg();
    lemma_int_range(0, g.spec_num_vertices());
    lemma_len_subset(sub, all_vertices(g));
    lemma_attr_n_in_sub(g, sub, t, player, nv);
    lemma_len_subset(attr_n(g, sub, t, player, nv), sub);
    lemma_attr_n_monotone(g, sub, t, player, 0, nv);

    // Some step at or below the number of vertices must already be stable:
    // otherwise the chain would outgrow the subgame.
    assert(exists|k: nat|
        k <= nv && #[trigger] attr_n(g, sub, t, player, k) == attr_n(
            g,
            sub,
            t,
            player,
            (k + 1) as nat,
        )) by {
        if forall|k: nat|
            k <= nv ==> #[trigger] attr_n(g, sub, t, player, k) != attr_n(
                g,
                sub,
                t,
                player,
                (k + 1) as nat,
            ) {
            assert(forall|j: nat|
                j < nv + 1 ==> #[trigger] attr_n(g, sub, t, player, j) != attr_n(
                    g,
                    sub,
                    t,
                    player,
                    (j + 1) as nat,
                ));
            lemma_attr_n_growth(g, sub, t, player, (nv + 1) as nat);
            lemma_attr_n_in_sub(g, sub, t, player, (nv + 1) as nat);
            lemma_len_subset(attr_n(g, sub, t, player, (nv + 1) as nat), sub);
        }
    }
    let k = choose|k: nat|
        k <= nv && #[trigger] attr_n(g, sub, t, player, k) == attr_n(
            g,
            sub,
            t,
            player,
            (k + 1) as nat,
        );
    lemma_attr_n_persists(g, sub, t, player, k, nv);
    lemma_attr_n_persists(g, sub, t, player, k, (nv + 1) as nat);
    assert(attr_n(g, sub, t, player, (nv + 1) as nat) == attr_step(
        g,
        sub,
        attr_n(g, sub, t, player, nv),
        player,
    ));
}

/// The attractor is the least set that contains its target and is closed
/// under the closure step: any closed superset of the target contains it.
pub proof fn lemma_attractor_least(
    g: ParityGame,
    sub: Set<int>,
    t: Set<int>,
    player: Player,
    b: Set<int>,
)
    requires
        t.intersect(sub).subset_of(b),
        forall|v: int| attracts(g, sub, b, player, v) ==> b.contains(v),
    ensures
        attractor(g, sub, t, player).subset_of(b),
{
    lemma_attr_n_least(g, sub, t, player, b, g.spec_num_vertices() as nat);
}

/// `p` is the maximum priority occurring in `sub`.
pub open spec fn is_max_priority(g: ParityGame, sub: Set<int>, p: int) -> bool {
    &&& exists|v: int| #[trigger] sub.contains(v) && g.spec_priority(v) == p
    &&& forall|v: int| #[trigger] sub.contains(v) ==> g.spec_priority(v) <= p
}

/// The maximum priority occurring in `sub` (meaningful only when `sub` is
/// not empty).
pub open spec fn max_priority_of(g: ParityGame, sub: Set<int>) -> int {
    choose|p: int| is_max_priority(g, sub, p)
}

/// The vertices of `sub` with priority `p`.
pub open spec fn priority_set(g: ParityGame, sub: Set<int>, p: int) -> Set<int> {
    Set::new(|v: int| sub.contains(v) && g.spec_priority(v) == p)
}

/// Every finite, non-empty vertex set has a maximum priority.
pub proof fn lemma_exists_max_priority(g: ParityGame, sub: Set<int>)
    requires
        sub.finite(),
        !sub.is_empty(),
    ensures
        exists|p: int| is_max_priority(g, sub, p),
        is_max_priority(g, sub, max_priority_of(g, sub)),
    decreases sub.len(),
{
    let v = sub.choose();
    assert(sub.contains(v));
    let rest = sub.remove(v);
    if rest.is_empty() {
        assert forall|w: int| #[trigger] sub.contains(w) implies g.spec_priority(w)
            <= g.spec_priority(v) by {
            if w != v {
                assert(rest.contains(w));
            }
        }
        assert(is_max_priority(g, sub, g.spec_priority(v)));
    } else {
        lemma_exists_max_priority(g, rest);
        let q = choose|p: int| is_max_priority(g, rest, p);
        if q >= g.spec_priority(v) {
            assert forall|w: int| #[trigger] sub.contains(w) implies g.spec_priority(w) <= q by {
                if w != v {
                    assert(rest.contains(w));
                }
            }
            let u = choose|u: int| #[trigger] rest.contains(u) && g.spec_priority(u) == q;
            assert(sub.contains(u));
            assert(is_max_priority(g, sub, q));
        } else {
            assert forall|w: int| #[trigger] sub.contains(w) implies g.spec_priority(w)
                <= g.spec_priority(v) by {
                if w != v {
                    assert(rest.contains(w));
                }
            }
            assert(is_max_priority(g, sub, g.spec_priority(v)));
        }
    }
}

/// The maximum priority of a set is unique.
pub proof fn lemma_max_priority_unique(g: ParityGame, sub: Set<int>, p1: int, p2: int)
    requires
        is_max_priority(g, sub, p1),
        is_max_priority(g, sub, p2),
    ensures
        p1 == p2,
{
}

/// The winning regions of Even and Odd on the subgame `sub`, computed by the
/// recursive algorithm: remove the attractor of the highest-priority
/// vertices, solve the remainder, and either the whole subgame goes to the
/// player of that priority, or the opponent's region is expanded by its own
/// attractor and the rest is solved again. The fuel only bounds the
/// recursion depth; any fuel of at least the size of `sub` gives the same
/// result.
pub open spec fn zielonka_sets(g: ParityGame, sub: Set<int>, fuel: nat) -> (Set<int>, Set<int>)
    decreases fuel,
{
    if fuel == 0 || sub.is_empty() {
        (Set::empty(), Set::empty())
    } else {
        let p = max_priority_of(g, sub);
        let alpha = Player::spec_from_priority(p);
        let t = priority_set(g, sub, p);
        let a = attractor(g, sub, t, alpha);
        let rest = zielonka_sets(g, sub.difference(a), (fuel - 1) as nat);
        let w_opp = if alpha is Even {
            rest.1
        } else {
            rest.0
        };
        if w_opp.is_empty() {
            if alpha is Even {
                (sub, Set::<int>::empty())
            } else {
                (Set::<int>::empty(), sub)
            }
        } else {
            let b = attractor(g, sub, w_opp, alpha.spec_opponent());
            let rest2 = zielonka_sets(g, sub.difference(b), (fuel - 1) as nat);
            if alpha is Even {
                (rest2.0, rest2.1.union(b))
            } else {
                (rest2.0.union(b), rest2.1)
            }
        }
    }
}

/// Removing a non-empty part of a finite set strictly shrinks it.
proof fn lemma_difference_shrinks(sub: Set<int>, a: Set<int>)
    requires
        sub.finite(),
        !a.intersect(sub).is_empty(),
    ensures
        sub.difference(a).finite(),
        sub.difference(a).len() < sub.len(),
        sub.difference(a).subset_of(sub),
{
    let x = a.intersect(sub).choose();
    assert(a.intersect(sub).contains(x));
    assert(sub.difference(a).subset_of(sub.remove(x)));
    lemma_len_subset(sub.difference(a), sub.remove(x));
    assert(sub.remove(x).len() == sub.len() - 1);
}

/// The two regions computed on a subgame partition it: every vertex of the
/// subgame lies in exactly one of them.
pub proof fn lemma_zielonka_partitions(g: ParityGame, sub: Set<int>, fuel: nat)
    requires
        g.wf(),
        sub.subset_of(all_vertices(g)),
        fuel >= sub.len(),
        sub.finite(),
    ensures
        zielonka_sets(g, sub, fuel).0.union(zielonka_sets(g, sub, fuel).1) == sub,
        zielonka_sets(g, sub, fuel).0.intersect(zielonka_sets(g, sub, fuel).1) == Set::<
            int,
        >::empty(),
        zielonka_sets(g, sub, fuel).0.subset_of(sub),
        zielonka_sets(g, sub, fuel).1.subset_of(sub),
        zielonka_sets(g, sub, fuel).0.finite(),
        zielonka_sets(g, sub, fuel).1.finite(),
    decreases fuel,
{
    if sub.is_empty() {
        assert(zielonka_sets(g, sub, fuel).0.union(zielonka_sets(g, sub, fuel).1) =~= sub);
        assert(zielonka_sets(g, sub, fuel).0.intersect(zielonka_sets(g, sub, fuel).1) =~= Set::<
            int,
        >::empty());
    } else {
        assert(sub.len() >= 1) by {
            if sub.len() == 0 {
                sub.lemma_len0_is_empty();
            }
        }
        lemma_exists_max_priority(g, sub);
        let p = max_priority_of(g, sub);
        let alpha = Player::spec_from_priority(p);
        let t = priority_set(g, sub, p);
        let a = attractor(g, sub, t, alpha);
        lemma_attractor_fixpoint(g, sub, t, alpha);
        let w = choose|v: int| #[trigger] sub.contains(v) && g.spec_priority(v) == p;
        assert(t.intersect(sub).contains(w));
        assert(a.intersect(sub).contains(w));
        let sub1 = sub.difference(a);
        lemma_difference_shrinks(sub, a);
        lemma_zielonka_partitions(g, sub1, (fuel - 1) as nat);
        let rest = zielonka_sets(g, sub1, (fuel - 1) as nat);
        let w_opp = if alpha is Even {
            rest.1
        } else {
            rest.0
        };
        if w_opp.is_empty() {
            assert(zielonka_sets(g, sub, fuel).0.union(zielonka_sets(g, sub, fuel).1) =~= sub);
            assert(zielonka_sets(g, sub, fuel).0.intersect(zielonka_sets(g, sub, fuel).1) =~= Set::<
                int,
            >::empty());
        } else {
            let b = attractor(g, sub, w_opp, alpha.spec_opponent());
            lemma_attractor_fixpoint(g, sub, w_opp, alpha.spec_opponent());
            let y = w_opp.choose();
            assert(w_opp.contains(y));
            assert(w_opp.intersect(sub).contains(y));
            assert(b.intersect(sub).contains(y));
            let sub2 = sub.difference(b);
            lemma_difference_shrinks(sub, b);
            lemma_zielonka_partitions(g, sub2, (fuel - 1) as nat);
            let rest2 = zielonka_sets(g, sub2, (fuel - 1) as nat);
            assert(rest2.0.union(rest2.1) == sub2);
            if alpha is Even {
                assert(zielonka_sets(g, sub, fuel) == (rest2.0, rest2.1.union(b)));
                assert(rest2.0.union(rest2.1.union(b)) =~= sub);
                assert(rest2.0.intersect(rest2.1.union(b)) =~= Set::<int>::empty());
            } else {
                assert(zielonka_sets(g, sub, fuel) == (rest2.0.union(b), rest2.1));
                assert(rest2.0.union(b).union(rest2.1) =~= sub2.union(b));
                assert(sub2.union(b) =~= sub);
                assert(rest2.0.union(b).union(rest2.1) =~= sub);
                assert(rest2.0.union(b).intersect(rest2.1) =~= Set::<int>::empty());
            }
            assert(zielonka_sets(g, sub, fuel).0.union(zielonka_sets(g, sub, fuel).1) =~= sub);
            assert(zielonka_sets(g, sub, fuel).0.intersect(zielonka_sets(g, sub, fuel).1) =~= Set::<
                int,
            >::empty());
        }
    }
}

/// The fuel does not matter once it covers the size of the subgame: the
/// recursion bottoms out before the fuel does.
pub proof fn lemma_zielonka_fuel(g: ParityGame, sub: Set<int>, f1: nat, f2: nat)
    requires
        g.wf(),
        sub.subset_of(all_vertices(g)),
        sub.finite(),
        f1 >= sub.len(),
        f2 >= sub.len(),
    ensures
        zielonka_sets(g, sub, f1) == zielonka_sets(g, sub, f2),
    decreases f1,
{
    if !sub.is_empty() {
        assert(sub.len() >= 1) by {
            if sub.len() == 0 {
                sub.lemma_len0_is_empty();
            }
        }
        lemma_exists_max_priority(g, sub);
        let p = max_priority_of(g, sub);
        let alpha = Player::spec_from_priority(p);
        let t = priority_set(g, sub, p);
        let a = attractor(g, sub, t, alpha);
        lemma_attractor_fixpoint(g, sub, t, alpha);
        let w = choose|v: int| #[trigger] sub.contains(v) && g.spec_priority(v) == p;
        assert(t.intersect(sub).contains(w));
        assert(a.intersect(sub).contains(w));
        let sub1 = sub.difference(a);
        lemma_difference_shrinks(sub, a);
        lemma_zielonka_fuel(g, sub1, (f1 - 1) as nat, (f2 - 1) as nat);
        let rest = zielonka_sets(g, sub1, (f1 - 1) as nat);
        let w_opp = if alpha is Even {
            rest.1
        } else {
            rest.0
        };
        if !w_opp.is_empty() {
            let b = attractor(g, sub, w_opp, alpha.spec_opponent());
            lemma_attractor_fixpoint(g, sub, w_opp, alpha.spec_opponent());
            let y = w_opp.choose();
            assert(w_opp.contains(y));
            lemma_zielonka_partitions(g, sub1, (f1 - 1) as nat);
            assert(w_opp.subset_of(sub1));
            assert(w_opp.intersect(sub).contains(y));
            assert(b.intersect(sub).contains(y));
            let sub2 = sub.difference(b);
            lemma_difference_shrinks(sub, b);
            lemma_zielonka_fuel(g, sub2, (f1 - 1) as nat, (f2 - 1) as nat);
        }
    }
}

/// Finds the maximum priority among the flagged vertices, if any vertex is
/// flagged.
fn find_max_priority(g: &ParityGame, sub: &Vec<bool>) -> (r: Option<Priority>)
    requires
        g.wf(),
        sub@.len() == g.spec_num_vertices(),
    ensures
        r is None <==> flag_set(sub@).is_empty(),
        r matches Some(p) ==> is_max_priority(*g, flag_set(sub@), p.spec_value() as int),
{
    let nv = g.num_of_vertices();
    let mut best: Option<Priority> = None;
    let mut v: usize = 0;
    while v < nv
        invariant
            g.wf(),
            nv == g.spec_num_vertices(),
            sub@.len() == nv,
            0 <= v <= nv,
            best is None ==> forall|u: int| 0 <= u < v ==> !(#[trigger] sub@[u]),
            best matches Some(p) ==> (exists|u: int|
                0 <= u < v && #[trigger] sub@[u] && g.spec_priority(u) == p.spec_value()) && (
            forall|u: int|
                0 <= u < v && #[trigger] sub@[u] ==> g.spec_priority(u) <= p.spec_value()),
        decreases nv - v,
    {
        if sub[v] {
            let pr = g.priority(VertexIndex::new(v));
            match best {
                None => {
                    best = Some(pr);
                },
                Some(b) => {
                    if pr.value() > b.value() {
                        best = Some(pr);
                    }
                },
            }
        }
        v = v + 1;
    }
    proof {
        match best {
            None => {
                assert(flag_set(sub@) =~= Set::<int>::empty());
            },
            Some(p) => {
                let u = choose|u: int|
                    0 <= u < nv && #[trigger] sub@[u] && g.spec_priority(u) == p.spec_value();
                assert(flag_set(sub@).contains(u));
                assert forall|w: int| #[trigger] flag_set(sub@).contains(w) implies g.spec_priority(
                    w,
                ) <= p.spec_value() by {
                    assert(sub@[w]);
                }
                assert(!flag_set(sub@).is_empty());
            },
        }
    }
    best
}

/// The flagged vertices of the subgame carrying exactly the priority `p`.
fn priority_vertices(g: &ParityGame, sub: &Vec<bool>, p: Priority) -> (r: Vec<bool>)
    requires
        g.wf(),
        sub@.len() == g.spec_num_vertices(),
    ensures
        r@.len() == g.spec_num_vertices(),
        flag_set(r@) == priority_set(*g, flag_set(sub@), p.spec_value() as int),
{
    let nv = g.num_of_vertices();
    let mut flags: Vec<bool> = Vec::new();
    let mut v: usize = 0;
    while v < nv
        invariant
            g.wf(),
            nv == g.spec_num_vertices(),
            sub@.len() == nv,
            0 <= v <= nv,
            flags@.len() == v,
            forall|u: int|
                0 <= u < v ==> ((#[trigger] flags@[u]) <==> sub@[u] && g.spec_priority(u)
                    == p.spec_value()),
        decreases nv - v,
    {
        flags.push(sub[v] && g.priority(VertexIndex::new(v)).value() == p.value());
        v = v + 1;
    }
    proof {
        assert(flag_set(flags@) =~= priority_set(*g, flag_set(sub@), p.spec_value() as int));
    }
    flags
}

/// The flagged vertices of `sub` that are not flagged in `b`.
fn set_minus(sub: &Vec<bool>, b: &Vec<bool>) -> (r: Vec<bool>)
    requires
        sub@.len() == b@.len(),
    ensures
        r@.len() == sub@.len(),
        flag_set(r@) == flag_set(sub@).difference(flag_set(b@)),
{
    let n = sub.len();
    let mut flags: Vec<bool> = Vec::new();
    let mut v: usize = 0;
    while v < n
        invariant
            n == sub@.len(),
            sub@.len() == b@.len(),
            0 <= v <= n,
            flags@.len() == v,
            forall|u: int| 0 <= u < v ==> ((#[trigger] flags@[u]) <==> sub@[u] && !b@[u]),
        decreases n - v,
    {
        flags.push(sub[v] && !b[v]);
        v = v + 1;
    }
    proof {
        assert(flag_set(flags@) =~= flag_set(sub@).difference(flag_set(b@)));
    }
    flags
}

/// Whether no vertex is flagged.
fn is_all_false(flags: &Vec<bool>) -> (r: bool)
    ensures
        r == flag_set(flags@).is_empty(),
{
    let n = flags.len();
    let mut v: usize = 0;
    while v < n
        invariant
            n == flags@.len(),
            0 <= v <= n,
            forall|u: int| 0 <= u < v ==> !(#[trigger] flags@[u]),
        decreases n - v,
    {
        if flags[v] {
            proof {
                assert(flag_set(flags@).contains(v as int));
                assert(!flag_set(flags@).is_empty());
            }
            return false;
        }
        v = v + 1;
    }
    proof {
        assert(flag_set(flags@) =~= Set::<int>::empty());
    }
    true
}

/// Whether `player` forces play from `v` into the marked set in one step,
/// checked by scanning the successors of `v`.
fn qualifies(
    g: &ParityGame,
    sub: &Vec<bool>,
    marked: &Vec<bool>,
    v: usize,
    player: Player,
) -> (r: bool)
    requires
        g.wf(),
        sub@.len() == g.spec_num_vertices(),
        marked@.len() == g.spec_num_vertices(),
        (v as int) < g.spec_num_vertices(),
        sub@[v as int],
    ensures
        r == attracts(*g, flag_set(sub@), flag_set(marked@), player, v as int),
{
    proof {
        g.lemma_wf();
        assert(flag_set(sub@).contains(v as int));
    }
    let vi = VertexIndex::new(v);
    let d = g.out_degree(vi);
    let owner = g.owner(vi);
    let same = owner.to_index() == player.to_index();
    let mut k: usize = 0;
    if same {
        // The owner needs a single enabled successor that is already marked.
        while k < d
            invariant
                g.wf(),
                sub@.len() == g.spec_num_vertices(),
                marked@.len() == g.spec_num_vertices(),
                (v as int) < g.spec_num_vertices(),
                sub@[v as int],
                g.spec_owner(v as int) == player,
                vi.spec_value() == v,
                d == g.succs(v as int).len(),
                forall|j: int|
                    0 <= j < d ==> 0 <= (#[trigger] g.succs(v as int)[j]) < g.spec_num_vertices(),
                0 <= k <= d,
                forall|j: int|
                    0 <= j < k ==> !(sub@[(#[trigger] g.succs(v as int)[j]) as int] && marked@[g.succs(v as int)[j] as int]),
            decreases d - k,
        {
            let w = g.successor(vi, k).value();
            if sub[w] && marked[w] {
                proof {
                    assert(flag_set(sub@).contains(w as int) && flag_set(marked@).contains(
                        w as int,
                    ));
                }
                return true;
            }
            k = k + 1;
        }
        proof {
            assert forall|j: int| 0 <= j < g.succs(v as int).len() implies !(flag_set(
                sub@,
            ).contains((#[trigger] g.succs(v as int)[j]) as int) && flag_set(marked@).contains(
                g.succs(v as int)[j] as int,
            )) by {}
        }
        false
    } else {
        // The opponent is attracted only when it has an enabled successor
        // and every enabled successor is already marked.
        let mut any_enabled = false;
        while k < d
            invariant
                g.wf(),
                sub@.len() == g.spec_num_vertices(),
                marked@.len() == g.spec_num_vertices(),
                (v as int) < g.spec_num_vertices(),
                sub@[v as int],
                g.spec_owner(v as int) != player,
                vi.spec_value() == v,
                d == g.succs(v as int).len(),
                forall|j: int|
                    0 <= j < d ==> 0 <= (#[trigger] g.succs(v as int)[j]) < g.spec_num_vertices(),
                0 <= k <= d,
                any_enabled <==> exists|j: int|
                    0 <= j < k && sub@[(#[trigger] g.succs(v as int)[j]) as int],
                forall|j: int|
                    0 <= j < k && sub@[(#[trigger] g.succs(v as int)[j]) as int] ==> marked@[g.succs(v as int)[j] as int],
            decreases d - k,
        {
            let w = g.successor(vi, k).value();
            if sub[w] {
                if !marked[w] {
                    proof {
                        assert(flag_set(sub@).contains(w as int) && !flag_set(marked@).contains(
                            w as int,
                        ));
                        assert(!attracts(*g, flag_set(sub@), flag_set(marked@), player, v as int));
                    }
                    return false;
                }
                any_enabled = true;
            }
            k = k + 1;
        }
        proof {
            if any_enabled {
                let j = choose|j: int| 0 <= j < d && sub@[(#[trigger] g.succs(v as int)[j]) as int];
                assert(flag_set(sub@).contains(g.succs(v as int)[j] as int));
                assert forall|j2: int|
                    0 <= j2 < g.succs(v as int).len() && flag_set(sub@).contains(
                        (#[trigger] g.succs(v as int)[j2]) as int,
                    ) implies flag_set(marked@).contains(g.succs(v as int)[j2] as int) by {
                    assert(sub@[g.succs(v as int)[j2] as int]);
                }
                assert(attracts(*g, flag_set(sub@), flag_set(marked@), player, v as int));
            } else {
                assert(!attracts(*g, flag_set(sub@), flag_set(marked@), player, v as int));
            }
        }
        any_enabled
    }
}

/// The set of vertices held in a worklist.
pub open spec fn queue_set(q: Seq<usize>) -> Set<int> {
    Set::new(|v: int| exists|i: int| 0 <= i < q.len() && ((#[trigger] q[i]) as int) == v)
}

/// A flag array describes a finite vertex set no larger than the array.
proof fn lemma_flag_set_finite(s: Seq<bool>)
    ensures
        flag_set(s).finite(),
        flag_set(s).len() <= s.len(),
{
    lemma_int_range(0, s.len() as int);
    assert(flag_set(s).subset_of(set_int_range(0, s.len() as int)));
    lemma_len_subset(flag_set(s), set_int_range(0, s.len() as int));
}

/// Setting a clear flag inserts exactly that vertex into the described set.
proof fn lemma_flag_set_update(s: Seq<bool>, i: int)
    requires
        0 <= i < s.len(),
        !s[i],
    ensures
        flag_set(s.update(i, true)) == flag_set(s).insert(i),
        flag_set(s.update(i, true)).len() == flag_set(s).len() + 1,
        flag_set(s.update(i, true)).finite(),
{
    lemma_flag_set_finite(s);
    assert(flag_set(s.update(i, true)) =~= flag_set(s).insert(i));
    vstd::set::axiom_set_insert_len(flag_set(s), i);
}

/// Pushing onto a worklist inserts exactly that vertex into its set.
proof fn lemma_queue_set_push(q: Seq<usize>, x: usize)
    ensures
        queue_set(q.push(x)) == queue_set(q).insert(x as int),
{
    assert forall|v: int| queue_set(q.push(x)).contains(v) implies queue_set(q).insert(
        x as int,
    ).contains(v) by {
        let i = choose|i: int| 0 <= i < q.push(x).len() && ((#[trigger] q.push(x)[i]) as int) == v;
        if i < q.len() {
            assert((q[i] as int) == v);
        }
    }
    assert forall|v: int| queue_set(q).insert(x as int).contains(v) implies queue_set(
        q.push(x),
    ).contains(v) by {
        if queue_set(q).contains(v) {
            let i = choose|i: int| 0 <= i < q.len() && ((#[trigger] q[i]) as int) == v;
            assert((q.push(x)[i] as int) == v);
        } else {
            assert((q.push(x)[q.len() as int] as int) == v);
        }
    }
    assert(queue_set(q.push(x)) =~= queue_set(q).insert(x as int));
}

/// Popping the last element of a duplicate-free worklist removes exactly
/// that vertex from its set.
proof fn lemma_queue_set_pop(q: Seq<usize>)
    requires
        q.len() > 0,
        forall|i: int, j: int| 0 <= i < j < q.len() ==> q[i] != q[j],
    ensures
        queue_set(q.subrange(0, q.len() - 1)) == queue_set(q).remove(q[q.len() - 1] as int),
{
    let q2 = q.subrange(0, q.len() - 1);
    let x = q[q.len() - 1];
    assert forall|v: int| queue_set(q2).contains(v) implies queue_set(q).remove(
        x as int,
    ).contains(v) by {
        let i = choose|i: int| 0 <= i < q2.len() && ((#[trigger] q2[i]) as int) == v;
        assert((q[i] as int) == v);
        assert(q[i] != x);
    }
    assert forall|v: int| queue_set(q).remove(x as int).contains(v) implies queue_set(q2).contains(
        v,
    ) by {
        let i = choose|i: int| 0 <= i < q.len() && ((#[trigger] q[i]) as int) == v;
        assert(i < q.len() - 1);
        assert((q2[i] as int) == v);
    }
    assert(queue_set(q2) =~= queue_set(q).remove(x as int));
}

/// One-step attraction is monotone in the already-attracted set.
proof fn lemma_attracts_monotone(
    g: ParityGame,
    sub: Set<int>,
    a1: Set<int>,
    a2: Set<int>,
    player: Player,
    v: int,
)
    requires
        a1.subset_of(a2),
        attracts(g, sub, a1, player, v),
    ensures
        attracts(g, sub, a2, player, v),
{
}

/// A vertex that is no successor of `v` has no influence on whether `v` is
/// attracted.
proof fn lemma_attracts_insert_nonsucc(
    g: ParityGame,
    sub: Set<int>,
    a: Set<int>,
    player: Player,
    v: int,
    w: usize,
)
    requires
        !g.succs(v).contains(w),
    ensures
        attracts(g, sub, a.insert(w as int), player, v) == attracts(g, sub, a, player, v),
{
    if attracts(g, sub, a.insert(w as int), player, v) {
        if g.spec_owner(v) == player {
            let k = choose|k: int|
                0 <= k < g.succs(v).len() && sub.contains((#[trigger] g.succs(v)[k]) as int)
                    && a.insert(w as int).contains(g.succs(v)[k] as int);
            assert(g.succs(v)[k] != w);
            assert(a.contains(g.succs(v)[k] as int));
            assert(attracts(g, sub, a, player, v));
        } else {
            assert forall|k: int|
                0 <= k < g.succs(v).len() && sub.contains(
                    (#[trigger] g.succs(v)[k]) as int,
                ) implies a.contains(g.succs(v)[k] as int) by {
                assert(g.succs(v)[k] != w);
            }
            assert(attracts(g, sub, a, player, v));
        }
    }
    if attracts(g, sub, a, player, v) {
        lemma_attracts_monotone(g, sub, a, a.insert(w as int), player, v);
    }
}

/// Computes the attractor of the flagged target set for `player` within the
/// flagged subgame, backward over the predecessor index: a worklist of newly
/// attracted vertices; popping a vertex re-examines its predecessors.
#[verifier::rlimit(100)]
fn attractor_exec(
    g: &ParityGame,
    preds: &Predecessors,
    player: Player,
    t: &Vec<bool>,
    sub: &Vec<bool>,
) -> (r: Vec<bool>)
    requires
        g.wf(),
        preds.built_from(*g),
        t@.len() == g.spec_num_vertices(),
        sub@.len() == g.spec_num_vertices(),
    ensures
        r@.len() == g.spec_num_vertices(),
        flag_set(r@) == attractor(*g, flag_set(sub@), flag_set(t@), player),
{
    let nv = g.num_of_vertices();
    let ghost subset = flag_set(sub@);
    let ghost tset = flag_set(t@);
    proof {
        g.lemma_wf();
        assert(subset.subset_of(all_vertices(*g)));
        lemma_attractor_fixpoint(*g, subset, tset, player);
    }
    let ghost goal = attractor(*g, subset, tset, player);

    // Seed the worklist with the target vertices inside the subgame.
    let mut marked: Vec<bool> = Vec::new();
    let mut queue: Vec<usize> = Vec::new();
    let mut v: usize = 0;
    while v < nv
        invariant
            0 <= v <= nv,
            t@.len() == nv,
            sub@.len() == nv,
            marked@.len() == v,
            forall|u: int| 0 <= u < v ==> ((#[trigger] marked@[u]) <==> t@[u] && sub@[u]),
            forall|i: int| 0 <= i < queue@.len() ==> ((#[trigger] queue@[i]) as int) < v,
            forall|i: int| 0 <= i < queue@.len() ==> marked@[(#[trigger] queue@[i]) as int],
            forall|i: int, j: int| 0 <= i < j < queue@.len() ==> queue@[i] != queue@[j],
            forall|u: int| 0 <= u < v && marked@[u] ==> #[trigger] queue_set(queue@).contains(u),
        decreases nv - v,
    {
        let ghost q0 = queue@;
        if t[v] && sub[v] {
            marked.push(true);
            queue.push(v);
            proof {
                lemma_queue_set_push(q0, v);
            }
        } else {
            marked.push(false);
        }
        proof {
            assert forall|u: int| 0 <= u < v + 1 && marked@[u] implies #[trigger] queue_set(
                queue@,
            ).contains(u) by {
                if u < v {
                    assert(queue_set(q0).contains(u));
                    let i = choose|i: int| 0 <= i < q0.len() && ((#[trigger] q0[i]) as int) == u;
                    assert((queue@[i] as int) == u);
                } else {
                    assert(t@[v as int] && sub@[v as int]);
                    assert(queue_set(queue@) == queue_set(q0).insert(v as int));
                }
            }
        }
        v = v + 1;
    }
    proof {
        assert(tset.intersect(subset).subset_of(flag_set(marked@)));
        assert(flag_set(marked@).subset_of(goal)) by {
            assert forall|u: int| flag_set(marked@).contains(u) implies goal.contains(u) by {
                assert(tset.intersect(subset).contains(u));
            }
        }
        assert(flag_set(marked@).difference(queue_set(queue@)) =~= Set::<int>::empty());
        assert forall|u: int|
            subset.contains(u) && !marked@[u] implies !attracts(
            *g,
            subset,
            flag_set(marked@).difference(queue_set(queue@)),
            player,
            u,
        ) by {
            let done = flag_set(marked@).difference(queue_set(queue@));
            if attracts(*g, subset, done, player, u) {
                if g.spec_owner(u) == player {
                    let k = choose|k: int|
                        0 <= k < g.succs(u).len() && subset.contains(
                            (#[trigger] g.succs(u)[k]) as int,
                        ) && done.contains(g.succs(u)[k] as int);
                    assert(false);
                } else {
                    let k = choose|k: int|
                        0 <= k < g.succs(u).len() && subset.contains(
                            (#[trigger] g.succs(u)[k]) as int,
                        );
                    assert(done.contains(g.succs(u)[k] as int));
                    assert(false);
                }
            }
        }
    }

    // Drain the worklist: popping a newly attracted vertex re-examines each
    // of its predecessors.
    while queue.len() > 0
        invariant
            g.wf(),
            preds.built_from(*g),
            t@.len() == nv,
            sub@.len() == nv,
            nv == g.spec_num_vertices(),
            subset == flag_set(sub@),
            tset == flag_set(t@),
            goal == attractor(*g, subset, tset, player),
            marked@.len() == nv,
            tset.intersect(subset).subset_of(flag_set(marked@)),
            flag_set(marked@).subset_of(goal),
            forall|i: int| 0 <= i < queue@.len() ==> ((#[trigger] queue@[i]) as int) < nv,
            forall|i: int| 0 <= i < queue@.len() ==> marked@[(#[trigger] queue@[i]) as int],
            forall|i: int, j: int| 0 <= i < j < queue@.len() ==> queue@[i] != queue@[j],
            forall|u: int|
                subset.contains(u) && !marked@[u] ==> !attracts(
                    *g,
                    subset,
                    flag_set(marked@).difference(queue_set(queue@)),
                    player,
                    u,
                ),
        decreases nv - flag_set(marked@).len(), queue@.len(),
    {
        proof {
            lemma_flag_set_finite(marked@);
        }
        let ghost queue_before = queue@;
        let ghost marked_before = marked@;
        let w = match queue.pop() {
            Some(x) => x,
            None => {
                proof {
                    assert(false);
                }
                0
            },
        };
        proof {
            lemma_queue_set_pop(queue_before);
        }
        let ghost done_w = flag_set(marked@).difference(queue_set(queue@));
        proof {
            // Popping `w` moves it into the settled set: every unmarked
            // vertex that is no predecessor entry of `w` stays unattracted.
            let done_before = flag_set(marked_before).difference(queue_set(queue_before));
            assert(done_w =~= done_before.insert(w as int));
            assert((w as int) < nv);
            assert forall|u: int|
                subset.contains(u) && !marked@[u] && !preds.preds_of(w as int).contains(
                    u as usize,
                ) implies !attracts(*g, subset, done_w, player, u) by {
                assert(0 <= u < nv);
                preds.lemma_preds_iff(*g, u, w as int);
                assert(!g.succs(u).contains(w));
                lemma_attracts_insert_nonsucc(*g, subset, done_before, player, u, w);
            }
        }
        let dcount = preds.pred_count(VertexIndex::new(w), g);
        let mut idx: usize = 0;
        let ghost m0 = flag_set(marked@).len();
        let ghost q0len = queue@.len();
        while idx < dcount
            invariant
                g.wf(),
                preds.built_from(*g),
                t@.len() == nv,
                sub@.len() == nv,
                nv == g.spec_num_vertices(),
                subset == flag_set(sub@),
                tset == flag_set(t@),
                goal == attractor(*g, subset, tset, player),
                marked@.len() == nv,
                (w as int) < nv,
                dcount == preds.preds_of(w as int).len(),
                0 <= idx <= dcount,
                tset.intersect(subset).subset_of(flag_set(marked@)),
                flag_set(marked@).subset_of(goal),
                forall|i: int| 0 <= i < queue@.len() ==> ((#[trigger] queue@[i]) as int) < nv,
                forall|i: int| 0 <= i < queue@.len() ==> marked@[(#[trigger] queue@[i]) as int],
                forall|i: int, j: int| 0 <= i < j < queue@.len() ==> queue@[i] != queue@[j],
                done_w == flag_set(marked@).difference(queue_set(queue@)),
                flag_set(marked@).finite(),
                flag_set(marked@).len() >= m0,
                queue@.len() == q0len + flag_set(marked@).len() - m0,
                forall|u: int|
                    subset.contains(u) && !marked@[u] && !(exists|j: int|
                        idx <= j < dcount && ((#[trigger] preds.preds_of(w as int)[j]) as int)
                            == u) ==> !attracts(*g, subset, done_w, player, u),
            decreases dcount - idx,
        {
            let u = preds.pred(VertexIndex::new(w), idx, g).value();
            let ghost marked_mid = marked@;
            let ghost queue_mid = queue@;
            if sub[u] && !marked[u] && qualifies(g, sub, &marked, u, player) {
                proof {
                    assert(subset.subset_of(all_vertices(*g)));
                    lemma_attractor_fixpoint(*g, subset, tset, player);
                    lemma_flag_set_update(marked@, u as int);
                    lemma_queue_set_push(queue@, u);
                    // Soundness: the newly attracted vertex lies in the
                    // attractor, because the marked set does and the
                    // attractor is closed under one more step.
                    lemma_attracts_monotone(
                        *g,
                        subset,
                        flag_set(marked@),
                        goal,
                        player,
                        u as int,
                    );
                    assert(attr_step(*g, subset, goal, player).contains(u as int));
                }
                marked[u] = true;
                queue.push(u);
            }
            proof {
                assert(done_w =~= flag_set(marked@).difference(queue_set(queue@)));
                assert forall|u2: int|
                    subset.contains(u2) && !marked@[u2] && !(exists|j: int|
                        idx + 1 <= j < dcount && ((#[trigger] preds.preds_of(w as int)[j]) as int)
                            == u2) implies !attracts(*g, subset, done_w, player, u2) by {
                    if u2 == u as int {
                        // This predecessor was just examined and rejected.
                        assert(!attracts(*g, subset, flag_set(marked_mid), player, u2));
                        assert(done_w.subset_of(flag_set(marked_mid))) by {
                            assert(done_w =~= flag_set(marked_mid).difference(
                                queue_set(queue_mid),
                            ));
                        }
                        if attracts(*g, subset, done_w, player, u2) {
                            lemma_attracts_monotone(
                                *g,
                                subset,
                                done_w,
                                flag_set(marked_mid),
                                player,
                                u2,
                            );
                        }
                    } else {
                        if !(exists|j: int|
                            idx <= j < dcount && ((#[trigger] preds.preds_of(w as int)[j]) as int)
                                == u2) {
                        } else {
                            let j = choose|j: int|
                                idx <= j < dcount && ((#[trigger] preds.preds_of(w as int)[j]) as int)
                                    == u2;
                            assert(j == idx);
                            assert(false);
                        }
                    }
                }
            }
            idx = idx + 1;
        }
        proof {
            // The scan of `w`'s predecessors is complete, so the settled-set
            // invariant holds again for the shrunken worklist.
            assert forall|u: int| subset.contains(u) && !marked@[u] implies !attracts(
                *g,
                subset,
                flag_set(marked@).difference(queue_set(queue@)),
                player,
                u,
            ) by {
                assert(!(exists|j: int|
                    dcount <= j < dcount && ((#[trigger] preds.preds_of(w as int)[j]) as int) == u));
            }
            lemma_flag_set_finite(marked@);
        }
    }

    proof {
        // The worklist is empty: the marked set is closed under one-step
        // attraction, contains the target, and sits inside the attractor,
        // so it is the attractor.
        let mset = flag_set(marked@);
        assert(queue_set(queue@) =~= Set::<int>::empty());
        assert(mset.difference(queue_set(queue@)) =~= mset);
        assert forall|u: int| attracts(*g, subset, mset, player, u) implies mset.contains(u) by {
            if !mset.contains(u) {
                assert(subset.contains(u));
                assert(0 <= u < nv);
                assert(!marked@[u]);
            }
        }
        lemma_attractor_least(*g, subset, tset, player, mset);
        assert(flag_set(marked@) =~= goal);
    }
    marked
}

/// A flag array of the given length with no flag set.
fn false_flags(n: usize) -> (r: Vec<bool>)
    ensures
        r@.len() == n,
        forall|u: int| 0 <= u < n ==> !(#[trigger] r@[u]),
        flag_set(r@) == Set::<int>::empty(),
{
    let mut flags: Vec<bool> = Vec::new();
    let mut v: usize = 0;
    while v < n
        invariant
            0 <= v <= n,
            flags@.len() == v,
            forall|u: int| 0 <= u < v ==> !(#[trigger] flags@[u]),
        decreases n - v,
    {
        flags.push(false);
        v = v + 1;
    }
    proof {
        assert(flag_set(flags@) =~= Set::<int>::empty());
    }
    flags
}

/// A flag array of the given length with every flag set.
fn true_flags(n: usize) -> (r: Vec<bool>)
    ensures
        r@.len() == n,
        flag_set(r@) == set_int_range(0, n as int),
{
    let mut flags: Vec<bool> = Vec::new();
    let mut v: usize = 0;
    while v < n
        invariant
            0 <= v <= n,
            flags@.len() == v,
            forall|u: int| 0 <= u < v ==> #[trigger] flags@[u],
        decreases n - v,
    {
        flags.push(true);
        v = v + 1;
    }
    proof {
        assert(flag_set(flags@) =~= set_int_range(0, n as int));
    }
    flags
}

/// A copy of a flag array.
fn copy_flags(flags: &Vec<bool>) -> (r: Vec<bool>)
    ensures
        r@ == flags@,
{
    let n = flags.len();
    let mut out: Vec<bool> = Vec::new();
    let mut v: usize = 0;
    while v < n
        invariant
            0 <= v <= n,
            n == flags@.len(),
            out@ =~= flags@.take(v as int),
        decreases n - v,
    {
        out.push(flags[v]);
        v = v + 1;
    }
    proof {
        assert(out@ =~= flags@);
    }
    out
}

/// The union of two flag arrays.
fn or_flags(x: &Vec<bool>, y: &Vec<bool>) -> (r: Vec<bool>)
    requires
        x@.len() == y@.len(),
    ensures
        r@.len() == x@.len(),
        flag_set(r@) == flag_set(x@).union(flag_set(y@)),
{
    let n = x.len();
    let mut out: Vec<bool> = Vec::new();
    let mut v: usize = 0;
    while v < n
        invariant
            0 <= v <= n,
            n == x@.len(),
            x@.len() == y@.len(),
            out@.len() == v,
            forall|u: int| 0 <= u < v ==> ((#[trigger] out@[u]) <==> x@[u] || y@[u]),
        decreases n - v,
    {
        out.push(x[v] || y[v]);
        v = v + 1;
    }
    proof {
        assert(flag_set(out@) =~= flag_set(x@).union(flag_set(y@)));
    }
    out
}

/// Solves the flagged subgame recursively: remove the attractor of the
/// highest-priority vertices, solve the remainder, and either award the
/// whole subgame to the player of that priority, or remove the opponent's
/// attractor and solve the rest. Returns the winning-region flags of Even
/// and of Odd, which compute exactly the specified regions.
#[verifier::rlimit(100)]
fn zielonka_rec(g: &ParityGame, preds: &Predecessors, sub: &Vec<bool>) -> (r: (
    Vec<bool>,
    Vec<bool>,
))
    requires
        g.wf(),
        preds.built_from(*g),
        sub@.len() == g.spec_num_vertices(),
    ensures
        r.0@.len() == g.spec_num_vertices(),
        r.1@.len() == g.spec_num_vertices(),
        (flag_set(r.0@), flag_set(r.1@)) == zielonka_sets(
            *g,
            flag_set(sub@),
            flag_set(sub@).len(),
        ),
    decreases flag_set(sub@).len(),
{
    let nv = g.num_of_vertices();
    let ghost subset = flag_set(sub@);
    proof {
        g.lemma_wf();
        lemma_flag_set_finite(sub@);
        assert(subset.subset_of(all_vertices(*g)));
    }
    match find_max_priority(g, sub) {
        None => {
            // The subgame is empty: both regions are empty.
            let we = false_flags(nv);
            let wo = false_flags(nv);
            proof {
                assert(zielonka_sets(*g, subset, subset.len()) == (
                    Set::<int>::empty(),
                    Set::<int>::empty(),
                ));
            }
            (we, wo)
        },
        Some(p) => {
            proof {
                assert(!subset.is_empty());
                assert(subset.len() >= 1) by {
                    if subset.len() == 0 {
                        subset.lemma_len0_is_empty();
                    }
                }
                lemma_exists_max_priority(*g, subset);
                lemma_max_priority_unique(
                    *g,
                    subset,
                    p.spec_value() as int,
                    max_priority_of(*g, subset),
                );
            }
            let alpha = Player::from_priority(&p);
            let t = priority_vertices(g, sub, p);
            let a = attractor_exec(g, preds, alpha, &t, sub);
            let sub1 = set_minus(sub, &a);
            let ghost tset = flag_set(t@);
            let ghost aset = flag_set(a@);
            let ghost sub1set = flag_set(sub1@);
            proof {
                lemma_attractor_fixpoint(*g, subset, tset, alpha);
                // The maximal-priority vertex itself is attracted, so the
                // remainder is strictly smaller.
                let v0 = choose|v: int| #[trigger] subset.contains(v) && g.spec_priority(v)
                    == p.spec_value() as int;
                assert(tset.intersect(subset).contains(v0));
                assert(aset.intersect(subset).contains(v0));
                lemma_difference_shrinks(subset, aset);
            }
            let rec1 = zielonka_rec(g, preds, &sub1);
            let (we1, wo1) = rec1;
            proof {
                lemma_zielonka_fuel(*g, sub1set, sub1set.len(), (subset.len() - 1) as nat);
                lemma_zielonka_partitions(*g, sub1set, (subset.len() - 1) as nat);
            }
            let is_even = match alpha {
                Player::Even => true,
                Player::Odd => false,
            };
            let w_opp = if is_even {
                &wo1
            } else {
                &we1
            };
            let ghost w_opp_set = flag_set(w_opp@);
            if is_all_false(w_opp) {
                // The opponent wins nothing in the remainder: the player of
                // the top priority wins the entire subgame.
                let all = copy_flags(sub);
                let none = false_flags(nv);
                proof {
                    assert(zielonka_sets(*g, subset, subset.len()) == (if alpha is Even {
                        (subset, Set::<int>::empty())
                    } else {
                        (Set::<int>::empty(), subset)
                    }));
                }
                if is_even {
                    (all, none)
                } else {
                    (none, all)
                }
            } else {
                let beta = alpha.opponent();
                let b = attractor_exec(g, preds, beta, w_opp, sub);
                let sub2 = set_minus(sub, &b);
                let ghost bset = flag_set(b@);
                let ghost sub2set = flag_set(sub2@);
                proof {
                    lemma_attractor_fixpoint(*g, subset, w_opp_set, beta);
                    let y0 = w_opp_set.choose();
                    assert(w_opp_set.contains(y0));
                    assert(w_opp_set.subset_of(sub1set));
                    assert(w_opp_set.intersect(subset).contains(y0));
                    assert(bset.intersect(subset).contains(y0));
                    lemma_difference_shrinks(subset, bset);
                }
                let rec2 = zielonka_rec(g, preds, &sub2);
                let (we2, wo2) = rec2;
                proof {
                    lemma_zielonka_fuel(*g, sub2set, sub2set.len(), (subset.len() - 1) as nat);
                }
                if is_even {
                    let wo = or_flags(&wo2, &b);
                    (we2, wo)
                } else {
                    let we = or_flags(&we2, &b);
                    (we, wo2)
                }
            }
        },
    }
}

/// The winning partition of a whole game: Even's and Odd's winning regions
/// over the full vertex set.
pub open spec fn winning_partition(g: ParityGame) -> (Set<int>, Set<int>) {
    zielonka_sets(g, all_vertices(g), all_vertices(g).len())
}

/// Every vertex of a game is won by exactly one player: the two regions of
/// the winning partition are disjoint and together cover all vertices.
pub proof fn lemma_partition_total(g: ParityGame)
    requires
        g.wf(),
    ensures
        winning_partition(g).0.union(winning_partition(g).1) == all_vertices(g),
        winning_partition(g).0.intersect(winning_partition(g).1) == Set::<int>::empty(),
        forall|v: int|
            0 <= v < g.spec_num_vertices() ==> (#[trigger] winning_partition(g).0.contains(v)
                <==> !winning_partition(g).1.contains(v)),
{
    g.lemma_counts_nonneg();
    lemma_int_range(0, g.spec_num_vertices());
    lemma_zielonka_partitions(g, all_vertices(g), all_vertices(g).len());
    assert forall|v: int| 0 <= v < g.spec_num_vertices() implies (
    #[trigger] winning_partition(g).0.contains(v) <==> !winning_partition(g).1.contains(v)) by {
        assert(all_vertices(g).contains(v));
        assert(winning_partition(g).0.union(winning_partition(g).1).contains(v));
        if winning_partition(g).0.contains(v) && winning_partition(g).1.contains(v) {
            assert(winning_partition(g).0.intersect(winning_partition(g).1).contains(v));
        }
    }
}

/// The outcome of solving a parity game: the winner of every vertex, and,
/// distinguished, the winner of the initial vertex.
pub struct Solution {
    winners: Vec<Player>,
    initial_winner: Player,
}

impl Solution {
    /// The winner of each vertex.
    pub closed spec fn spec_winners(self) -> Seq<Player> {
        self.winners@
    }

    /// The winner of the initial vertex.
    pub closed spec fn spec_initial_winner(self) -> Player {
        self.initial_winner
    }

    /// Returns the winner of the given vertex.
    pub fn winner(&self, vertex: VertexIndex) -> (r: Player)
        requires
            (vertex.spec_value() as int) < self.spec_winners().len(),
        ensures
            r == self.spec_winners()[vertex.spec_value() as int],
    {
        self.winners[vertex.value()]
    }

    /// The textual verdict for the initial vertex: `"true"` exactly when
    /// Even wins it.
    pub fn solution(&self) -> (r: &'static str)
        ensures
            self.spec_initial_winner() is Even ==> r@ == "true"@,
            self.spec_initial_winner() is Odd ==> r@ == "false"@,
    {
        self.initial_winner.solution()
    }
}

/// Solves a parity game with the recursive attractor-based algorithm. The
/// result assigns every vertex its winner: Even exactly on Even's region of
/// the winning partition, Odd everywhere else — and every vertex outside
/// Even's region lies in Odd's, so each vertex is won by exactly one
/// player. The partition is a function of the game alone, so solving the
/// same game twice yields identical results.
pub fn solve_zielonka(game: &ParityGame) -> (r: Solution)
    requires
        game.wf(),
    ensures
        r.spec_winners().len() == game.spec_num_vertices(),
        forall|v: int|
            0 <= v < game.spec_num_vertices() ==> (#[trigger] r.spec_winners()[v]) == (
            if winning_partition(*game).0.contains(v) {
                Player::Even
            } else {
                Player::Odd
            }),
        r.spec_initial_winner() == r.spec_winners()[game.spec_initial()],
{
    let preds = Predecessors::new(game);
    let nv = game.num_of_vertices();
    let sub = true_flags(nv);
    proof {
        game.lemma_wf();
        assert(flag_set(sub@) == all_vertices(*game));
        lemma_int_range(0, nv as int);
    }
    let regions = zielonka_rec(game, &preds, &sub);
    let we = regions.0;
    proof {
        lemma_partition_total(*game);
    }
    let mut winners: Vec<Player> = Vec::new();
    let mut v: usize = 0;
    while v < nv
        invariant
            0 <= v <= nv,
            nv == game.spec_num_vertices(),
            we@.len() == nv,
            flag_set(we@) == winning_partition(*game).0,
            winners@.len() == v,
            forall|u: int|
                0 <= u < v ==> (#[trigger] winners@[u]) == (if winning_partition(
                    *game,
                ).0.contains(u) {
                    Player::Even
                } else {
                    Player::Odd
                }),
        decreases nv - v,
    {
        if we[v] {
            proof {
                assert(flag_set(we@).contains(v as int));
            }
            winners.push(Player::Even);
        } else {
            proof {
                assert(!flag_set(we@).contains(v as int));
            }
            winners.push(Player::Odd);
        }
        v = v + 1;
    }
    let initial_winner = winners[game.initial_vertex().value()];
    Solution { winners, initial_winner }
}

/// Solving is deterministic: any two winner arrays that satisfy the
/// solver's contract for the same game are identical, because the contract
/// pins each entry to the game's winning partition.
pub proof fn lemma_solving_deterministic(g: ParityGame, s1: Solution, s2: Solution)
    requires
        s1.spec_winners().len() == g.spec_num_vertices(),
        s2.spec_winners().len() == g.spec_num_vertices(),
        forall|v: int|
            0 <= v < g.spec_num_vertices() ==> (#[trigger] s1.spec_winners()[v]) == (
            if winning_partition(g).0.contains(v) {
                Player::Even
            } else {
                Player::Odd
            }),
        forall|v: int|
            0 <= v < g.spec_num_vertices() ==> (#[trigger] s2.spec_winners()[v]) == (
            if winning_partition(g).0.contains(v) {
                Player::Even
            } else {
                Player::Odd
            }),
    ensures
        s1.spec_winners() == s2.spec_winners(),
{
    assert(s1.spec_winners() =~= s2.spec_winners());
}

proof fn lemma_attr_n_least(
    g: ParityGame,
    sub: Set<int>,
    t: Set<int>,
    player: Player,
    b: Set<int>,
    n: nat,
)
    requires
        t.intersect(sub).subset_of(b),
        forall|v: int| attracts(g, sub, b, player, v) ==> b.contains(v),
    ensures
        attr_n(g, sub, t, player, n).subset_of(b),
    decreases n,
{
    if n > 0 {
        lemma_attr_n_least(g, sub, t, player, b, (n - 1) as nat);
        let a = attr_n(g, sub, t, player, (n - 1) as nat);
        assert forall|v: int| attr_n(g, sub, t, player, n).contains(v) implies b.contains(v) by {
            if !a.contains(v) {
                assert(attracts(g, sub, a, player, v));
                assert(attracts(g, sub, b, player, v));
            }
        }
    }
}

} // verus!
