//! Validity of permutations: a mapping over `0..max` is a permutation
//! exactly when it is a bijection of that range.

use vstd::prelude::*;

verus! {

/// Whether the first `max` entries of `p` form a bijection of `0..max`:
/// every entry is in range, and no two entries coincide.
pub open spec fn spec_is_permutation(p: Seq<usize>, max: int) -> bool {
    &&& forall|i: int| 0 <= i < max ==> (#[trigger] p[i]) < max
    &&& forall|i: int, j: int| 0 <= i < j < max ==> p[i] != p[j]
}

/// Returns true iff the given mapping is a bijective mapping within the
/// `0..max` range.
pub fn is_valid_permutation(permutation: &Vec<usize>, max: usize) -> (r: bool)
    requires
        permutation@.len() >= max,
    ensures
        r == spec_is_permutation(permutation@, max as int),
{
    let mut visited: Vec<bool> = Vec::new();
    let mut i: usize = 0;
    while i < max
        invariant
            0 <= i <= max,
            visited@.len() == i,
            forall|u: int| 0 <= u < i ==> !(#[trigger] visited@[u]),
        decreases max - i,
    {
        visited.push(false);
        i = i + 1;
    }

    let mut i: usize = 0;
    while i < max
        invariant
            permutation@.len() >= max,
            0 <= i <= max,
            visited@.len() == max,
            forall|u: int| 0 <= u < i ==> (#[trigger] permutation@[u]) < max,
            forall|u: int, v: int| 0 <= u < v < i ==> permutation@[u] != permutation@[v],
            forall|w: int|
                0 <= w < max ==> ((#[trigger] visited@[w]) <==> exists|u: int|
                    0 <= u < i && (#[trigger] permutation@[u]) as int == w),
        decreases max - i,
    {
        let target = permutation[i];

        // Out of bounds.
        if target >= max {
            return false;
        }

        if visited[target] {
            proof {
                let u = choose|u: int|
                    0 <= u < i && (#[trigger] permutation@[u]) as int == target as int;
                assert(permutation@[u] == permutation@[i as int]);
            }
            return false;
        }
        visited[target] = true;
        proof {
            assert forall|w: int| 0 <= w < max implies ((#[trigger] visited@[w]) <==> exists|u: int|
                0 <= u < i + 1 && (#[trigger] permutation@[u]) as int == w) by {
                if w == target as int {
                    assert(permutation@[i as int] as int == w);
                } else {
                    if visited@[w] {
                        let u = choose|u: int|
                            0 <= u < i && (#[trigger] permutation@[u]) as int == w;
                        assert(0 <= u < i + 1 && permutation@[u] as int == w);
                    }
                    if exists|u: int|
                        0 <= u < i + 1 && (#[trigger] permutation@[u]) as int == w {
                        let u = choose|u: int|
                            0 <= u < i + 1 && (#[trigger] permutation@[u]) as int == w;
                        assert(u < i);
                    }
                }
            }
        }
        i = i + 1;
    }

    true
}

} // verus!
