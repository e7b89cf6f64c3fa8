//! Selection of the parity game file format, by name or from a file
//! extension.

use vstd::prelude::*;
use vstd::string::StringSliceAdditionalSpecFns;

verus! {

/// The two parity game file formats: explicit games, and variability
/// games.
#[derive(Clone, Copy, Debug, PartialEq, Eq, Structural)]
pub enum ParityGameFormat {
    PG,
    VPG,
}

/// The bytes of the explicit-game extension, `.pg`.
pub open spec fn pg_extension() -> Seq<u8> {
    seq![46u8, 112u8, 103u8]
}

/// The bytes of the variability-game extension, `.vpg`.
pub open spec fn vpg_extension() -> Seq<u8> {
    seq![46u8, 118u8, 112u8, 103u8]
}

/// The bytes of the alternative variability-game extension, `.svpg`.
pub open spec fn svpg_extension() -> Seq<u8> {
    seq![46u8, 115u8, 118u8, 112u8, 103u8]
}

/// Whether `suffix` is a suffix of `b`.
pub open spec fn is_suffix_of(b: Seq<u8>, suffix: Seq<u8>) -> bool {
    b.len() >= suffix.len() && b.subrange(b.len() - suffix.len(), b.len() as int) == suffix
}

/// The format that a path selects when no explicit format is given.
pub open spec fn spec_guess_format(b: Seq<u8>, format: Option<ParityGameFormat>) -> Option<
    ParityGameFormat,
> {
    match format {
        Some(f) => Some(f),
        None => if is_suffix_of(b, pg_extension()) {
            Some(ParityGameFormat::PG)
        } else if is_suffix_of(b, vpg_extension()) || is_suffix_of(b, svpg_extension()) {
            Some(ParityGameFormat::VPG)
        } else {
            None
        },
    }
}

/// Whether the bytes of `b` end in the bytes of `suffix`.
fn has_suffix(b: &[u8], suffix: &Vec<u8>) -> (r: bool)
    ensures
        r == is_suffix_of(b@, suffix@),
{
    let n = b.len();
    let m = suffix.len();
    if n < m {
        return false;
    }
    let start = n - m;
    let mut k: usize = 0;
    while k < m
        invariant
            n == b@.len(),
            m == suffix@.len(),
            m <= n,
            start == n - m,
            0 <= k <= m,
            forall|j: int| 0 <= j < k ==> b@[start + j] == suffix@[j],
        decreases m - k,
    {
        if b[start + k] != suffix[k] {
            proof {
                assert(b@.subrange(n - m, n as int)[k as int] != suffix@[k as int]);
            }
            return false;
        }
        k = k + 1;
    }
    proof {
        assert(b@.subrange(n - m, n as int) =~= suffix@);
    }
    true
}

/// Guesses the parity game file format from the file extension, or uses a
/// fixed format if provided: `.pg` selects the explicit format, `.vpg` and
/// `.svpg` the variability format.
pub fn guess_format_from_extension(path: &str, format: Option<ParityGameFormat>) -> (r: Option<
    ParityGameFormat,
>)
    ensures
        r == spec_guess_format(path.spec_bytes(), format),
{
    if let Some(f) = format {
        return Some(f);
    }

    let bytes = path.as_bytes();
    let pg: Vec<u8> = vec![46u8, 112u8, 103u8];
    let vpg: Vec<u8> = vec![46u8, 118u8, 112u8, 103u8];
    let svpg: Vec<u8> = vec![46u8, 115u8, 118u8, 112u8, 103u8];
    proof {
        assert(pg@ =~= pg_extension());
        assert(vpg@ =~= vpg_extension());
        assert(svpg@ =~= svpg_extension());
    }
    if has_suffix(bytes, &pg) {
        Some(ParityGameFormat::PG)
    } else if has_suffix(bytes, &vpg) || has_suffix(bytes, &svpg) {
        Some(ParityGameFormat::VPG)
    } else {
        None
    }
}

} // verus!
