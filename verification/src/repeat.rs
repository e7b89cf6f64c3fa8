//! Utility to render a repeated static string a given number of times.

use vstd::prelude::*;

verus! {

/// `s` repeated `n` times, as a character sequence.
pub open spec fn repeated(s: Seq<char>, n: int) -> Seq<char>
    decreases n,
{
    if n <= 0 {
        Seq::empty()
    } else {
        repeated(s, n - 1) + s
    }
}

/// A repeated static string: the string and the number of repetitions.
pub struct Repeat {
    s: &'static str,
    times: usize,
}

impl Repeat {
    /// The repeated string.
    pub closed spec fn spec_s(self) -> Seq<char> {
        self.s@
    }

    /// The number of repetitions.
    pub closed spec fn spec_times(self) -> int {
        self.times as int
    }

    /// Creates a new Repeat instance.
    pub fn new(s: &'static str, times: usize) -> (r: Self)
        ensures
            r.spec_s() == s@,
            r.spec_times() == times,
    {
        Self { s, times }
    }

    /// Renders the string repeated the configured number of times.
    pub fn render(&self) -> (r: String)
        ensures
            r@ == repeated(self.spec_s(), self.spec_times()),
    {
        let mut out = String::new();
        let mut i: usize = 0;
        proof {
            assert(out@ =~= repeated(self.spec_s(), 0));
        }
        while i < self.times
            invariant
                0 <= i <= self.times,
                out@ == repeated(self.spec_s(), i as int),
            decreases self.times - i,
        {
            out.append(self.s);
            i = i + 1;
        }
        out
    }
}

} // verus!
