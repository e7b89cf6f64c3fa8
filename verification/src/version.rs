//! The version switch of the command-line tools, and the version stamp
//! they print: a package version joined with a short build hash.

use vstd::prelude::*;

verus! {

/// The switch that asks a tool to print its version.
#[derive(Clone, Copy, Debug)]
pub struct VersionFlag {
    version: bool,
}

impl VersionFlag {
    /// Whether the switch is set.
    pub closed spec fn spec_is_set(self) -> bool {
        self.version
    }

    /// Wraps the switch value.
    pub fn new(version: bool) -> (r: Self)
        ensures
            r.spec_is_set() == version,
    {
        VersionFlag { version }
    }

    /// Returns whether the switch is set.
    pub fn is_set(&self) -> (r: bool)
        ensures
            r == self.spec_is_set(),
    {
        self.version
    }
}

/// A version stamp: the package version together with the first characters
/// of the build hash.
pub struct Version {
    version: String,
    build_hash_short: String,
}

impl Version {
    /// The package version.
    pub closed spec fn spec_version(self) -> Seq<char> {
        self.version@
    }

    /// The shortened build hash.
    pub closed spec fn spec_build_hash_short(self) -> Seq<char> {
        self.build_hash_short@
    }

    /// Builds a version stamp from the package version and the shortened
    /// build hash.
    pub fn new(version: String, build_hash_short: String) -> (r: Self)
        ensures
            r.spec_version() == version@,
            r.spec_build_hash_short() == build_hash_short@,
    {
        Version { version, build_hash_short }
    }

    /// The printed form: the version, a dash, and the shortened hash.
    pub fn render(&self) -> (r: String)
        ensures
            r@ == self.spec_version() + "-"@ + self.spec_build_hash_short(),
    {
        let mut out = String::new();
        out.append(self.version.as_str());
        out.append("-");
        out.append(self.build_hash_short.as_str());
        out
    }
}

} // verus!
