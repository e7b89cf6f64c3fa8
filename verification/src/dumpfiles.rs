//! A utility for dumping files, mostly used for testing and debugging.
//!
//! The given name selects a dedicated directory for the output files. The
//! writing itself is input/output and lives with the caller; this type
//! only carries the chosen directory.

use vstd::prelude::*;

verus! {

/// The target directory for dumped files.
pub struct DumpFiles {
    directory: String,
}

impl DumpFiles {
    /// The configured directory.
    pub closed spec fn spec_directory(self) -> Seq<char> {
        self.directory@
    }

    /// Creates a new `DumpFiles` instance with the given directory as
    /// output.
    pub fn new(directory: String) -> (r: Self)
        ensures
            r.spec_directory() == directory@,
    {
        Self { directory }
    }

    /// Returns the configured directory.
    pub fn directory(&self) -> (r: &str)
        ensures
            r@ == self.spec_directory(),
    {
        self.directory.as_str()
    }
}

} // verus!
