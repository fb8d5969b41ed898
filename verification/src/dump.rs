//! Configuration for a capture-dump pass: the root path under which capture
//! files are discovered. Directory traversal, file reading and report printing
//! are the driver's concern; the library only carries the configured root.

use vstd::prelude::*;

verus! {

/// A capture-dump pass rooted at a start path.
#[derive(Clone, Debug)]
pub struct DumpCalls {
    start_path: String,
}

impl View for DumpCalls {
    type V = Seq<char>;

    closed spec fn view(&self) -> Seq<char> {
        self.start_path@
    }
}

impl DumpCalls {
    /// Configures a dump pass over all capture files in the specified path
    /// (and its children).
    pub fn new(start_path: String) -> (r: DumpCalls)
        ensures
            r@ == start_path@,
    {
        DumpCalls { start_path }
    }

    /// The root path under which capture files are looked for.
    pub fn start_path(&self) -> (p: &String)
        ensures
            p@ == self@,
    {
        &self.start_path
    }
}

} // verus!
