//! Files that processes open on the file system.
use vstd::prelude::*;

verus! {

/// A file opened by a process: its path, its open mode and its position.
pub struct File {
    pub path: Vec<u8>,
    pub fmode_t: u8,
    pub ptr: u8,
}

impl File {
    /// A file with an empty path, mode 0 and position 0.
    pub fn new() -> (r: File)
        ensures
            r.path@ == Seq::<u8>::empty(),
            r.fmode_t == 0,
            r.ptr == 0,
    {
        File { path: Vec::new(), fmode_t: 0, ptr: 0 }
    }
}

} // verus!
