//! The rendered front pages kept for the current snapshot.

use vstd::prelude::*;

verus! {

/// The front page rendered for one snapshot (identified by `ptr`), plain
/// and in the alternative style; the age token is filled per request.
#[derive(Debug)]
pub struct PageCache {
    pub ptr: usize,
    pub plain: String,
    pub rjz: String,
}

impl PageCache {
    /// A cache holding nothing yet.
    pub fn new() -> (r: PageCache)
        ensures
            r.ptr == 0,
            r.plain@.len() == 0,
            r.rjz@.len() == 0,
    {
        PageCache { ptr: 0, plain: String::new(), rjz: String::new() }
    }

    /// Whether the pages were rendered for snapshot `ptr`.
    pub fn is_for(&self, ptr: usize) -> (r: bool)
        ensures
            r == (self.ptr == ptr),
    {
        self.ptr == ptr
    }

    /// Keeps the pages rendered for snapshot `ptr`.
    pub fn store(&mut self, ptr: usize, plain: String, rjz: String)
        ensures
            final(self).ptr == ptr,
            final(self).plain@ == plain@,
            final(self).rjz@ == rjz@,
    {
        self.ptr = ptr;
        self.plain = plain;
        self.rjz = rjz;
    }

    /// The kept page in the requested style.
    pub fn page(&self, rjz: bool) -> (r: String)
        ensures
            r@ == (if rjz { self.rjz@ } else { self.plain@ }),
    {
        if rjz {
            self.rjz.clone()
        } else {
            self.plain.clone()
        }
    }
}

} // verus!
