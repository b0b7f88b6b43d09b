//! A record: a mapping from column to value, and, once it has been read
//! back from a segment, where it was read from.
use std::collections::BTreeMap;
use vstd::prelude::*;

verus! {

/// A record and its provenance: the segment it was read from and its
/// zero-based line there. A record that was never stored has an empty path
/// and the index -1.
pub struct Record {
    pub inner: BTreeMap<String, String>,
    pub path: String,
    pub index: i64,
}

impl Record {
    /// Whether the record says where it is stored.
    pub open spec fn bound(&self) -> bool {
        self.path@.len() > 0 && self.index >= 0
    }

    /// A record that is not stored yet.
    pub fn new(inner: BTreeMap<String, String>) -> (r: Self)
        ensures
            r.inner == inner,
            r.path@.len() == 0,
            r.index == -1,
            !r.bound(),
    {
        Record { inner, path: String::new(), index: -1 }
    }

    /// A record read from line `index` of the segment at `path`.
    pub fn located(inner: BTreeMap<String, String>, path: String, index: usize) -> (r: Self)
        requires
            index <= i64::MAX,
        ensures
            r.inner == inner,
            r.path == path,
            r.index == index as i64,
            r.bound() <==> path@.len() > 0,
    {
        Record { inner, path, index: index as i64 }
    }

    /// Whether the record says where it is stored.
    pub fn is_bound(&self) -> (r: bool)
        ensures
            r == self.bound(),
    {
        self.path.unicode_len() > 0 && self.index >= 0
    }
}

} // verus!
