//! Filter orchestration over a list of directory names.

use vstd::prelude::*;

verus! {

/// Holds the candidate directory names handed in by the caller.
pub struct IgnoreFilter {
    dir_list: Vec<String>,
}

impl IgnoreFilter {
    /// The candidate names this filter was built from.
    pub closed spec fn dirs(&self) -> Seq<Seq<char>> {
        self.dir_list.deep_view()
    }

    pub fn new(dir_list: Vec<String>) -> (r: Self)
        ensures
            r.dirs() == dir_list.deep_view(),
    {
        Self { dir_list }
    }

    pub fn new_str(dir_list: Vec<String>) -> (r: Self)
        ensures
            r.dirs() == dir_list.deep_view(),
    {
        Self { dir_list }
    }

    /// Filtering is not wired to an ignore tree yet: every candidate is
    /// returned unchanged.
    pub fn filter(&self) -> (r: Vec<String>)
        ensures
            r.deep_view() == self.dirs(),
    {
        self.dir_list.clone()
    }
}

} // verus!
