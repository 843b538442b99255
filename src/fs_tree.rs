//! A snapshot of a directory tree, as the walker reads it.
use std::collections::VecDeque;
use vstd::prelude::*;
use crate::text::views;

verus! {

/// One entry of a directory: a subdirectory with its own entries, or a file.
pub enum FsNode {
    Dir { name: String, entries: Vec<FsNode> },
    File { name: String },
}


/// The characters of each segment of each path of a list.
pub open spec fn path_views(l: Seq<VecDeque<String>>) -> Seq<Seq<Seq<char>>> {
    l.map_values(|d: VecDeque<String>| views(d@))
}

} // verus!
