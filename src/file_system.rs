//! Lists the asset files of a tree and resolves their segment paths below
//! the routing or static root.
use std::collections::VecDeque;
use vstd::prelude::*;
use crate::error::BuildError;
use crate::fs_tree::FsNode;
use crate::route_compiler::segment_of;
use crate::text::{extension, extension_of, has_extension, stem, str_eq, views};

verus! {

/// A component that roots an asset path: `routing` or `static`.
pub open spec fn is_asset_root(c: Seq<char>) -> bool {
    c == "routing"@ || c == "static"@
}

/// Segments of `path` from its nearest component named `routing` or
/// `static`, that component included, or `None` when there is none.
pub open spec fn asset_segments(path: Seq<Seq<char>>, truncate: bool) -> Option<Seq<Seq<char>>>
    decreases path.len(),
{
    if path.len() == 0 {
        None
    } else if is_asset_root(path.last()) {
        Some(seq![path.last()])
    } else {
        match asset_segments(path.drop_last(), truncate) {
            Some(r) => Some(r.push(segment_of(path.last(), truncate))),
            None => None,
        }
    }
}

/// Resolves a path, given as its components from the filesystem root, to
/// its segments from the routing or static root on; `truncate` strips each
/// extension below the root.
pub fn resolve_relative_path(path: Vec<String>, truncate: bool) -> (r: Result<
    VecDeque<String>,
    BuildError,
>)
    ensures
        match asset_segments(views(path@), truncate) {
            Some(segs) => r matches Ok(l) && views(l@) == segs,
            None => r == Err::<VecDeque<String>, BuildError>(BuildError::MissingRoot),
        },
{
    let ghost whole = views(path@);
    let mut l: VecDeque<String> = VecDeque::new();
    let mut rest = path;
    loop
        invariant
            whole == views(path@),
            match asset_segments(whole, truncate) {
                Some(segs) => asset_segments(views(rest@), truncate) matches Some(head) && segs
                    == head + views(l@),
                None => asset_segments(views(rest@), truncate) is None,
            },
        decreases rest@.len(),
    {
        let ghost before = views(rest@);
        match rest.pop() {
            None => {
                assert(before.len() == 0);
                return Err(BuildError::MissingRoot);
            },
            Some(last) => {
                assert(views(rest@) == before.drop_last());
                assert(before.last() == last@);
                if str_eq(last.as_str(), "routing") || str_eq(last.as_str(), "static") {
                    let ghost old_l = views(l@);
                    l.push_front(last);
                    proof {
                        assert(views(l@) == seq![before.last()] + old_l);
                    }
                    return Ok(l);
                }
                let seg = if truncate {
                    stem(last.as_str())
                } else {
                    last
                };
                let ghost old_l = views(l@);
                l.push_front(seg);
                proof {
                    assert(views(l@) == seq![seg@] + old_l);
                    match asset_segments(whole, truncate) {
                        Some(segs) => {
                            let h2 = asset_segments(views(rest@), truncate)->0;
                            assert(h2.push(seg@) + old_l == h2 + (seq![seg@] + old_l));
                        },
                        None => {},
                    }
                }
            },
        }
    }
}

/// The characters of each extension of a list.
pub open spec fn ext_views(exts: Seq<&str>) -> Seq<Seq<char>> {
    exts.map_values(|e: &str| e@)
}

/// A file whose extension is one of `exts`.
pub open spec fn is_listed(name: Seq<char>, exts: Seq<Seq<char>>) -> bool {
    has_extension(name) && exts.contains(extension_of(name))
}

/// The full paths of the listed files among the entries `es` of the
/// directory at `dir`, subdirectories first-met first, in order.
pub open spec fn listed_files(dir: Seq<Seq<char>>, es: Seq<FsNode>, exts: Seq<Seq<char>>) -> Seq<Seq<Seq<char>>>
    decreases es,
{
    if es.len() == 0 {
        Seq::empty()
    } else {
        listed_files(dir, es.subrange(0, es.len() - 1), exts) + node_files(dir, es[es.len() - 1], exts)
    }
}

/// The full paths of the listed files at or below one entry.
pub open spec fn node_files(dir: Seq<Seq<char>>, n: FsNode, exts: Seq<Seq<char>>) -> Seq<Seq<Seq<char>>>
    decreases n,
{
    match n {
        FsNode::Dir { name, entries } => listed_files(dir.push(name@), entries@, exts),
        FsNode::File { name } => if is_listed(name@, exts) {
            seq![dir.push(name@)]
        } else {
            Seq::empty()
        },
    }
}

/// The segments of each path of a list.
pub open spec fn paths_view(l: Seq<Vec<String>>) -> Seq<Seq<Seq<char>>> {
    l.map_values(|p: Vec<String>| views(p@))
}

/// Whether the file name has one of the extensions.
pub fn has_listed_extension(name: &str, extensions: &[&str]) -> (r: bool)
    ensures
        r == is_listed(name@, ext_views(extensions@)),
{
    let ghost ev = ext_views(extensions@);
    match extension(name) {
        None => false,
        Some(e) => {
            let mut i: usize = 0;
            while i < extensions.len()
                invariant
                    i <= extensions@.len(),
                    ev == ext_views(extensions@),
                    e@ == extension_of(name@),
                    has_extension(name@),
                    forall|k: int| 0 <= k < i ==> ev[k] != e@,
                decreases extensions@.len() - i,
            {
                if str_eq(e.as_str(), extensions[i]) {
                    assert(ev[i as int] == extensions@[i as int]@);
                    assert(ev.contains(e@));
                    return true;
                }
                i = i + 1;
            }
            false
        },
    }
}

/// A copy of `dir` with `name` appended.
pub fn child_path(dir: &Vec<String>, name: &String) -> (r: Vec<String>)
    ensures
        views(r@) == views(dir@).push(name@),
{
    let mut r = copy_path(dir);
    r.push(name.clone());
    proof {
        assert(views(r@) =~= views(dir@).push(name@));
    }
    r
}

/// A copy of a path.
pub fn copy_path(dir: &Vec<String>) -> (r: Vec<String>)
    ensures
        views(r@) == views(dir@),
{
    let mut r: Vec<String> = Vec::new();
    let mut j: usize = 0;
    while j < dir.len()
        invariant
            j <= dir@.len(),
            views(r@) == views(dir@.subrange(0, j as int)),
        decreases dir@.len() - j,
    {
        r.push(dir[j].clone());
        proof {
            assert(views(dir@.subrange(0, j + 1)) =~= views(dir@.subrange(0, j as int)).push(
                dir@[j as int]@,
            ));
        }
        j = j + 1;
    }
    assert(dir@.subrange(0, dir@.len() as int) == dir@);
    r
}

/// Appends to `l` the full path of every file at or below the entries of
/// the directory at `dir` whose extension is one of `extensions`.
pub fn visit_dirs(dir: &Vec<String>, entries: &Vec<FsNode>, l: &mut Vec<Vec<String>>, extensions: &[&str])
    ensures
        paths_view(final(l)@) == paths_view(old(l)@) + listed_files(views(dir@), entries@, ext_views(extensions@)),
    decreases entries@,
{
    let ghost d = views(dir@);
    let ghost ev = ext_views(extensions@);
    let ghost l0 = paths_view(l@);
    let mut i: usize = 0;
    while i < entries.len()
        invariant
            i <= entries@.len(),
            d == views(dir@),
            ev == ext_views(extensions@),
            paths_view(l@) == l0 + listed_files(d, entries@.subrange(0, i as int), ev),
        decreases entries@.len() - i,
    {
        let ghost pre = listed_files(d, entries@.subrange(0, i as int), ev);
        let ghost node = entries@[i as int];
        let ghost l_before = paths_view(l@);
        proof {
            let sub = entries@.subrange(0, i + 1);
            assert(sub.subrange(0, i as int) == entries@.subrange(0, i as int));
            assert(sub[i as int] == node);
            assert(listed_files(d, sub, ev) == pre + node_files(d, node, ev));
        }
        match &entries[i] {
            FsNode::Dir { name, entries: children } => {
                proof {
                    assert(decreases_to!(entries@ => entries@[i as int]));
                    assert(node_files(d, node, ev) == listed_files(d.push(name@), children@, ev));
                }
                let child_dir = child_path(dir, name);
                visit_dirs(&child_dir, children, l, extensions);
            },
            FsNode::File { name } => {
                if has_listed_extension(name.as_str(), extensions) {
                    let p = child_path(dir, name);
                    l.push(p);
                    proof {
                        assert(node_files(d, node, ev) == seq![d.push(name@)]);
                        assert(paths_view(l@) =~= l_before + seq![d.push(name@)]);
                    }
                } else {
                    assert(node_files(d, node, ev) == Seq::<Seq<Seq<char>>>::empty());
                    assert(paths_view(l@) =~= l_before + Seq::<Seq<Seq<char>>>::empty());
                }
            },
        }
        assert(paths_view(l@) =~= l0 + listed_files(d, entries@.subrange(0, i + 1), ev));
        i = i + 1;
    }
    assert(entries@.subrange(0, entries@.len() as int) == entries@);
}

} // verus!
