//! Walks the routing tree: resolves each source file to its segment path and
//! writes the module tree that mirrors the directories.
use std::collections::VecDeque;
use vstd::multiset::Multiset;
use vstd::prelude::*;
use crate::fs_tree::{FsNode, path_views};
use crate::file_system::child_path;
use crate::text::{extension, extension_of, has_extension, stem, stem_of, str_eq, views};
use crate::error::BuildError;
use crate::dispatch::{build_error, construct_router_tree, dispatch_text, route_order};

verus! {

/// Name of the directory that roots the routing tree.
pub open spec fn routing_root() -> Seq<char> {
    "routing"@
}

/// The segment that a path component contributes.
pub open spec fn segment_of(component: Seq<char>, truncate: bool) -> Seq<char> {
    if truncate {
        stem_of(component)
    } else {
        component
    }
}

/// Segments of `path` below its nearest component named `routing`, or `None`
/// when no component carries that name.
pub open spec fn route_segments(path: Seq<Seq<char>>, truncate: bool) -> Option<Seq<Seq<char>>>
    decreases path.len(),
{
    if path.len() == 0 {
        None
    } else if path.last() == routing_root() {
        Some(Seq::empty())
    } else {
        match route_segments(path.drop_last(), truncate) {
            Some(r) => Some(r.push(segment_of(path.last(), truncate))),
            None => None,
        }
    }
}

/// Resolves a path, given as its components from the filesystem root, to
/// the segments below the routing root; `truncate` strips each extension.
pub fn resolve_relative_path(path: Vec<String>, truncate: bool) -> (r: Result<
    VecDeque<String>,
    BuildError,
>)
    ensures
        match route_segments(views(path@), truncate) {
            Some(segs) => r matches Ok(l) && views(l@) == segs,
            None => r == Err::<VecDeque<String>, BuildError>(BuildError::MissingRoot),
        },
{
    let ghost whole = views(path@);
    let mut l: VecDeque<String> = VecDeque::new();
    let mut rest = path;
    loop
        invariant
            whole == views(path@),
            match route_segments(whole, truncate) {
                Some(segs) => route_segments(views(rest@), truncate) matches Some(head) && segs
                    == head + views(l@),
                None => route_segments(views(rest@), truncate) is None,
            },
        decreases rest@.len(),
    {
        let ghost before = views(rest@);
        match rest.pop() {
            None => {
                assert(before.len() == 0);
                return Err(BuildError::MissingRoot);
            },
            Some(last) => {
                assert(views(rest@) == before.drop_last());
                assert(before.last() == last@);
                if str_eq(last.as_str(), "routing") {
                    proof {
                        assert(views(l@) == Seq::<Seq<char>>::empty() + views(l@));
                    }
                    return Ok(l);
                }
                let seg = if truncate {
                    stem(last.as_str())
                } else {
                    last
                };
                let ghost old_l = views(l@);
                l.push_front(seg);
                proof {
                    assert(views(l@) == seq![seg@] + old_l);
                    match route_segments(whole, truncate) {
                        Some(segs) => {
                            let head = route_segments(before, truncate)->0;
                            let h2 = route_segments(views(rest@), truncate)->0;
                            assert(head == h2.push(seg@));
                            assert(h2.push(seg@) + old_l == h2 + (seq![seg@] + old_l));
                        },
                        None => {},
                    }
                }
            },
        }
    }
}


/// One step of the module tree that the walker writes.
pub enum ImportToken {
    /// Opens the module of a directory.
    Open(Seq<char>),
    /// Closes the innermost open module.
    Close,
    /// Declares the module of a source file, given by its full path.
    Include(Seq<Seq<char>>),
}

/// A file that the walker turns into a module: a Rust source file.
pub open spec fn is_source(name: Seq<char>) -> bool {
    has_extension(name) && extension_of(name) == "rs"@
}

/// The tokens for the entries `es` of the directory at `dir`, in order.
pub open spec fn entries_tokens(dir: Seq<Seq<char>>, es: Seq<FsNode>) -> Seq<ImportToken>
    decreases es,
{
    if es.len() == 0 {
        Seq::empty()
    } else {
        entries_tokens(dir, es.subrange(0, es.len() - 1)) + node_tokens(dir, es[es.len() - 1])
    }
}

/// The tokens for one entry of the directory at `dir`.
pub open spec fn node_tokens(dir: Seq<Seq<char>>, n: FsNode) -> Seq<ImportToken>
    decreases n,
{
    match n {
        FsNode::Dir { name, entries } => seq![ImportToken::Open(name@)] + entries_tokens(
            dir.push(name@),
            entries@,
        ) + seq![ImportToken::Close],
        FsNode::File { name } => if is_source(name@) {
            seq![ImportToken::Include(dir.push(name@))]
        } else {
            Seq::empty()
        },
    }
}

/// The source text of one token.
pub open spec fn token_text(t: ImportToken) -> Seq<char> {
    match t {
        ImportToken::Open(name) => "pub mod "@ + name + " {"@,
        ImportToken::Close => "} "@,
        ImportToken::Include(path) => " pub mod "@ + stem_of(path.last()) + "; "@,
    }
}

/// The source text of a token sequence.
pub open spec fn render(ts: Seq<ImportToken>) -> Seq<char>
    decreases ts.len(),
{
    if ts.len() == 0 {
        Seq::empty()
    } else {
        render(ts.drop_last()) + token_text(ts.last())
    }
}

/// The paths of the declared source files, in order.
pub open spec fn included(ts: Seq<ImportToken>) -> Seq<Seq<Seq<char>>>
    decreases ts.len(),
{
    if ts.len() == 0 {
        Seq::empty()
    } else {
        match ts.last() {
            ImportToken::Include(p) => included(ts.drop_last()).push(p),
            _ => included(ts.drop_last()),
        }
    }
}

/// Every path of `ps` lies under the routing root.
pub open spec fn all_resolve(ps: Seq<Seq<Seq<char>>>) -> bool {
    forall|i: int| 0 <= i < ps.len() ==> (#[trigger] route_segments(ps[i], true)) is Some
}

/// The segment paths of `ps`, each resolved with extensions stripped.
pub open spec fn resolved(ps: Seq<Seq<Seq<char>>>) -> Seq<Seq<Seq<char>>> {
    ps.map_values(|p: Seq<Seq<char>>| route_segments(p, true)->0)
}

pub proof fn lemma_render_append(a: Seq<ImportToken>, b: Seq<ImportToken>)
    ensures
        render(a + b) == render(a) + render(b),
        included(a + b) == included(a) + included(b),
    decreases b.len(),
{
    if b.len() == 0 {
        assert(a + b == a);
    } else {
        lemma_render_append(a, b.drop_last());
        assert((a + b).drop_last() == a + b.drop_last());
    }
}

pub proof fn lemma_all_resolve_append(a: Seq<Seq<Seq<char>>>, b: Seq<Seq<Seq<char>>>)
    ensures
        all_resolve(a + b) == (all_resolve(a) && all_resolve(b)),
        resolved(a + b) == resolved(a) + resolved(b),
{
    if all_resolve(a) && all_resolve(b) {
        assert forall|i: int| 0 <= i < (a + b).len() implies (#[trigger] route_segments(
            (a + b)[i],
            true,
        )) is Some by {
            if i >= a.len() {
                assert((a + b)[i] == b[i - a.len()]);
            }
        }
    }
    if all_resolve(a + b) {
        assert forall|i: int| 0 <= i < a.len() implies (#[trigger] route_segments(a[i], true)) is Some by {
            assert((a + b)[i] == a[i]);
        }
        assert forall|i: int| 0 <= i < b.len() implies (#[trigger] route_segments(b[i], true)) is Some by {
            assert((a + b)[i + a.len()] == b[i]);
        }
    }
    assert(resolved(a + b) =~= resolved(a) + resolved(b));
}

pub proof fn lemma_entries_tokens_append(d: Seq<Seq<char>>, a: Seq<FsNode>, b: Seq<FsNode>)
    ensures
        entries_tokens(d, a + b) == entries_tokens(d, a) + entries_tokens(d, b),
    decreases b.len(),
{
    if b.len() == 0 {
        assert(a + b == a);
        assert(entries_tokens(d, b) =~= Seq::<ImportToken>::empty());
        assert(entries_tokens(d, a) + entries_tokens(d, b) =~= entries_tokens(d, a));
    } else {
        let bl = b.subrange(0, b.len() - 1);
        lemma_entries_tokens_append(d, a, bl);
        assert((a + b).subrange(0, (a + b).len() - 1) == a + bl);
        assert((a + b)[(a + b).len() - 1] == b[b.len() - 1]);
    }
}

/// Whether a file name is that of a Rust source file.
fn is_source_file(name: &str) -> (r: bool)
    ensures
        r == is_source(name@),
{
    match extension(name) {
        Some(e) => str_eq(e.as_str(), "rs"),
        None => false,
    }
}

/// Walks the entries of the directory at `dir`: writes into `s` a module for
/// each subdirectory and a module declaration for each Rust source file, and
/// appends to `l` the segment path of each source file, in the order met.
pub fn construct_import_tree(
    dir: &Vec<String>,
    entries: &Vec<FsNode>,
    s: &mut String,
    l: &mut Vec<VecDeque<String>>,
) -> (r: Result<(), BuildError>)
    ensures
        r is Ok <==> all_resolve(included(entries_tokens(views(dir@), entries@))),
        r is Err ==> r == Err::<(), BuildError>(BuildError::MissingRoot),
        r is Ok ==> final(s)@ == old(s)@ + render(entries_tokens(views(dir@), entries@)),
        r is Ok ==> path_views(final(l)@) == path_views(old(l)@) + resolved(
            included(entries_tokens(views(dir@), entries@)),
        ),
    decreases entries@,
{
    let ghost d = views(dir@);
    let ghost s0 = s@;
    let ghost l0 = path_views(l@);
    let ghost n = entries@.len();
    let mut i: usize = 0;
    while i < entries.len()
        invariant
            i <= entries@.len() == n,
            d == views(dir@),
            all_resolve(included(entries_tokens(d, entries@.subrange(0, i as int)))),
            s@ == s0 + render(entries_tokens(d, entries@.subrange(0, i as int))),
            path_views(l@) == l0 + resolved(
                included(entries_tokens(d, entries@.subrange(0, i as int))),
            ),
        decreases entries@.len() - i,
    {
        let ghost pre = entries_tokens(d, entries@.subrange(0, i as int));
        let ghost node = entries@[i as int];
        let ghost step = node_tokens(d, node);
        let ghost rest = entries_tokens(d, entries@.subrange(i + 1, n as int));
        proof {
            let sub = entries@.subrange(0, i + 1);
            assert(sub.subrange(0, i as int) == entries@.subrange(0, i as int));
            assert(sub[i as int] == node);
            assert(entries_tokens(d, sub) == pre + step);
            lemma_render_append(pre, step);
            lemma_all_resolve_append(included(pre), included(step));
            lemma_entries_tokens_append(d, sub, entries@.subrange(i + 1, n as int));
            assert(entries@ == sub + entries@.subrange(i + 1, n as int));
            lemma_render_append(pre + step, rest);
            lemma_all_resolve_append(included(pre + step), included(rest));
        }
        let ghost s_before = s@;
        let ghost l_before = path_views(l@);
        match &entries[i] {
            FsNode::Dir { name, entries: children } => {
                let ghost inner_ts = entries_tokens(d.push(name@), children@);
                let ghost open_t = seq![ImportToken::Open(name@)];
                let ghost close_t = seq![ImportToken::Close];
                proof {
                    assert(step == open_t + inner_ts + close_t);
                    lemma_render_append(open_t, inner_ts);
                    lemma_render_append(open_t + inner_ts, close_t);
                    assert(open_t.drop_last() =~= Seq::<ImportToken>::empty());
                    assert(close_t.drop_last() =~= Seq::<ImportToken>::empty());
                    assert(open_t.len() == 1 && open_t.last() == ImportToken::Open(name@));
                    assert(render(open_t) == render(open_t.drop_last()) + token_text(ImportToken::Open(name@)));
                    assert(render(open_t) =~= token_text(ImportToken::Open(name@)));
                    assert(render(close_t) =~= token_text(ImportToken::Close));
                    assert(included(open_t) == included(open_t.drop_last()));
                    assert(included(open_t) =~= Seq::<Seq<Seq<char>>>::empty());
                    assert(included(close_t) =~= Seq::<Seq<Seq<char>>>::empty());
                    assert(included(step) =~= included(inner_ts));
                    assert(decreases_to!(entries@ => entries@[i as int]));
                }
                s.append("pub mod ");
                s.append(name.as_str());
                s.append(" {");
                let child_dir = child_path(dir, name);
                let inner = construct_import_tree(&child_dir, children, s, l);
                match inner {
                    Ok(()) => {},
                    Err(e) => {
                        return Err(e);
                    },
                }
                s.append("} ");
                proof {
                    assert(s@ =~= s_before + render(step));
                    assert(path_views(l@) =~= l_before + resolved(included(step)));
                }
            },
            FsNode::File { name } => {
                if is_source_file(name.as_str()) {
                    let ghost full = d.push(name@);
                    proof {
                        let one = seq![ImportToken::Include(full)];
                        assert(step == one);
                        assert(one.drop_last() =~= Seq::<ImportToken>::empty());
                        assert(one.len() == 1 && one.last() == ImportToken::Include(full));
                        assert(render(one) == render(one.drop_last()) + token_text(ImportToken::Include(full)));
                        assert(render(step) =~= token_text(ImportToken::Include(full)));
                        assert(included(one) == included(one.drop_last()).push(full));
                        assert(included(step) =~= seq![full]);
                    }
                    s.append(" pub mod ");
                    let st = stem(name.as_str());
                    s.append(st.as_str());
                    s.append("; ");
                    let path = child_path(dir, name);
                    match resolve_relative_path(path, true) {
                        Ok(segs) => {
                            l.push(segs);
                            proof {
                                assert(!all_resolve(seq![full]) ==> route_segments(seq![full][0], true) is None);
                                assert(s@ =~= s_before + render(step));
                                assert(path_views(l@) =~= l_before + resolved(included(step)));
                            }
                        },
                        Err(e) => {
                            proof {
                                assert(!all_resolve(included(step)));
                            }
                            return Err(e);
                        },
                    }
                } else {
                    proof {
                        assert(step =~= Seq::<ImportToken>::empty());
                        assert(render(step) =~= Seq::<char>::empty());
                        assert(included(step) =~= Seq::<Seq<Seq<char>>>::empty());
                        assert(s@ =~= s_before + render(step));
                        assert(path_views(l@) =~= l_before + resolved(included(step)));
                    }
                }
            },
        }
        proof {
            assert(entries@.subrange(0, i + 1).subrange(0, i as int) == entries@.subrange(0, i as int));
            assert(s@ =~= s0 + render(entries_tokens(d, entries@.subrange(0, i + 1))));
            assert(path_views(l@) =~= l0 + resolved(included(entries_tokens(d, entries@.subrange(0, i + 1)))));
        }
        i = i + 1;
    }
    assert(entries@.subrange(0, n as int) == entries@);
    Ok(())
}


/// The modules left open after one token, starting from the open modules `st`.
pub open spec fn step_modules(st: Seq<Seq<char>>, t: ImportToken) -> Seq<Seq<char>> {
    match t {
        ImportToken::Open(name) => st.push(name),
        ImportToken::Close => st.drop_last(),
        ImportToken::Include(_) => st,
    }
}

/// The modules left open after a token sequence, starting from `st`.
pub open spec fn run_modules(st: Seq<Seq<char>>, ts: Seq<ImportToken>) -> Seq<Seq<char>>
    decreases ts.len(),
{
    if ts.len() == 0 {
        st
    } else {
        step_modules(run_modules(st, ts.drop_last()), ts.last())
    }
}

/// The names of the modules open after `ts`, outermost first.
pub open spec fn open_modules(ts: Seq<ImportToken>) -> Seq<Seq<char>> {
    run_modules(Seq::empty(), ts)
}

proof fn lemma_run_append(st: Seq<Seq<char>>, a: Seq<ImportToken>, b: Seq<ImportToken>)
    ensures
        run_modules(st, a + b) == run_modules(run_modules(st, a), b),
    decreases b.len(),
{
    if b.len() == 0 {
        assert(a + b == a);
    } else {
        lemma_run_append(st, a, b.drop_last());
        assert((a + b).drop_last() == a + b.drop_last());
    }
}

/// What the depth law states of the tokens `ts` written for the directory
/// at `dir`, with the modules `st` open, those of `dir` below its first
/// `b` components.
pub open spec fn nests_by_directory(ts: Seq<ImportToken>, dir: Seq<Seq<char>>, st: Seq<Seq<char>>, b: int) -> bool {
    &&& run_modules(st, ts) == st
    &&& forall|k: int|
        0 <= k < ts.len() && (#[trigger] ts[k]) is Include ==> {
            let p = ts[k]->Include_0;
            &&& p.len() > dir.len()
            &&& p.subrange(0, dir.len() as int) == dir
            &&& run_modules(st, ts.subrange(0, k)) == p.subrange(b, p.len() - 1)
        }
}

proof fn lemma_entries_nest(dir: Seq<Seq<char>>, es: Seq<FsNode>, st: Seq<Seq<char>>, b: int)
    requires
        0 <= b <= dir.len(),
        st == dir.subrange(b, dir.len() as int),
    ensures
        nests_by_directory(entries_tokens(dir, es), dir, st, b),
    decreases es,
{
    if es.len() > 0 {
        let front = es.subrange(0, es.len() - 1);
        let t1 = entries_tokens(dir, front);
        let t2 = node_tokens(dir, es[es.len() - 1]);
        let ts = entries_tokens(dir, es);
        lemma_entries_nest(dir, front, st, b);
        lemma_node_nest(dir, es[es.len() - 1], st, b);
        assert(ts == t1 + t2);
        lemma_run_append(st, t1, t2);
        assert forall|k: int| 0 <= k < ts.len() && (#[trigger] ts[k]) is Include implies {
            let p = ts[k]->Include_0;
            &&& p.len() > dir.len()
            &&& p.subrange(0, dir.len() as int) == dir
            &&& run_modules(st, ts.subrange(0, k)) == p.subrange(b, p.len() - 1)
        } by {
            if k < t1.len() {
                assert(ts[k] == t1[k]);
                assert(ts.subrange(0, k) == t1.subrange(0, k));
            } else {
                let k2 = k - t1.len();
                assert(ts[k] == t2[k2]);
                assert(ts.subrange(0, k) == t1 + t2.subrange(0, k2));
                lemma_run_append(st, t1, t2.subrange(0, k2));
            }
        }
    }
}

proof fn lemma_node_nest(dir: Seq<Seq<char>>, n: FsNode, st: Seq<Seq<char>>, b: int)
    requires
        0 <= b <= dir.len(),
        st == dir.subrange(b, dir.len() as int),
    ensures
        nests_by_directory(node_tokens(dir, n), dir, st, b),
    decreases n,
{
    let ts = node_tokens(dir, n);
    match n {
        FsNode::Dir { name, entries } => {
            let inner_dir = dir.push(name@);
            let inner_st = st.push(name@);
            assert(inner_st == inner_dir.subrange(b, inner_dir.len() as int));
            assert(decreases_to!(n => entries));
            lemma_entries_nest(inner_dir, entries@, inner_st, b);
            let open_t = seq![ImportToken::Open(name@)];
            let close_t = seq![ImportToken::Close];
            let inner = entries_tokens(inner_dir, entries@);
            assert(ts == open_t + inner + close_t);
            assert(open_t.drop_last() =~= Seq::<ImportToken>::empty());
            assert(open_t.last() == ImportToken::Open(name@));
            assert(run_modules(st, open_t.drop_last()) == st);
            assert(run_modules(st, open_t) == inner_st);
            lemma_run_append(st, open_t, inner);
            lemma_run_append(st, open_t + inner, close_t);
            assert(close_t.drop_last() =~= Seq::<ImportToken>::empty());
            assert(close_t.last() == ImportToken::Close);
            assert(run_modules(inner_st, close_t.drop_last()) == inner_st);
            assert(inner_st.drop_last() =~= st);
            assert(run_modules(inner_st, close_t) == st);
            assert(run_modules(inner_st, inner) == inner_st);
            assert(run_modules(st, open_t + inner) == inner_st);
            assert(run_modules(st, ts) == st);
            assert forall|k: int| 0 <= k < ts.len() && (#[trigger] ts[k]) is Include implies {
                let p = ts[k]->Include_0;
                &&& p.len() > dir.len()
                &&& p.subrange(0, dir.len() as int) == dir
                &&& run_modules(st, ts.subrange(0, k)) == p.subrange(b, p.len() - 1)
            } by {
                let k2 = k - 1;
                assert(k != 0 && k != ts.len() - 1);
                assert(ts[k] == inner[k2]);
                let p = ts[k]->Include_0;
                assert(p.subrange(0, dir.len() as int) == p.subrange(0, inner_dir.len() as int).subrange(0, dir.len() as int));
                assert(ts.subrange(0, k) == open_t + inner.subrange(0, k2));
                lemma_run_append(st, open_t, inner.subrange(0, k2));
                assert(run_modules(st, ts.subrange(0, k)) == run_modules(inner_st, inner.subrange(0, k2)));
                assert(inner[k2] is Include);
                assert(run_modules(inner_st, inner.subrange(0, k2)) == p.subrange(b, p.len() - 1));
            }
            assert(nests_by_directory(ts, dir, st, b));
        },
        FsNode::File { name } => {
            if is_source(name@) {
                let p = dir.push(name@);
                assert(ts == seq![ImportToken::Include(p)]);
                assert(ts.drop_last() =~= Seq::<ImportToken>::empty());
                assert(ts.subrange(0, 0) =~= Seq::<ImportToken>::empty());
                assert(p.subrange(0, dir.len() as int) == dir);
                assert(p.subrange(b, p.len() - 1) == st);
                assert(ts[0] is Include);
                assert(run_modules(st, ts.subrange(0, 0)) == st);
            } else {
                assert(ts =~= Seq::<ImportToken>::empty());
            }
            assert(nests_by_directory(ts, dir, st, b));
        },
    }
}

/// Module nesting follows the directories: the module tree closes every
/// module it opens, and where it declares the module of a source file, the
/// modules open around the declaration are the directories between the
/// root and the file, one per level of the file's depth.
pub proof fn lemma_namespace_depth(root: Seq<Seq<char>>, es: Seq<FsNode>)
    ensures
        open_modules(entries_tokens(root, es)) == Seq::<Seq<char>>::empty(),
        forall|k: int|
            0 <= k < entries_tokens(root, es).len() && (#[trigger] entries_tokens(root, es)[k]) is Include
                ==> {
                let p = entries_tokens(root, es)[k]->Include_0;
                let around = open_modules(entries_tokens(root, es).subrange(0, k));
                &&& p.len() > root.len()
                &&& p.subrange(0, root.len() as int) == root
                &&& around == p.subrange(root.len() as int, p.len() - 1)
                &&& around.len() == p.len() - root.len() - 1
            },
{
    assert(root.subrange(root.len() as int, root.len() as int) =~= Seq::<Seq<char>>::empty());
    lemma_entries_nest(root, es, Seq::empty(), root.len() as int);
}


/// The segment paths of the source files under the directory at `root`.
pub open spec fn leaf_paths(root: Seq<Seq<char>>, entries: Seq<FsNode>) -> Seq<Seq<Seq<char>>> {
    resolved(included(entries_tokens(root, entries)))
}

/// The error that compiling the tree stops on, if any.
pub open spec fn system_error(root: Seq<Seq<char>>, entries: Seq<FsNode>) -> Option<BuildError> {
    if !all_resolve(included(entries_tokens(root, entries))) {
        Some(BuildError::MissingRoot)
    } else {
        build_error(leaf_paths(root, entries))
    }
}

/// The generated source: the module tree inside `mod routing`, then the
/// router function.
pub open spec fn system_text(root: Seq<Seq<char>>, entries: Seq<FsNode>) -> Seq<char> {
    let lv = leaf_paths(root, entries);
    "mod routing { "@ + render(entries_tokens(root, entries)) + "}"@ + "\n"@ + dispatch_text(
        lv,
        route_order(lv),
    )
}

/// Compiles the routing tree whose root directory is at `root` and holds
/// `entries` into the module tree and the router function.
pub fn construct_routing_system(root: &Vec<String>, entries: &Vec<FsNode>) -> (r: Result<String, BuildError>)
    ensures
        match system_error(views(root@), entries@) {
            Some(e) => r == Err::<String, BuildError>(e),
            None => r matches Ok(t) && t@ == system_text(views(root@), entries@),
        },
{
    let mut ts = String::from_str("mod routing { ");
    let mut l: Vec<VecDeque<String>> = Vec::new();
    match construct_import_tree(root, entries, &mut ts, &mut l) {
        Ok(()) => {},
        Err(e) => {
            return Err(e);
        },
    }
    assert(path_views(l@) =~= leaf_paths(views(root@), entries@));
    ts.append("}");
    ts.append("\n");
    let router = match construct_router_tree(&l) {
        Ok(t) => t,
        Err(e) => {
            return Err(e);
        },
    };
    ts.append(router.as_str());
    Ok(ts)
}


/// Reordering the entries of a directory changes only the order in which
/// the source files below it are found: the same paths, and the same
/// segment paths, come out, each as often as before.
pub proof fn lemma_enumeration_order(dir: Seq<Seq<char>>, es1: Seq<FsNode>, es2: Seq<FsNode>)
    requires
        es1.to_multiset() == es2.to_multiset(),
    ensures
        included(entries_tokens(dir, es1)).to_multiset() == included(entries_tokens(dir, es2)).to_multiset(),
        resolved(included(entries_tokens(dir, es1))).to_multiset() == resolved(
            included(entries_tokens(dir, es2)),
        ).to_multiset(),
    decreases es1.len(),
{
    broadcast use vstd::seq_lib::group_to_multiset_ensures, vstd::seq_lib::lemma_multiset_commutative;
    if es1.len() == 0 {
        vstd::seq_lib::to_multiset_len(es1);
        vstd::seq_lib::to_multiset_len(es2);
        assert(es2.len() == 0);
        assert(es2 =~= es1);
    } else {
        let x = es1.last();
        let rest1 = es1.drop_last();
        assert(es1 == rest1.push(x));
        assert(es2.to_multiset().count(x) > 0);
        assert(es2.contains(x));
        let j = choose|j: int| 0 <= j < es2.len() && es2[j] == x;
        let a = es2.subrange(0, j);
        let b = es2.subrange(j + 1, es2.len() as int);
        let rest2 = es2.remove(j);
        assert(rest2 =~= a + b);
        assert(es2 =~= a + seq![x] + b);
        assert(rest1.to_multiset() =~= es1.to_multiset().remove(x));
        assert(rest2.to_multiset() =~= es2.to_multiset().remove(x));
        lemma_enumeration_order(dir, rest1, rest2);
        let tx = node_tokens(dir, x);
        assert(rest1.subrange(0, rest1.len() as int) == rest1);
        assert(es1.subrange(0, es1.len() - 1) == rest1);
        assert(entries_tokens(dir, es1) == entries_tokens(dir, rest1) + tx);
        lemma_render_append(entries_tokens(dir, rest1), tx);
        assert(seq![x].subrange(0, 0) =~= Seq::<FsNode>::empty());
        assert(entries_tokens(dir, seq![x]) == entries_tokens(dir, Seq::<FsNode>::empty()) + tx);
        assert(entries_tokens(dir, seq![x]) =~= tx);
        lemma_entries_tokens_append(dir, a, seq![x]);
        lemma_entries_tokens_append(dir, a + seq![x], b);
        lemma_entries_tokens_append(dir, a, b);
        let ta = entries_tokens(dir, a);
        let tb = entries_tokens(dir, b);
        lemma_render_append(ta, tx);
        lemma_render_append(ta + tx, tb);
        lemma_render_append(ta, tb);
        let ia = included(ta);
        let ib = included(tb);
        let ix = included(tx);
        assert(included(entries_tokens(dir, es2)) == ia + ix + ib);
        assert(included(entries_tokens(dir, rest2)) == ia + ib);
        assert((ia + ix + ib).to_multiset() =~= ia.to_multiset().add(ix.to_multiset()).add(ib.to_multiset()));
        assert((ia + ib).to_multiset() =~= ia.to_multiset().add(ib.to_multiset()));
        lemma_all_resolve_append(ia, ix);
        lemma_all_resolve_append(ia + ix, ib);
        lemma_all_resolve_append(ia, ib);
        lemma_all_resolve_append(included(entries_tokens(dir, rest1)), ix);
        let (ra, rb, rx) = (resolved(ia), resolved(ib), resolved(ix));
        assert((ra + rx + rb).to_multiset() =~= ra.to_multiset().add(rx.to_multiset()).add(rb.to_multiset()));
        assert((ra + rb).to_multiset() =~= ra.to_multiset().add(rb.to_multiset()));
    }
}

/// Compiling the same tree twice gives the same text and the same error:
/// the result depends on the tree alone.
pub proof fn lemma_walk_deterministic(root: Seq<Seq<char>>, entries: Seq<FsNode>, again: Seq<FsNode>)
    requires
        again == entries,
    ensures
        system_error(root, again) == system_error(root, entries),
        system_text(root, again) == system_text(root, entries),
        leaf_paths(root, again) == leaf_paths(root, entries),
{
}


/// `b` lists the entries of `a` in another order, at any depth: the
/// entries of `a`, each reordered within, make up `b` in some order.
pub open spec fn reordered(a: Seq<FsNode>, b: Seq<FsNode>) -> bool
    decreases a,
{
    exists|m: Seq<FsNode>|
        #![trigger m.to_multiset()]
        m.len() == a.len() && m.to_multiset() == b.to_multiset() && forall|i: int|
            0 <= i < a.len() ==> node_reordered(#[trigger] a[i], m[i])
}

/// `y` is the entry `x` with the entries of its directories, at any depth,
/// in another order.
pub open spec fn node_reordered(x: FsNode, y: FsNode) -> bool
    decreases x,
{
    match x {
        FsNode::File { name } => y matches FsNode::File { name: n2 } && n2@ == name@,
        FsNode::Dir { name, entries } => match y {
            FsNode::Dir { name: n2, entries: e2 } => n2@ == name@ && reordered(entries@, e2@),
            FsNode::File { .. } => false,
        },
    }
}

/// The source files found below `es`, and their segment paths, each with
/// how often it is found.
pub open spec fn found(dir: Seq<Seq<char>>, es: Seq<FsNode>) -> (Multiset<Seq<Seq<char>>>, Multiset<Seq<Seq<char>>>) {
    (included(entries_tokens(dir, es)).to_multiset(), resolved(included(entries_tokens(dir, es))).to_multiset())
}

/// What one entry contributes to `found`.
pub open spec fn node_found(dir: Seq<Seq<char>>, n: FsNode) -> (Multiset<Seq<Seq<char>>>, Multiset<Seq<Seq<char>>>) {
    (included(node_tokens(dir, n)).to_multiset(), resolved(included(node_tokens(dir, n))).to_multiset())
}

proof fn lemma_found_push(dir: Seq<Seq<char>>, es: Seq<FsNode>)
    requires
        es.len() > 0,
    ensures
        found(dir, es) == (found(dir, es.drop_last()).0.add(node_found(dir, es.last()).0), found(
            dir,
            es.drop_last(),
        ).1.add(node_found(dir, es.last()).1)),
{
    broadcast use vstd::seq_lib::lemma_multiset_commutative;
    let front = es.drop_last();
    assert(es.subrange(0, es.len() - 1) == front);
    let t1 = entries_tokens(dir, front);
    let t2 = node_tokens(dir, es.last());
    assert(entries_tokens(dir, es) == t1 + t2);
    lemma_render_append(t1, t2);
    lemma_all_resolve_append(included(t1), included(t2));
}

proof fn lemma_found_pointwise(dir: Seq<Seq<char>>, a: Seq<FsNode>, m: Seq<FsNode>)
    requires
        a.len() == m.len(),
        forall|i: int| 0 <= i < a.len() ==> node_found(dir, #[trigger] a[i]) == node_found(dir, m[i]),
    ensures
        found(dir, a) == found(dir, m),
    decreases a.len(),
{
    if a.len() == 0 {
        assert(a =~= m);
    } else {
        lemma_found_pointwise(dir, a.drop_last(), m.drop_last());
        lemma_found_push(dir, a);
        lemma_found_push(dir, m);
        assert(a.last() == a[a.len() - 1]);
    }
}

proof fn lemma_node_reordered(dir: Seq<Seq<char>>, x: FsNode, y: FsNode)
    requires
        node_reordered(x, y),
    ensures
        node_found(dir, x) == node_found(dir, y),
    decreases x,
{
    match x {
        FsNode::File { name } => {
            assert(node_tokens(dir, x) == node_tokens(dir, y));
        },
        FsNode::Dir { name, entries } => {
            let e2 = y->Dir_entries;
            assert(decreases_to!(x => entries));
            lemma_reordered_found(dir.push(name@), entries@, e2@);
            let open_t = seq![ImportToken::Open(name@)];
            let close_t = seq![ImportToken::Close];
            assert(open_t.drop_last() =~= Seq::<ImportToken>::empty());
            assert(close_t.drop_last() =~= Seq::<ImportToken>::empty());
            assert(open_t.last() == ImportToken::Open(name@));
            assert(included(open_t) == included(open_t.drop_last()));
            assert(included(open_t) =~= Seq::<Seq<Seq<char>>>::empty());
            assert(close_t.last() == ImportToken::Close);
            assert(included(close_t) == included(close_t.drop_last()));
            assert(included(close_t) =~= Seq::<Seq<Seq<char>>>::empty());
            let t1 = entries_tokens(dir.push(name@), entries@);
            let t2 = entries_tokens(dir.push(name@), e2@);
            let open_y = seq![ImportToken::Open(y->Dir_name@)];
            assert(open_y =~= open_t);
            lemma_render_append(open_t, t1);
            lemma_render_append(open_t + t1, close_t);
            lemma_render_append(open_t, t2);
            lemma_render_append(open_t + t2, close_t);
            assert(included(node_tokens(dir, x)) =~= included(t1));
            assert(included(node_tokens(dir, y)) =~= included(t2));
        },
    }
}

proof fn lemma_reordered_found(dir: Seq<Seq<char>>, a: Seq<FsNode>, b: Seq<FsNode>)
    requires
        reordered(a, b),
    ensures
        found(dir, a) == found(dir, b),
    decreases a,
{
    let m = choose|m: Seq<FsNode>|
        #![trigger m.to_multiset()]
        m.len() == a.len() && m.to_multiset() == b.to_multiset() && forall|i: int|
            0 <= i < a.len() ==> node_reordered(#[trigger] a[i], m[i]);
    assert forall|i: int| 0 <= i < a.len() implies node_found(dir, #[trigger] a[i]) == node_found(dir, m[i]) by {
        assert(decreases_to!(a => a[i]));
        lemma_node_reordered(dir, a[i], m[i]);
    }
    lemma_found_pointwise(dir, a, m);
    lemma_enumeration_order(dir, m, b);
}

/// The enumeration order of the directories decides only the order of what
/// the walker finds: over entries listed in another order at any depth, it
/// finds the same source files and the same segment paths, each as often
/// as before.
pub proof fn lemma_walk_order_independent(dir: Seq<Seq<char>>, a: Seq<FsNode>, b: Seq<FsNode>)
    requires
        reordered(a, b),
    ensures
        included(entries_tokens(dir, a)).to_multiset() == included(entries_tokens(dir, b)).to_multiset(),
        leaf_paths(dir, a).to_multiset() == leaf_paths(dir, b).to_multiset(),
{
    lemma_reordered_found(dir, a, b);
}

} // verus!
