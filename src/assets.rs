//! Names under which the asset files of a build are served: dotted
//! template names and flat static names.
use std::collections::VecDeque;
use vstd::prelude::*;
use crate::error::BuildError;
use crate::file_system::{
    asset_segments, child_path, copy_path, ext_views, is_listed, listed_files, paths_view,
    resolve_relative_path, visit_dirs,
};
use crate::fs_tree::FsNode;
use crate::text::{join_spec, join_wrapped, last_of, stem, stem_of, views, wrapped};

verus! {

/// The extensions of the files that the asset map holds.
pub open spec fn asset_extensions() -> Seq<Seq<char>> {
    seq!["hbs"@, "css"@, "ts"@]
}

/// The extensions of the files served under a flat static name.
pub open spec fn static_extensions() -> Seq<Seq<char>> {
    seq!["css"@, "js"@]
}

/// The extension of template files.
pub open spec fn template_extensions() -> Seq<Seq<char>> {
    seq!["hbs"@]
}

/// Each listed path that resolves, with its segments from the root on.
pub open spec fn asset_map(ps: Seq<Seq<Seq<char>>>) -> Seq<(Seq<Seq<char>>, Seq<Seq<char>>)>
    decreases ps.len(),
{
    if ps.len() == 0 {
        Seq::empty()
    } else {
        match asset_segments(ps.last(), false) {
            Some(segs) => asset_map(ps.drop_last()).push((segs, ps.last())),
            None => asset_map(ps.drop_last()),
        }
    }
}

/// The segments and the path of each entry of an asset map.
pub open spec fn map_view(fm: Seq<(VecDeque<String>, Vec<String>)>) -> Seq<(Seq<Seq<char>>, Seq<Seq<char>>)> {
    fm.map_values(|e: (VecDeque<String>, Vec<String>)| (views(e.0@), views(e.1@)))
}

/// Lists the templates, stylesheets and scripts under `root/routing`
/// (whose entries are `routing`) and `root/static` (whose entries are
/// `statics`), each with its segments from `routing` or `static` on.
pub fn map_routing_tree(root: &Vec<String>, routing: &Vec<FsNode>, statics: &Vec<FsNode>) -> (r: Vec<(VecDeque<String>, Vec<String>)>)
    ensures
        map_view(r@) == asset_map(
            listed_files(views(root@).push("routing"@), routing@, asset_extensions())
                + listed_files(views(root@).push("static"@), statics@, asset_extensions()),
        ),
{
    let exts: Vec<&str> = vec!["hbs", "css", "ts"];
    assert(ext_views(exts@) =~= asset_extensions());
    let mut l: Vec<Vec<String>> = Vec::new();
    let routing_dir = child_path(root, &String::from_str("routing"));
    visit_dirs(&routing_dir, routing, &mut l, exts.as_slice());
    let static_dir = child_path(root, &String::from_str("static"));
    visit_dirs(&static_dir, statics, &mut l, exts.as_slice());
    let ghost ps = paths_view(l@);
    assert(ps =~= listed_files(views(root@).push("routing"@), routing@, asset_extensions())
        + listed_files(views(root@).push("static"@), statics@, asset_extensions()));
    let mut out: Vec<(VecDeque<String>, Vec<String>)> = Vec::new();
    let mut i: usize = 0;
    while i < l.len()
        invariant
            i <= l@.len(),
            ps == paths_view(l@),
            map_view(out@) == asset_map(ps.subrange(0, i as int)),
        decreases l@.len() - i,
    {
        assert(ps.subrange(0, i + 1).drop_last() == ps.subrange(0, i as int));
        assert(ps.subrange(0, i + 1).last() == views(l@[i as int]@));
        let path = copy_path(&l[i]);
        match resolve_relative_path(copy_path(&l[i]), false) {
            Ok(segs) => {
                out.push((segs, path));
                assert(map_view(out@) =~= asset_map(ps.subrange(0, i + 1)));
            },
            Err(_) => {
                assert(map_view(out@) =~= asset_map(ps.subrange(0, i + 1)));
            },
        }
        i = i + 1;
    }
    assert(ps.subrange(0, ps.len() as int) == ps);
    out
}

/// The flat name of a stylesheet or script: its segments joined by `::`.
pub open spec fn flat_name(segs: Seq<Seq<char>>) -> Option<Seq<char>> {
    if segs.len() > 0 && is_listed(segs.last(), static_extensions()) {
        Some(join_spec(segs, "::"@))
    } else {
        None
    }
}

/// The flat name of each stylesheet and script of the map, with its
/// position in the map.
pub open spec fn static_entries(mv: Seq<(Seq<Seq<char>>, Seq<Seq<char>>)>) -> Seq<(Seq<char>, int)>
    decreases mv.len(),
{
    if mv.len() == 0 {
        Seq::empty()
    } else {
        match flat_name(mv.last().0) {
            Some(n) => static_entries(mv.drop_last()).push((n, mv.len() - 1)),
            None => static_entries(mv.drop_last()),
        }
    }
}

/// No two entries carry the same name.
pub open spec fn names_distinct(es: Seq<(Seq<char>, int)>) -> bool {
    forall|a: int, b: int| 0 <= a < b < es.len() ==> es[a].0 != es[b].0
}

/// The name and position of each entry.
pub open spec fn named_view(v: Seq<(String, usize)>) -> Seq<(Seq<char>, int)> {
    v.map_values(|e: (String, usize)| (e.0@, e.1 as int))
}

/// The flat name of a stylesheet or script, from its segments.
pub fn static_name(segs: &VecDeque<String>) -> (r: Option<String>)
    ensures
        match flat_name(views(segs@)) {
            Some(n) => r matches Some(s) && s@ == n,
            None => r is None,
        },
{
    let n = segs.len();
    if n == 0 {
        return None;
    }
    let exts: Vec<&str> = vec!["css", "js"];
    assert(ext_views(exts@) =~= static_extensions());
    if !crate::file_system::has_listed_extension(segs[n - 1].as_str(), exts.as_slice()) {
        return None;
    }
    proof {
        reveal_strlit("");
        assert(wrapped(views(segs@), ""@, ""@) =~= views(segs@));
    }
    Some(join_wrapped(segs, "", "", "::"))
}

/// The flat names under which the stylesheets and scripts of the map are
/// served, each with its position in the map; two files that would share
/// a name stop the build.
pub fn link_static_files(file_map: &Vec<(VecDeque<String>, Vec<String>)>) -> (r: Result<Vec<(String, usize)>, BuildError>)
    ensures
        names_distinct(static_entries(map_view(file_map@))) ==> (r matches Ok(v) && named_view(v@)
            == static_entries(map_view(file_map@))),
        !names_distinct(static_entries(map_view(file_map@))) ==> r == Err::<Vec<(String, usize)>, BuildError>(
            BuildError::NameCollision,
        ),
{
    let ghost mv = map_view(file_map@);
    let mut out: Vec<(String, usize)> = Vec::new();
    let mut i: usize = 0;
    while i < file_map.len()
        invariant
            i <= file_map@.len(),
            mv == map_view(file_map@),
            named_view(out@) == static_entries(mv.subrange(0, i as int)),
        decreases file_map@.len() - i,
    {
        assert(mv.subrange(0, i + 1).drop_last() == mv.subrange(0, i as int));
        assert(mv.subrange(0, i + 1).last().0 == views(file_map@[i as int].0@));
        match static_name(&file_map[i].0) {
            Some(name) => {
                out.push((name, i));
                assert(named_view(out@) =~= static_entries(mv.subrange(0, i + 1)));
            },
            None => {},
        }
        i = i + 1;
    }
    assert(mv.subrange(0, mv.len() as int) == mv);
    let ghost se = static_entries(mv);
    let m = out.len();
    let mut a: usize = 0;
    while a < m
        invariant
            m == out@.len() == se.len(),
            se == named_view(out@),
            se == static_entries(mv),
            mv == map_view(file_map@),
            a <= m,
            forall|x: int, y: int| 0 <= x < a && x < y < m ==> se[x].0 != se[y].0,
        decreases m - a,
    {
        let mut b: usize = a + 1;
        while b < m
            invariant
                m == out@.len() == se.len(),
                se == named_view(out@),
                se == static_entries(mv),
                mv == map_view(file_map@),
                a < b <= m,
                forall|x: int, y: int| 0 <= x < a && x < y < m ==> se[x].0 != se[y].0,
                forall|y: int| a < y < b ==> se[a as int].0 != se[y].0,
            decreases m - b,
        {
            if out[a].0 == out[b].0 {
                assert(se[a as int].0 == se[b as int].0);
                return Err(BuildError::NameCollision);
            }
            b = b + 1;
        }
        a = a + 1;
    }
    Ok(out)
}

/// The template name of a template file: its segments, the last without
/// its extension, joined by `::`.
pub open spec fn template_name(segs: Seq<Seq<char>>) -> Option<Seq<char>> {
    if segs.len() > 0 && is_listed(segs.last(), template_extensions()) {
        Some(join_spec(segs.drop_last().push(stem_of(segs.last())), "::"@))
    } else {
        None
    }
}

/// The template name of each template file of the map, with its position.
pub open spec fn template_entries(mv: Seq<(Seq<Seq<char>>, Seq<Seq<char>>)>) -> Seq<(Seq<char>, int)>
    decreases mv.len(),
{
    if mv.len() == 0 {
        Seq::empty()
    } else {
        match template_name(mv.last().0) {
            Some(n) => template_entries(mv.drop_last()).push((n, mv.len() - 1)),
            None => template_entries(mv.drop_last()),
        }
    }
}

/// The names under which the template files of the map are registered,
/// each with its position in the map.
pub fn template_names(file_map: &Vec<(VecDeque<String>, Vec<String>)>) -> (r: Vec<(String, usize)>)
    ensures
        named_view(r@) == template_entries(map_view(file_map@)),
{
    let ghost mv = map_view(file_map@);
    let exts: Vec<&str> = vec!["hbs"];
    assert(ext_views(exts@) =~= template_extensions());
    let mut out: Vec<(String, usize)> = Vec::new();
    let mut i: usize = 0;
    while i < file_map.len()
        invariant
            i <= file_map@.len(),
            mv == map_view(file_map@),
            ext_views(exts@) == template_extensions(),
            named_view(out@) == template_entries(mv.subrange(0, i as int)),
        decreases file_map@.len() - i,
    {
        assert(mv.subrange(0, i + 1).drop_last() == mv.subrange(0, i as int));
        let segs = &file_map[i].0;
        let ghost sv = views(segs@);
        assert(mv.subrange(0, i + 1).last().0 == sv);
        let n = segs.len();
        if n > 0 && crate::file_system::has_listed_extension(segs[n - 1].as_str(), exts.as_slice()) {
            let mut parts: Vec<String> = Vec::new();
            let mut k: usize = 0;
            while k < n - 1
                invariant
                    0 < n == segs@.len(),
                    sv == views(segs@),
                    k <= n - 1,
                    views(parts@) == sv.subrange(0, k as int),
                decreases n - 1 - k,
            {
                let ghost before = views(parts@);
                let c = segs[k].clone();
                assert(c@ == sv[k as int]);
                parts.push(c);
                assert(views(parts@) =~= before.push(sv[k as int]));
                assert(views(parts@) =~= sv.subrange(0, k + 1));
                k = k + 1;
            }
            parts.push(stem(segs[n - 1].as_str()));
            assert(views(parts@) =~= sv.drop_last().push(stem_of(sv.last())));
            let name = crate::text::join(&parts, "::");
            out.push((name, i));
            assert(named_view(out@) =~= template_entries(mv.subrange(0, i + 1)));
        }
        i = i + 1;
    }
    assert(mv.subrange(0, mv.len() as int) == mv);
    out
}

/// The segments of the script that a TypeScript file compiles to: the
/// same, with the last one's extension replaced by `js`.
pub open spec fn compiled_script(segs: Seq<Seq<char>>) -> Option<Seq<Seq<char>>> {
    if segs.len() > 0 && is_listed(segs.last(), seq!["ts"@]) {
        Some(segs.drop_last().push(stem_of(segs.last()) + ".js"@))
    } else {
        None
    }
}

/// The segments of the script compiled from a TypeScript file, or `None`
/// when the file is none.
pub fn compiled_script_segments(segs: &VecDeque<String>) -> (r: Option<VecDeque<String>>)
    ensures
        match compiled_script(views(segs@)) {
            Some(c) => r matches Some(v) && views(v@) == c,
            None => r is None,
        },
{
    let n = segs.len();
    if n == 0 {
        return None;
    }
    let exts: Vec<&str> = vec!["ts"];
    assert(ext_views(exts@) =~= seq!["ts"@]);
    if !crate::file_system::has_listed_extension(segs[n - 1].as_str(), exts.as_slice()) {
        return None;
    }
    let ghost sv = views(segs@);
    let mut out: VecDeque<String> = VecDeque::new();
    let mut k: usize = 0;
    while k < n - 1
        invariant
            0 < n == segs@.len(),
            sv == views(segs@),
            k <= n - 1,
            views(out@) == sv.subrange(0, k as int),
        decreases n - 1 - k,
    {
        let ghost before = views(out@);
        let c = segs[k].clone();
        assert(c@ == sv[k as int]);
        out.push_back(c);
        assert(views(out@) =~= before.push(sv[k as int]));
        assert(views(out@) =~= sv.subrange(0, k + 1));
        k = k + 1;
    }
    let mut last = stem(segs[n - 1].as_str());
    last.append(".js");
    out.push_back(last);
    assert(views(out@) =~= sv.drop_last().push(stem_of(sv.last()) + ".js"@));
    Some(out)
}

/// The segments joined by dots: the name of a compiled script's file.
pub fn dotted_name(segs: &VecDeque<String>) -> (r: String)
    ensures
        r@ == join_spec(views(segs@), "."@),
{
    proof {
        reveal_strlit("");
        assert(wrapped(views(segs@), ""@, ""@) =~= views(segs@));
    }
    join_wrapped(segs, "", "", ".")
}


/// No segment holds a `:`.
pub open spec fn colon_free(segs: Seq<Seq<char>>) -> bool {
    forall|i: int, j: int| 0 <= i < segs.len() && 0 <= j < segs[i].len() ==> segs[i][j] != ':'
}

proof fn lemma_last_colon(a: Seq<char>, b: Seq<char>)
    requires
        forall|j: int| 0 <= j < b.len() ==> b[j] != ':',
    ensures
        last_of(a + "::"@ + b, ':') == a.len() + 1,
    decreases b.len(),
{
    reveal_strlit("::");
    let s = a + "::"@ + b;
    if b.len() == 0 {
        assert(s.last() == ':');
    } else {
        assert(s.last() == b.last());
        assert(s.drop_last() == a + "::"@ + b.drop_last());
        lemma_last_colon(a, b.drop_last());
    }
}

proof fn lemma_no_colon_last(s: Seq<char>)
    requires
        forall|j: int| 0 <= j < s.len() ==> s[j] != ':',
    ensures
        last_of(s, ':') == -1,
    decreases s.len(),
{
    if s.len() > 0 {
        lemma_no_colon_last(s.drop_last());
    }
}

/// Joining colon-free segments by `::` loses nothing.
proof fn lemma_join_injective(p: Seq<Seq<char>>, q: Seq<Seq<char>>)
    requires
        p.len() > 0,
        q.len() > 0,
        colon_free(p),
        colon_free(q),
        join_spec(p, "::"@) == join_spec(q, "::"@),
    ensures
        p == q,
    decreases p.len(),
{
    reveal_strlit("::");
    let s = join_spec(p, "::"@);
    if p.len() == 1 {
        assert(forall|j: int| 0 <= j < p[0].len() ==> p[0][j] != ':');
        lemma_no_colon_last(p[0]);
        if q.len() > 1 {
            assert(forall|j: int| 0 <= j < q.last().len() ==> q.last()[j] != ':');
            lemma_last_colon(join_spec(q.drop_last(), "::"@), q.last());
        }
        assert(p =~= q);
    } else {
        assert(forall|j: int| 0 <= j < p.last().len() ==> p.last()[j] != ':');
        lemma_last_colon(join_spec(p.drop_last(), "::"@), p.last());
        if q.len() == 1 {
            assert(forall|j: int| 0 <= j < q[0].len() ==> q[0][j] != ':');
            lemma_no_colon_last(q[0]);
        } else {
            assert(forall|j: int| 0 <= j < q.last().len() ==> q.last()[j] != ':');
            lemma_last_colon(join_spec(q.drop_last(), "::"@), q.last());
            let a = join_spec(p.drop_last(), "::"@);
            let b = join_spec(q.drop_last(), "::"@);
            assert(a.len() == b.len());
            assert(p.last() =~= s.subrange(a.len() as int + 2, s.len() as int));
            assert(q.last() =~= s.subrange(b.len() as int + 2, s.len() as int));
            assert(a =~= s.subrange(0, a.len() as int));
            assert(b =~= s.subrange(0, b.len() as int));
            lemma_join_injective(p.drop_last(), q.drop_last());
            assert(p =~= p.drop_last().push(p.last()));
            assert(q =~= q.drop_last().push(q.last()));
        }
    }
}

/// Flattening is injective: two different segment paths of stylesheets or
/// scripts whose segments hold no `:` get different flat names.
pub proof fn lemma_flat_names_injective(p: Seq<Seq<char>>, q: Seq<Seq<char>>)
    requires
        flat_name(p) is Some,
        flat_name(q) is Some,
        colon_free(p),
        colon_free(q),
        p != q,
    ensures
        flat_name(p) != flat_name(q),
{
    if flat_name(p) == flat_name(q) {
        lemma_join_injective(p, q);
    }
}

} // verus!
