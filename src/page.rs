//! The parts of a rendered page that do not depend on its values: where a
//! value is visible, and which stylesheets and scripts the page imports.
use vstd::prelude::*;
use crate::storage::{str_views, Storage};
use crate::text::{extension, stem, stem_of, extension_of, has_extension, str_eq, views};

verus! {

/// Whether a page value is rendered into the page or handed to its scripts.
#[derive(Clone, Copy, Debug, PartialEq, Eq, Structural)]
pub enum PageValueScope {
    ServerSide,
    ClientSide,
}

/// The file that a script source is served as: a TypeScript file as the
/// script compiled from it, any other file as it is.
pub open spec fn served_script(name: Seq<char>) -> Seq<char> {
    if has_extension(name) && extension_of(name) == "ts"@ {
        stem_of(name) + ".js"@
    } else {
        name
    }
}

/// The file that a script source is served as.
pub fn script_file(name: &str) -> (r: String)
    ensures
        r@ == served_script(name@),
{
    match extension(name) {
        Some(e) => {
            if str_eq(e.as_str(), "ts") {
                let mut r = stem(name);
                r.append(".js");
                r
            } else {
                String::from_str(name)
            }
        },
        None => String::from_str(name),
    }
}

/// The files that the script sources are served as.
pub fn script_files(names: &[&str]) -> (r: Vec<String>)
    ensures
        views(r@) == str_views(names@).map_values(|n: Seq<char>| served_script(n)),
{
    let ghost nv = str_views(names@);
    let mut r: Vec<String> = Vec::new();
    let mut i: usize = 0;
    while i < names.len()
        invariant
            i <= names@.len(),
            nv == str_views(names@),
            views(r@) == nv.subrange(0, i as int).map_values(|n: Seq<char>| served_script(n)),
        decreases names@.len() - i,
    {
        let ghost before = views(r@);
        let f = script_file(names[i]);
        assert(f@ == served_script(nv[i as int]));
        r.push(f);
        assert(views(r@) =~= before.push(f@));
        assert(views(r@) =~= nv.subrange(0, i + 1).map_values(|n: Seq<char>| served_script(n)));
        i = i + 1;
    }
    assert(nv.subrange(0, nv.len() as int) == nv);
    r
}

/// The served paths of a page's imports: its route's own files first, then
/// the shared ones.
pub open spec fn import_paths(route: Seq<char>, local: Seq<Seq<char>>, global: Seq<Seq<char>>) -> Seq<Seq<char>> {
    local.map_values(|n: Seq<char>| "/static/routing::"@ + route + "::"@ + n) + global.map_values(
        |n: Seq<char>| "/static/static::"@ + n,
    )
}

/// The served paths of the files of this route named `local`, then of the
/// shared files named `global`.
pub fn import_files(storage: &Storage, local: &Vec<String>, global: &Vec<String>) -> (r: Vec<String>)
    ensures
        views(r@) == import_paths(storage@, views(local@), views(global@)),
{
    let ghost lv = views(local@);
    let ghost gv = views(global@);
    let mut r: Vec<String> = Vec::new();
    let mut i: usize = 0;
    while i < local.len()
        invariant
            i <= local@.len(),
            lv == views(local@),
            views(r@) == lv.subrange(0, i as int).map_values(|n: Seq<char>| "/static/routing::"@ + storage@ + "::"@ + n),
        decreases local@.len() - i,
    {
        let ghost before = views(r@);
        let f = storage.get_local_file(local[i].as_str());
        assert(f@ == "/static/routing::"@ + storage@ + "::"@ + lv[i as int]);
        r.push(f);
        assert(views(r@) =~= before.push(f@));
        assert(views(r@) =~= lv.subrange(0, i + 1).map_values(|n: Seq<char>| "/static/routing::"@ + storage@ + "::"@ + n));
        i = i + 1;
    }
    assert(lv.subrange(0, lv.len() as int) == lv);
    let ghost mid = views(r@);
    let mut j: usize = 0;
    while j < global.len()
        invariant
            j <= global@.len(),
            gv == views(global@),
            views(r@) == mid + gv.subrange(0, j as int).map_values(|n: Seq<char>| "/static/static::"@ + n),
        decreases global@.len() - j,
    {
        let ghost before = views(r@);
        let f = storage.get_static_file(global[j].as_str());
        assert(f@ == "/static/static::"@ + gv[j as int]);
        r.push(f);
        assert(views(r@) =~= before.push(f@));
        assert(views(r@) =~= mid + gv.subrange(0, j + 1).map_values(|n: Seq<char>| "/static/static::"@ + n));
        j = j + 1;
    }
    assert(gv.subrange(0, gv.len() as int) == gv);
    r
}

} // verus!
