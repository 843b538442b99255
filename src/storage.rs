//! Where the files of one route live: its module path and the names of its
//! templates, stylesheets and scripts.
use vstd::prelude::*;
use crate::text::{after_last, join, join_spec, split_colons, split_path, str_eq, text_after_last, views};

verus! {

/// The module path of a route, its segments joined by `::`.
#[derive(Debug, Clone)]
pub struct Storage {
    path: String,
}

impl View for Storage {
    type V = Seq<char>;

    closed spec fn view(&self) -> Seq<char> {
        self.path@
    }
}

/// The segments of a route, without the `index` segments.
pub open spec fn without_index(v: Seq<Seq<char>>) -> Seq<Seq<char>>
    decreases v.len(),
{
    if v.len() == 0 {
        Seq::empty()
    } else if v.last() == "index"@ {
        without_index(v.drop_last())
    } else {
        without_index(v.drop_last()).push(v.last())
    }
}

/// The characters of each string of a slice.
pub open spec fn str_views(v: Seq<&str>) -> Seq<Seq<char>> {
    v.map_values(|s: &str| s@)
}

/// The path made of the first `k` segments, each after a `/`.
pub open spec fn prefix_url(a: Seq<Seq<char>>, k: int) -> Seq<char>
    decreases k,
{
    if k <= 0 {
        Seq::empty()
    } else {
        prefix_url(a, k - 1) + "/"@ + a[k - 1]
    }
}

/// One link per segment: the path up to that segment, and the text of the
/// path after its last `/`.
pub open spec fn navigation(a: Seq<Seq<char>>) -> Seq<(Seq<char>, Seq<char>)> {
    Seq::new(a.len(), |i: int| (prefix_url(a, i + 1), after_last(prefix_url(a, i + 1), '/')))
}

/// The characters of both strings of each pair.
pub open spec fn pair_views(v: Seq<(String, String)>) -> Seq<(Seq<char>, Seq<char>)> {
    v.map_values(|p: (String, String)| (p.0@, p.1@))
}

impl Storage {
    /// The storage of the route with the given segments; `index` segments
    /// are left out.
    pub fn from_segments(value: &[&str]) -> (r: Storage)
        ensures
            r@ == join_spec(without_index(str_views(value@)), "::"@),
    {
        let ghost v = str_views(value@);
        let mut parts: Vec<String> = Vec::new();
        let mut i: usize = 0;
        while i < value.len()
            invariant
                i <= value@.len(),
                v == str_views(value@),
                views(parts@) == without_index(v.subrange(0, i as int)),
            decreases value@.len() - i,
        {
            assert(v.subrange(0, i + 1).drop_last() == v.subrange(0, i as int));
            assert(v.subrange(0, i + 1).last() == value@[i as int]@);
            if !str_eq(value[i], "index") {
                parts.push(String::from_str(value[i]));
                assert(views(parts@) =~= without_index(v.subrange(0, i + 1)));
            }
            i = i + 1;
        }
        assert(v.subrange(0, v.len() as int) == v);
        Storage { path: join(&parts, "::") }
    }

    /// The served path of a shared static file.
    pub fn get_static_file(&self, path: &str) -> (r: String)
        ensures
            r@ == "/static/static::"@ + path@,
    {
        let mut r = String::from_str("/static/static::");
        r.append(path);
        r
    }

    /// The served path of a file of this route.
    pub fn get_local_file(&self, name: &str) -> (r: String)
        ensures
            r@ == "/static/routing::"@ + self@ + "::"@ + name@,
    {
        let mut r = String::from_str("/static/routing::");
        r.append(self.path.as_str());
        r.append("::");
        r.append(name);
        r
    }

    /// The name of this route's `index` template.
    pub fn get_template(&self) -> (r: String)
        ensures
            r@ == "routing::"@ + self@ + "::"@ + "index"@,
    {
        self.get_local_template("index")
    }

    /// The name of a template of this route.
    pub fn get_local_template(&self, name: &str) -> (r: String)
        ensures
            r@ == "routing::"@ + self@ + "::"@ + name@,
    {
        let mut r = String::from_str("routing::");
        r.append(self.path.as_str());
        r.append("::");
        r.append(name);
        r
    }

    /// The name of a shared static template.
    pub fn get_static_template(&self, path: &str) -> (r: String)
        ensures
            r@ == "static::"@ + path@,
    {
        let mut r = String::from_str("static::");
        r.append(path);
        r
    }

    /// The module path of this route.
    pub fn get_relative_path(&self) -> (r: &String)
        ensures
            r@ == self@,
    {
        &self.path
    }

    /// The links from the application root down to this route, one per
    /// segment of its module path: the URL path and its last segment.
    pub fn construct_navigation(&self) -> (r: Vec<(String, String)>)
        ensures
            pair_views(r@) == navigation(split_colons(self@)),
    {
        let a = split_path(self.path.as_str());
        let ghost av = views(a@);
        let mut b: Vec<(String, String)> = Vec::new();
        let mut c = String::new();
        let mut i: usize = 0;
        while i < a.len()
            invariant
                i <= a@.len(),
                av == views(a@),
                c@ == prefix_url(av, i as int),
                pair_views(b@) == navigation(av).subrange(0, i as int),
            decreases a@.len() - i,
        {
            c.append("/");
            c.append(a[i].as_str());
            assert(c@ == prefix_url(av, i + 1));
            let last = text_after_last(c.as_str(), '/');
            let link = c.clone();
            let ghost before = pair_views(b@);
            b.push((link, last));
            assert(navigation(av)[i as int] == (prefix_url(av, i + 1), after_last(prefix_url(av, i + 1), '/')));
            assert(pair_views(b@) =~= before.push((link@, last@)));
            assert(pair_views(b@) =~= navigation(av).subrange(0, i + 1));
            i = i + 1;
        }
        assert(navigation(av).subrange(0, av.len() as int) =~= navigation(av));
        b
    }
}

impl From<&[&str]> for Storage {
    fn from(value: &[&str]) -> Storage {
        Storage::from_segments(value)
    }
}

impl vstd::std_specs::convert::FromSpecImpl<&[&str]> for Storage {
    open spec fn obeys_from_spec() -> bool {
        false
    }

    open spec fn from_spec(v: &[&str]) -> Storage {
        arbitrary()
    }
}

} // verus!
