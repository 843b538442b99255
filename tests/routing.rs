use std::collections::VecDeque;

use potion::dispatch::{construct_router_tree, resolve_import_path, route_request};
use potion::error::BuildError;
use potion::fs_tree::FsNode;
use potion::route_compiler::{construct_import_tree, construct_routing_system, resolve_relative_path};

const HEADER: &str = "fn router(hb: Arc<Handlebars<'static>>, pool: Arc<Pool<Postgres>>) -> impl Filter<Extract = (impl warp::Reply,), Error = warp::Rejection> + Clone { ";
const REJECT: &str = "warp::any().and_then(|| async { Err::<warp::reply::Html<String>, warp::Rejection>(warp::reject::not_found()) })";

fn strings(parts: &[&str]) -> Vec<String> {
    parts.iter().map(|p| p.to_string()).collect()
}

fn segs(parts: &[&str]) -> VecDeque<String> {
    parts.iter().map(|p| p.to_string()).collect()
}

fn file(name: &str) -> FsNode {
    FsNode::File { name: name.to_string() }
}

fn dir(name: &str, entries: Vec<FsNode>) -> FsNode {
    FsNode::Dir { name: name.to_string(), entries }
}

fn chain(route: &[&str]) -> String {
    let mut full: Vec<&str> = route.to_vec();
    full.push("index");
    let mut s = String::new();
    for r in route {
        s += &format!("warp::path(\"{}\").and(", r);
    }
    s += "warp::path::end().and(";
    s += &format!(
        "routing::{}::initialize( potion::Context::new(hb.clone(), pool.clone(), &[{}]) )",
        full.join("::"),
        full.iter().map(|r| format!("\"{r}\"")).collect::<Vec<String>>().join(", ")
    );
    s += &")".repeat(route.len() + 1);
    s
}

#[test]
fn test_router() {
    let root = vec![String::from("D:\\potion-test\\src\\routing")];
    let a = construct_routing_system(&root, &vec![]);
    println!("{:?}", a);
    assert_eq!(a, Ok(String::from("mod routing { }\n") + HEADER + REJECT + " }"));
}

#[test]
fn resolve_strips_extensions_below_routing() {
    let p = strings(&["home", "app", "routing", "news", "index.rs"]);
    let r = resolve_relative_path(p.clone(), true).unwrap();
    assert_eq!(r, segs(&["news", "index"]));
    let r = resolve_relative_path(p, false).unwrap();
    assert_eq!(r, segs(&["news", "index.rs"]));
}

#[test]
fn resolve_strips_only_the_last_extension() {
    let p = strings(&["routing", "a.b.rs"]);
    assert_eq!(resolve_relative_path(p, true).unwrap(), segs(&["a.b"]));
}

#[test]
fn resolve_stops_at_nearest_routing() {
    let p = strings(&["routing", "x", "routing", "index.rs"]);
    assert_eq!(resolve_relative_path(p, true).unwrap(), segs(&["index"]));
}

#[test]
fn resolve_without_root_fails() {
    let p = strings(&["home", "app", "index.rs"]);
    assert_eq!(resolve_relative_path(p, true), Err(BuildError::MissingRoot));
}

#[test]
fn import_tree_mirrors_directories() {
    let root = strings(&["app", "routing"]);
    let entries = vec![
        file("index.rs"),
        dir("news", vec![file("index.rs"), file("style.css"), dir("archive", vec![file("index.rs")])]),
        dir("empty", vec![]),
        file("README"),
    ];
    let mut s = String::new();
    let mut l: Vec<VecDeque<String>> = vec![];
    assert_eq!(construct_import_tree(&root, &entries, &mut s, &mut l), Ok(()));
    assert_eq!(
        s,
        " pub mod index; pub mod news { pub mod index; pub mod archive { pub mod index; } } pub mod empty {} "
    );
    assert_eq!(l, vec![segs(&["index"]), segs(&["news", "index"]), segs(&["news", "archive", "index"])]);
}

#[test]
fn import_tree_nesting_matches_depth() {
    let root = strings(&["routing"]);
    let entries = vec![dir("a", vec![dir("b", vec![dir("c", vec![file("leaf.rs")])])])];
    let mut s = String::new();
    let mut l: Vec<VecDeque<String>> = vec![];
    construct_import_tree(&root, &entries, &mut s, &mut l).unwrap();
    let at = s.find(" pub mod leaf; ").unwrap();
    let before = &s[..at];
    let opened = before.matches('{').count() - before.matches('}').count();
    assert_eq!(opened, 3);
    assert_eq!(l, vec![segs(&["a", "b", "c", "leaf"])]);
}

#[test]
fn import_tree_outside_root_fails() {
    let root = strings(&["app", "src"]);
    let mut s = String::new();
    let mut l: Vec<VecDeque<String>> = vec![];
    assert_eq!(construct_import_tree(&root, &vec![file("index.rs")], &mut s, &mut l), Err(BuildError::MissingRoot));
}

#[test]
fn walking_twice_gives_the_same_result() {
    let root = strings(&["srv", "routing"]);
    let entries = vec![dir("news", vec![file("index.rs"), dir("archive", vec![file("index.rs")])]), file("index.rs")];
    let a = construct_routing_system(&root, &entries);
    let b = construct_routing_system(&root, &entries);
    assert!(a.is_ok());
    assert_eq!(a, b);
}

#[test]
fn sibling_routes_compile_and_dispatch() {
    let l = vec![segs(&["a", "b", "index"]), segs(&["a", "c", "index"])];
    let text = construct_router_tree(&l).unwrap();
    let expected = format!("{HEADER}{}.or({}) }}", chain(&["a", "c"]), chain(&["a", "b"]));
    assert_eq!(text, expected);
    assert_eq!(route_request(&l, &strings(&["a", "b"])), Ok(Some(0)));
    assert_eq!(route_request(&l, &strings(&["a", "c"])), Ok(Some(1)));
    assert_eq!(route_request(&l, &strings(&["a", "d"])), Ok(None));
    assert_eq!(route_request(&l, &strings(&["a", "b", "x"])), Ok(None));
}

#[test]
fn root_route_alone() {
    let l = vec![segs(&["index"])];
    let text = construct_router_tree(&l).unwrap();
    assert_eq!(
        text,
        format!("{HEADER}warp::path::end().and(routing::index::initialize( potion::Context::new(hb.clone(), pool.clone(), &[\"index\"]) )) }}")
    );
    assert_eq!(route_request(&l, &vec![]), Ok(Some(0)));
    assert_eq!(route_request(&l, &strings(&["index"])), Ok(None));
    assert_eq!(route_request(&l, &strings(&["x", "y"])), Ok(None));
}

#[test]
fn no_endpoints_reject_everything() {
    let l: Vec<VecDeque<String>> = vec![];
    assert_eq!(construct_router_tree(&l), Ok(format!("{HEADER}{REJECT} }}")));
    assert_eq!(route_request(&l, &vec![]), Ok(None));
    let l = vec![segs(&["style"]), segs(&["news", "page"])];
    assert_eq!(construct_router_tree(&l), Ok(format!("{HEADER}{REJECT} }}")));
    assert_eq!(route_request(&l, &strings(&["news"])), Ok(None));
}

#[test]
fn last_discovered_endpoint_is_base_case() {
    let news = segs(&["news", "index"]);
    let archive = segs(&["news", "archive", "index"]);
    let l1 = vec![news.clone(), archive.clone()];
    let l2 = vec![archive.clone(), news.clone()];
    let t1 = construct_router_tree(&l1).unwrap();
    let t2 = construct_router_tree(&l2).unwrap();
    assert_eq!(t1, format!("{HEADER}{}.or({}) }}", chain(&["news", "archive"]), chain(&["news"])));
    assert_eq!(t2, format!("{HEADER}{}.or({}) }}", chain(&["news"]), chain(&["news", "archive"])));
    for req in [vec![], strings(&["news"]), strings(&["news", "archive"]), strings(&["news", "x"])] {
        let a = route_request(&l1, &req).unwrap().map(|i| l1[i].clone());
        let b = route_request(&l2, &req).unwrap().map(|i| l2[i].clone());
        assert_eq!(a, b);
    }
    assert_eq!(route_request(&l1, &strings(&["news"])), Ok(Some(0)));
    assert_eq!(route_request(&l2, &strings(&["news"])), Ok(Some(1)));
}

#[test]
fn non_index_leaves_are_not_routed() {
    let l = vec![segs(&["a", "index"]), segs(&["a", "style"]), segs(&["b", "index"])];
    let text = construct_router_tree(&l).unwrap();
    assert_eq!(text, format!("{HEADER}{}.or({}) }}", chain(&["b"]), chain(&["a"])));
}

#[test]
fn empty_segment_path_is_an_error() {
    let l = vec![segs(&["a", "index"]), segs(&[])];
    assert_eq!(construct_router_tree(&l), Err(BuildError::EmptyRoute));
    assert_eq!(route_request(&l, &vec![]), Err(BuildError::EmptyRoute));
}

#[test]
fn duplicate_routes_are_an_error() {
    let l = vec![segs(&["a", "index"]), segs(&["b", "index"]), segs(&["a", "index"])];
    assert_eq!(construct_router_tree(&l), Err(BuildError::DuplicateRoute));
}

#[test]
fn import_path_joins_segments() {
    assert_eq!(resolve_import_path(&segs(&["news", "archive", "index"])), "news::archive::index");
    assert_eq!(resolve_import_path(&segs(&[])), "");
}

#[test]
fn routing_system_combines_modules_and_router() {
    let root = strings(&["srv", "routing"]);
    let entries = vec![file("index.rs"), dir("about", vec![file("index.rs")])];
    let text = construct_routing_system(&root, &entries).unwrap();
    let expected = String::from("mod routing {  pub mod index; pub mod about { pub mod index; } }\n")
        + HEADER
        + &chain(&["about"])
        + ".or("
        + &chain(&[])
        + ") }";
    assert_eq!(text, expected);
}

#[test]
fn routing_system_reports_duplicates() {
    let root = strings(&["srv", "routing"]);
    let entries = vec![file("index.rs"), dir("x", vec![dir("routing", vec![file("index.rs")])])];
    assert_eq!(construct_routing_system(&root, &entries), Err(BuildError::DuplicateRoute));
}

#[test]
fn reordered_entries_find_the_same_sources() {
    let root = strings(&["srv", "routing"]);
    let a = vec![file("index.rs"), dir("news", vec![file("index.rs")]), file("about.rs")];
    let b = vec![file("about.rs"), file("index.rs"), dir("news", vec![file("index.rs")])];
    let (mut s1, mut s2) = (String::new(), String::new());
    let (mut l1, mut l2): (Vec<VecDeque<String>>, Vec<VecDeque<String>>) = (vec![], vec![]);
    construct_import_tree(&root, &a, &mut s1, &mut l1).unwrap();
    construct_import_tree(&root, &b, &mut s2, &mut l2).unwrap();
    assert_ne!(l1, l2);
    l1.sort();
    l2.sort();
    assert_eq!(l1, l2);
    assert_eq!(route_request(&l1, &strings(&["news"])).unwrap().map(|i| l1[i].clone()), Some(segs(&["news", "index"])));
}

#[test]
fn nested_reordering_finds_the_same_routes() {
    let root = strings(&["srv", "routing"]);
    let a = vec![dir("news", vec![file("index.rs"), dir("archive", vec![file("index.rs"), file("old.rs")])]), file("index.rs")];
    let b = vec![file("index.rs"), dir("news", vec![dir("archive", vec![file("old.rs"), file("index.rs")]), file("index.rs")])];
    let (mut s1, mut s2) = (String::new(), String::new());
    let (mut l1, mut l2): (Vec<VecDeque<String>>, Vec<VecDeque<String>>) = (vec![], vec![]);
    construct_import_tree(&root, &a, &mut s1, &mut l1).unwrap();
    construct_import_tree(&root, &b, &mut s2, &mut l2).unwrap();
    l1.sort();
    l2.sort();
    assert_eq!(l1, l2);
    for req in [vec![], strings(&["news"]), strings(&["news", "archive"]), strings(&["news", "old"])] {
        let x = route_request(&l1, &req).unwrap().map(|i| l1[i].clone());
        let y = route_request(&l2, &req).unwrap().map(|i| l2[i].clone());
        assert_eq!(x, y);
    }
}
