use std::collections::VecDeque;

use potion::assets::{
    compiled_script_segments, dotted_name, link_static_files, map_routing_tree, static_name, template_names,
};
use potion::error::BuildError;
use potion::file_system::{resolve_relative_path, visit_dirs};
use potion::fs_tree::FsNode;

fn strings(parts: &[&str]) -> Vec<String> {
    parts.iter().map(|p| p.to_string()).collect()
}

fn segs(parts: &[&str]) -> VecDeque<String> {
    parts.iter().map(|p| p.to_string()).collect()
}

fn file(name: &str) -> FsNode {
    FsNode::File { name: name.to_string() }
}

fn dir(name: &str, entries: Vec<FsNode>) -> FsNode {
    FsNode::Dir { name: name.to_string(), entries }
}

#[test]
fn asset_path_keeps_its_root() {
    let p = strings(&["srv", "static", "css", "main.css"]);
    assert_eq!(resolve_relative_path(p, false).unwrap(), segs(&["static", "css", "main.css"]));
    let p = strings(&["srv", "routing", "news", "index.hbs"]);
    assert_eq!(resolve_relative_path(p.clone(), false).unwrap(), segs(&["routing", "news", "index.hbs"]));
    assert_eq!(resolve_relative_path(p, true).unwrap(), segs(&["routing", "news", "index"]));
}

#[test]
fn asset_path_without_root_fails() {
    let p = strings(&["srv", "assets", "main.css"]);
    assert_eq!(resolve_relative_path(p, false), Err(BuildError::MissingRoot));
}

#[test]
fn visit_lists_matching_files_in_order() {
    let entries = vec![
        file("index.hbs"),
        file("index.rs"),
        dir("news", vec![file("a.css"), file("Makefile"), file(".ts")]),
        file("app.ts"),
    ];
    let mut l: Vec<Vec<String>> = vec![];
    visit_dirs(&strings(&["r"]), &entries, &mut l, &["hbs", "css", "ts"]);
    assert_eq!(l, vec![strings(&["r", "index.hbs"]), strings(&["r", "news", "a.css"]), strings(&["r", "app.ts"])]);
}

#[test]
fn routing_tree_map_lists_both_roots() {
    let routing = vec![dir("news", vec![file("index.hbs"), file("index.rs"), file("index.css")])];
    let statics = vec![file("base.hbs"), file("index.js")];
    let m = map_routing_tree(&strings(&["srv"]), &routing, &statics);
    assert_eq!(
        m,
        vec![
            (segs(&["routing", "news", "index.hbs"]), strings(&["srv", "routing", "news", "index.hbs"])),
            (segs(&["routing", "news", "index.css"]), strings(&["srv", "routing", "news", "index.css"])),
            (segs(&["static", "base.hbs"]), strings(&["srv", "static", "base.hbs"])),
        ]
    );
}

#[test]
fn template_names_are_module_paths() {
    let m = vec![
        (segs(&["routing", "news", "index.hbs"]), strings(&["file1"])),
        (segs(&["routing", "news", "index.css"]), strings(&["file2"])),
        (segs(&["static", "base.hbs"]), strings(&["file3"])),
    ];
    assert_eq!(
        template_names(&m),
        vec![(String::from("routing::news::index"), 0), (String::from("static::base"), 2)]
    );
}

#[test]
fn static_names_are_flat() {
    assert_eq!(static_name(&segs(&["routing", "news", "index.css"])), Some(String::from("routing::news::index.css")));
    assert_eq!(static_name(&segs(&["static", "app.js"])), Some(String::from("static::app.js")));
    assert_eq!(static_name(&segs(&["static", "base.hbs"])), None);
    assert_eq!(static_name(&segs(&[])), None);
}

#[test]
fn static_files_get_distinct_names() {
    let m = vec![
        (segs(&["routing", "news", "index.css"]), strings(&["file1"])),
        (segs(&["routing", "news", "index.hbs"]), strings(&["file2"])),
        (segs(&["routing", "index.css"]), strings(&["file3"])),
        (segs(&["static", "index.js"]), strings(&["file4"])),
    ];
    let names = link_static_files(&m).unwrap();
    assert_eq!(
        names,
        vec![
            (String::from("routing::news::index.css"), 0),
            (String::from("routing::index.css"), 2),
            (String::from("static::index.js"), 3),
        ]
    );
    for i in 0..names.len() {
        for j in i + 1..names.len() {
            assert_ne!(names[i].0, names[j].0);
        }
    }
}

#[test]
fn colliding_static_names_are_an_error() {
    let m = vec![
        (segs(&["static", "a::b.css"]), strings(&["file1"])),
        (segs(&["static", "a", "b.css"]), strings(&["file2"])),
    ];
    assert_eq!(link_static_files(&m), Err(BuildError::NameCollision));
}

#[test]
fn typescript_compiles_to_script_names() {
    let c = compiled_script_segments(&segs(&["routing", "news", "app.ts"])).unwrap();
    assert_eq!(c, segs(&["routing", "news", "app.js"]));
    assert_eq!(dotted_name(&c), "routing.news.app.js");
    assert_eq!(compiled_script_segments(&segs(&["routing", "app.css"])), None);
}
