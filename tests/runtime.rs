use potion::error::{Error, HtmlError, TypeError};
use potion::storage::Storage;
use potion::uri::Builder;

#[test]
fn storage_names_files_of_its_route() {
    let s = Storage::from_segments(&["news", "archive", "index"]);
    assert_eq!(s.get_relative_path(), "news::archive");
    assert_eq!(s.get_local_file("index.css"), "/static/routing::news::archive::index.css");
    assert_eq!(s.get_static_file("index.css"), "/static/static::index.css");
    assert_eq!(s.get_template(), "routing::news::archive::index");
    assert_eq!(s.get_local_template("list"), "routing::news::archive::list");
    assert_eq!(s.get_static_template("base"), "static::base");
}

#[test]
fn storage_from_slice() {
    let path: &[&str] = &["index"];
    let s = Storage::from(path);
    assert_eq!(s.get_relative_path(), "");
}

#[test]
fn navigation_lists_each_level() {
    let s = Storage::from_segments(&["news", "archive", "index"]);
    assert_eq!(
        s.construct_navigation(),
        vec![
            (String::from("/news"), String::from("news")),
            (String::from("/news/archive"), String::from("archive")),
        ]
    );
    let root = Storage::from_segments(&["index"]);
    assert_eq!(root.construct_navigation(), vec![(String::from("/"), String::from(""))]);
}

#[test]
fn html_error_defaults() {
    let e = HtmlError::InvalidSession.default();
    assert_eq!((e.code, e.info.as_deref(), e.redirect.as_deref()), (401, Some("Invalid credentials"), None));
    let e = HtmlError::Unauthorized.default();
    assert_eq!((e.code, e.info.as_deref()), (403, Some("Permission denied")));
    let e = HtmlError::InvalidRequest.default();
    assert_eq!((e.code, e.info.as_deref()), (400, Some("Invalid request")));
    let e = HtmlError::InternalServerError.default();
    assert_eq!((e.code, e.info.as_deref()), (500, Some("Internal server error")));
}

#[test]
fn html_error_with_info_and_redirect() {
    let e = HtmlError::Unauthorized.new("Invalid password");
    assert_eq!((e.code, e.info.as_deref(), e.redirect.as_deref()), (403, Some("Invalid password"), None));
    let e = HtmlError::Unauthorized.redirect("Log in first", "/login");
    assert_eq!((e.code, e.info.as_deref(), e.redirect.as_deref()), (401, Some("Log in first"), Some("/login")));
    let e = HtmlError::InvalidSession.redirect("Expired", "/login");
    assert_eq!(e.code, 403);
}

#[test]
fn error_page_texts() {
    let e = Error::new(404, "Not here", None);
    assert_eq!(e.description(), "Unknown error");
    assert_eq!(e.info_text(), "Not here");
    let e = Error { code: 401, info: None, redirect: None };
    assert_eq!(e.info_text(), "Unknown error");
    assert!(e.description().starts_with("Invalid credentials; The browser"));
    let e = Error::new(400, "x", None);
    assert!(e.description().contains("by hand.The server responded"));
}

#[test]
fn type_error_reports_invalid_request() {
    let e = TypeError::new("Invalid key").to_error();
    assert_eq!((e.code, e.info.as_deref(), e.redirect.as_deref()), (400, Some("Invalid key"), None));
}

#[test]
fn uri_builder_encodes_query_values() {
    let b = Builder::new("/login").query_add("next", "/a b").query_add("lang", "fi");
    assert_eq!(b.uri_string(), "/login?next=%2Fa%20b&lang=fi");
    let b = b.query_add("next", "ä~");
    assert_eq!(b.uri_string(), "/login?next=%C3%A4~&lang=fi");
    let u = b.build().unwrap();
    assert_eq!(u.to_string(), "/login?next=%C3%A4~&lang=fi");
}

#[test]
fn uri_builder_without_query() {
    let b = Builder::new("/home");
    assert_eq!(b.uri_string(), "/home");
    assert!(Builder::new("not a uri").build().is_none());
}
