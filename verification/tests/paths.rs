use cman::paths::{
    components, file_name, is_c_source, join, set_extension, sort_paths, strip_dir, Component,
};

fn component_names(path: &str) -> Vec<String> {
    components(path)
        .into_iter()
        .map(|span| match span.component {
            Component::RootDir => "/".to_string(),
            Component::CurDir => ".".to_string(),
            Component::ParentDir => "..".to_string(),
            Component::Normal(name) => name.into_iter().collect(),
        })
        .collect()
}

#[test]
fn join_like_path_join() {
    assert_eq!(join("/a", "b"), "/a/b");
    assert_eq!(join("/a/", "b"), "/a/b");
    assert_eq!(join("", "b"), "b");
    assert_eq!(join("/a", "/b"), "/b");
    assert_eq!(join("/a", ""), "/a/");
}

#[test]
fn strip_dir_cases() {
    assert_eq!(strip_dir("/p/src/a.c", "/p/src"), Some("a.c".to_string()));
    assert_eq!(strip_dir("/p/src", "/p/src"), Some(String::new()));
    assert_eq!(strip_dir("/p/srcx/a.c", "/p/src"), None);
    assert_eq!(strip_dir("/a", "/"), Some("a".to_string()));
    assert_eq!(strip_dir("/q/a.c", "/p"), None);
    assert_eq!(strip_dir("x", ""), Some("x".to_string()));
}

#[test]
fn strip_dir_goes_by_components() {
    assert_eq!(
        strip_dir("/home/you/hello//src/a.c", "/home/you/hello"),
        Some("src/a.c".to_string())
    );
    assert_eq!(strip_dir("/test/haha/foo.txt", "/test"), Some("haha/foo.txt".to_string()));
    assert_eq!(strip_dir("/test/haha/foo.txt", "/test/"), Some("haha/foo.txt".to_string()));
    assert_eq!(strip_dir("/test/haha/foo.txt", "/test/haha/foo.txt/"), Some(String::new()));
    assert_eq!(strip_dir("/test/haha/foo.txt", "test"), None);
    assert_eq!(strip_dir("/test/haha/foo.txt", "/haha"), None);
    assert_eq!(strip_dir("/p/src/./a.c/", "/p/./src"), Some("a.c".to_string()));
    assert_eq!(strip_dir("/p/src/", "/p/src"), Some(String::new()));
}

#[test]
fn components_and_file_names() {
    assert_eq!(component_names("/a//b/./c/"), vec!["/", "a", "b", "c"]);
    assert_eq!(component_names("./a/.."), vec![".", "a", ".."]);
    assert_eq!(component_names("a/./b"), vec!["a", "b"]);
    assert!(component_names("").is_empty());
    assert_eq!(file_name("/a/b.c"), Some("b.c".to_string()));
    assert_eq!(file_name("a/b/."), Some("b".to_string()));
    assert_eq!(file_name("/"), None);
    assert_eq!(file_name("."), None);
    assert_eq!(file_name("a/.."), None);
}

#[test]
fn extensions_are_set_after_the_stem() {
    assert_eq!(set_extension("a/b.c", 'o'), "a/b.o");
    assert_eq!(set_extension("a/b", 'o'), "a/b.o");
    assert_eq!(set_extension("a/b.x.c", 'o'), "a/b.x.o");
    assert_eq!(set_extension("a/.c", 'o'), "a/.c.o");
    assert_eq!(set_extension("a/b.c/", 'o'), "a/b.o");
    assert_eq!(set_extension("a.", 'o'), "a.o");
    assert_eq!(set_extension("a/..", 'o'), "a/..");
    assert_eq!(set_extension("/", 'o'), "/");
}

#[test]
fn c_sources_by_extension() {
    assert!(is_c_source("src/main.c"));
    assert!(is_c_source("src/a.b.c"));
    assert!(is_c_source("src/main.c/"));
    assert!(!is_c_source("src/.c"));
    assert!(!is_c_source("src/main.h"));
    assert!(!is_c_source("src/main.cc"));
    assert!(!is_c_source("src/c"));
}

#[test]
fn paths_sort_by_components() {
    let sorted = sort_paths(&vec![
        "src/net.c".to_string(),
        "src/b.c".to_string(),
        "src/net/a.c".to_string(),
        "src/a.c".to_string(),
    ]);
    assert_eq!(sorted, vec!["src/a.c", "src/b.c", "src/net/a.c", "src/net.c"]);
    assert!(sort_paths(&vec![]).is_empty());
}

#[test]
fn roots_and_dots_sort_by_kind() {
    let sorted = sort_paths(&vec![
        "b".to_string(),
        "+".to_string(),
        "../a".to_string(),
        "a".to_string(),
        "./a".to_string(),
        "/a".to_string(),
    ]);
    assert_eq!(sorted, vec!["/a", "./a", "../a", "+", "a", "b"]);
}
