use cman::cli::Profile;
use cman::error::CmanError;
use cman::manifest::{default_std, default_version, find_root, Manifest, Package, Project};

fn project(root: &str, name: &str) -> Project {
    let manifest = Manifest {
        package: Package { name: name.to_string(), version: default_version(), std: default_std() },
    };
    match Project::new(root.to_string(), manifest) {
        Ok(p) => p,
        Err(e) => panic!("{}", e.message()),
    }
}

#[test]
fn defaults() {
    assert_eq!(default_version(), "0.1.0");
    assert_eq!(default_std(), "c17");
}

#[test]
fn empty_name_is_refused() {
    let manifest = Manifest {
        package: Package { name: String::new(), version: default_version(), std: default_std() },
    };
    match Project::new("/p".to_string(), manifest) {
        Err(e) => assert_eq!(e.message(), "`package.name` in `/p/cman.toml` must not be empty"),
        Ok(_) => panic!("empty name accepted"),
    }
}

#[test]
fn layout() {
    let p = project("/home/you/hello", "hello");
    assert_eq!(p.name(), "hello");
    assert_eq!(p.src_dir(), "/home/you/hello/src");
    assert_eq!(p.include_dir(), "/home/you/hello/include");
    assert_eq!(p.target_dir(), "/home/you/hello/target");
    assert_eq!(p.profile_dir(Profile::Dev), "/home/you/hello/target/debug");
    assert_eq!(p.profile_dir(Profile::Release), "/home/you/hello/target/release");
    assert_eq!(p.obj_dir(Profile::Dev), "/home/you/hello/target/debug/obj");
    assert_eq!(p.bin_path(Profile::Release), "/home/you/hello/target/release/hello");
    assert_eq!(p.include_dirs(true), vec!["/home/you/hello/include", "/home/you/hello/src"]);
    assert_eq!(p.include_dirs(false), vec!["/home/you/hello/src"]);
}

#[test]
fn sources_are_filtered_and_sorted() {
    let p = project("/p", "x");
    let files = vec![
        "/p/src/z.c".to_string(),
        "/p/src/readme.md".to_string(),
        "/p/src/math/add.c".to_string(),
        "/p/src/a.h".to_string(),
        "/p/src/main.c".to_string(),
    ];
    let sources = p.sources(true, &files).ok().unwrap();
    assert_eq!(sources, vec!["/p/src/main.c", "/p/src/math/add.c", "/p/src/z.c"]);
}

#[test]
fn sources_errors() {
    let p = project("/p", "x");
    match p.sources(false, &vec![]) {
        Err(e) => {
            assert!(matches!(e, CmanError::NoSrcDir { .. }));
            assert_eq!(e.message(), "no `src` directory in `/p`");
        }
        Ok(_) => panic!("no src accepted"),
    }
    match p.sources(true, &vec!["/p/src/a.h".to_string()]) {
        Err(e) => assert_eq!(e.message(), "no `.c` files found under `/p/src`"),
        Ok(_) => panic!("no sources accepted"),
    }
}

#[test]
fn root_is_the_nearest_ancestor_with_a_manifest() {
    let ancestors = vec!["/a/b/c".to_string(), "/a/b".to_string(), "/a".to_string(), "/".to_string()];
    assert_eq!(find_root(&ancestors, &vec![false, true, true, false]), Some("/a/b".to_string()));
    assert_eq!(find_root(&ancestors, &vec![false, false, false, false]), None);
    assert_eq!(find_root(&ancestors, &vec![true, false, false, false]), Some("/a/b/c".to_string()));
}

#[test]
fn source_order_does_not_depend_on_listing_order() {
    let p = project("/p", "x");
    let listing = vec![
        "/p/src/b.c".to_string(),
        "/p/src/a/z.c".to_string(),
        "/p/src/a.c".to_string(),
        "/p/src/notes.txt".to_string(),
    ];
    let mut reversed = listing.clone();
    reversed.reverse();
    let first = p.sources(true, &listing).ok().unwrap();
    let second = p.sources(true, &reversed).ok().unwrap();
    assert_eq!(first, second);
    assert_eq!(first, vec!["/p/src/a/z.c", "/p/src/a.c", "/p/src/b.c"]);
}
