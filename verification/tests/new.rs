use cman::commands::new::{
    should_write_file,
    absolute, check_destination, check_init, created_message, infer_name, manifest_template,
    package_name, scaffold_files, validate_name, GITIGNORE, MAIN_C,
};
use cman::error::CmanError;

#[test]
fn accepts_ordinary_names() {
    assert!(validate_name("hello").is_ok());
    assert!(validate_name("my-app").is_ok());
    assert!(validate_name("_internal2").is_ok());
}

#[test]
fn rejects_names_that_break_paths_or_shells() {
    assert!(validate_name("").is_err());
    assert!(validate_name("2fast").is_err());
    assert!(validate_name("-flag").is_err());
    assert!(validate_name("my app").is_err());
    assert!(validate_name("../escape").is_err());
}

#[test]
fn invalid_name_message() {
    match validate_name("a/b") {
        Err(e) => assert_eq!(
            e.message(),
            "invalid package name `a/b`: it must start with a letter or `_` and contain only letters, digits, `_` or `-`"
        ),
        Ok(()) => panic!("`a/b` accepted"),
    }
    assert!(validate_name("é").is_err());
    assert!(validate_name("Z").is_ok());
}

#[test]
fn template_names_the_package() {
    assert_eq!(
        manifest_template("hello"),
        "[package]\nname = \"hello\"\nversion = \"0.1.0\"\nstd = \"c17\"\n"
    );
}

#[test]
fn name_is_inferred_from_the_directory() {
    assert_eq!(infer_name("/home/you/hello").unwrap(), "hello");
    assert_eq!(infer_name("/home/you/hello/").unwrap(), "hello");
    assert_eq!(infer_name("/home/you/hello/.").unwrap(), "hello");
    match infer_name("/") {
        Err(e) => assert_eq!(e.message(), "cannot infer a package name from `/`; pass --name"),
        Ok(n) => panic!("inferred {n}"),
    }
    assert!(infer_name("/home/..").is_err());
}

#[test]
fn package_name_prefers_the_given_one() {
    assert_eq!(package_name("/x/dir-name", None).unwrap(), "dir-name");
    assert_eq!(package_name("/x/dir-name", Some("given".to_string())).unwrap(), "given");
    assert!(matches!(package_name("/x/2bad", None), Err(CmanError::InvalidName { .. })));
    assert!(matches!(package_name("/", None), Err(CmanError::CannotInferName { .. })));
    assert!(matches!(package_name("/", Some("ok".to_string())), Ok(_)));
}

#[test]
fn absolute_paths() {
    assert_eq!(absolute("/abs/p", "/cwd"), "/abs/p");
    assert_eq!(absolute("rel", "/cwd"), "/cwd/rel");
    assert_eq!(absolute("rel", "/"), "/rel");
}

#[test]
fn destination_checks() {
    assert!(check_destination("/d", false, false).is_ok());
    assert!(check_destination("/d", true, true).is_ok());
    let e = check_destination("/d", true, false).unwrap_err();
    assert_eq!(e.message(), "destination `/d` already exists and is not empty");
    assert!(check_init("/d", false).is_ok());
    let e = check_init("/d", true).unwrap_err();
    assert_eq!(e.message(), "`cman.toml` already exists in `/d`");
}

#[test]
fn scaffold_writes_three_files() {
    let files = scaffold_files("/p/hello", "hello");
    assert_eq!(files.len(), 3);
    assert_eq!(files[0].path, "/p/hello/cman.toml");
    assert_eq!(files[0].contents, manifest_template("hello"));
    assert_eq!(files[1].path, "/p/hello/.gitignore");
    assert_eq!(files[1].contents, GITIGNORE);
    assert_eq!(files[2].path, "/p/hello/src/main.c");
    assert_eq!(files[2].contents, MAIN_C);
    assert!(MAIN_C.contains("Hello, world!\\n"));
    assert_eq!(created_message("hello"), "binary `hello` package");
}

#[test]
fn existing_files_are_kept() {
    assert!(should_write_file(false));
    assert!(!should_write_file(true));
}
