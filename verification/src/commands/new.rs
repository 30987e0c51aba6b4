//! `cman new` and `cman init`: the decisions behind scaffolding a project.

use vstd::prelude::*;

use crate::error::CmanError;
use crate::manifest::MANIFEST_FILE;
use crate::paths::{file_name, join, spec_file_name, spec_join};
use crate::text::{chars_of, spec_is_whitespace};

verus! {

/// The `main.c` of a new project.
pub const MAIN_C: &'static str = "#include <stdio.h>\n\nint main(void) {\n    printf(\"Hello, world!\\n\");\n    return 0;\n}\n";

/// The `.gitignore` of a new project.
pub const GITIGNORE: &'static str = "target/\n";

/// An ASCII letter.
pub open spec fn is_ascii_letter(c: char) -> bool {
    ('a' <= c && c <= 'z') || ('A' <= c && c <= 'Z')
}

/// An ASCII letter or digit.
pub open spec fn is_ascii_letter_or_digit(c: char) -> bool {
    is_ascii_letter(c) || ('0' <= c && c <= '9')
}

/// A package name that can safely become a file name and a shell word: it
/// starts with a letter or `_` and holds only letters, digits, `_` or `-`.
pub open spec fn spec_valid_name(name: Seq<char>) -> bool {
    &&& name.len() > 0
    &&& (is_ascii_letter(name[0]) || name[0] == '_')
    &&& forall|i: int|
        1 <= i < name.len() ==> is_ascii_letter_or_digit(#[trigger] name[i]) || name[i] == '_'
            || name[i] == '-'
}

/// Keep names to what can safely become a file name and a shell word, since
/// the package name is also the name of the produced executable.
pub fn validate_name(name: &str) -> (result: Result<(), CmanError>)
    ensures
        match result {
            Ok(()) => spec_valid_name(name@),
            Err(CmanError::InvalidName { name: n }) => !spec_valid_name(name@) && n@ == name@,
            Err(_) => false,
        },
{
    let c = chars_of(name);
    let mut valid = c.len() > 0 && (('a' <= c[0] && c[0] <= 'z') || ('A' <= c[0] && c[0] <= 'Z')
        || c[0] == '_');
    let mut i: usize = 1;
    while valid && i < c.len()
        invariant
            c@ == name@,
            1 <= i,
            valid ==> c.len() > 0 && (is_ascii_letter(c@[0]) || c@[0] == '_'),
            valid ==> forall|j: int|
                1 <= j < i && j < c@.len() ==> is_ascii_letter_or_digit(#[trigger] c@[j]) || c@[j]
                    == '_' || c@[j] == '-',
            !valid ==> !spec_valid_name(name@),
        decreases c.len() - i,
    {
        let ch = c[i];
        if !(('a' <= ch && ch <= 'z') || ('A' <= ch && ch <= 'Z') || ('0' <= ch && ch <= '9')
            || ch == '_' || ch == '-') {
            valid = false;
        }
        i = i + 1;
    }
    if !valid {
        return Err(CmanError::InvalidName { name: name.to_string() });
    }
    Ok(())
}

/// The manifest a new project starts with.
pub open spec fn spec_manifest_template(name: Seq<char>) -> Seq<char> {
    "[package]\nname = \""@ + name + "\"\nversion = \"0.1.0\"\nstd = \"c17\"\n"@
}

pub fn manifest_template(name: &str) -> (text: String)
    ensures
        text@ == spec_manifest_template(name@),
{
    let mut text = String::from_str("[package]\nname = \"");
    text.append(name);
    text.append("\"\nversion = \"0.1.0\"\nstd = \"c17\"\n");
    text
}

/// The package name read off a directory: its final component.
pub fn infer_name(dir: &str) -> (name: Result<String, CmanError>)
    ensures
        match name {
            Ok(n) => spec_file_name(dir@) == Some(n@),
            Err(CmanError::CannotInferName { dir: d }) => spec_file_name(dir@) is None && d@ == dir@,
            Err(_) => false,
        },
{
    match file_name(dir) {
        Some(name) => Ok(name),
        None => Err(CmanError::CannotInferName { dir: dir.to_string() }),
    }
}

/// The name of the package scaffolded into `dir`: the one given, or else the
/// directory's name; either way it must be a valid name.
pub fn package_name(dir: &str, name: Option<String>) -> (result: Result<String, CmanError>)
    ensures
        match result {
            Ok(n) => spec_valid_name(n@) && match name {
                Some(given) => n@ == given@,
                None => spec_file_name(dir@) == Some(n@),
            },
            Err(CmanError::InvalidName { name: n }) => !spec_valid_name(n@) && match name {
                Some(given) => n@ == given@,
                None => spec_file_name(dir@) == Some(n@),
            },
            Err(CmanError::CannotInferName { dir: d }) => name is None && spec_file_name(dir@) is None
                && d@ == dir@,
            Err(_) => false,
        },
{
    let name = match name {
        Some(name) => name,
        None => match infer_name(dir) {
            Ok(n) => n,
            Err(e) => return Err(e),
        },
    };
    match validate_name(name.as_str()) {
        Ok(()) => Ok(name),
        Err(e) => Err(e),
    }
}

/// `path` made absolute against the current directory `cwd`.
pub fn absolute(path: &str, cwd: &str) -> (abs: String)
    ensures
        abs@ == if path@.len() > 0 && path@[0] == '/' {
            path@
        } else {
            spec_join(cwd@, path@)
        },
{
    let c = chars_of(path);
    if c.len() > 0 && c[0] == '/' {
        return path.to_string();
    }
    join(cwd, path)
}

/// `cman new` refuses a destination that exists and is not an empty
/// directory.
pub fn check_destination(dir: &str, present: bool, is_empty_dir: bool) -> (result: Result<(), CmanError>)
    ensures
        match result {
            Ok(()) => !present || is_empty_dir,
            Err(CmanError::DestinationNotEmpty { dir: d }) => present && !is_empty_dir && d@ == dir@,
            Err(_) => false,
        },
{
    if present && !is_empty_dir {
        return Err(CmanError::DestinationNotEmpty { dir: dir.to_string() });
    }
    Ok(())
}

/// `cman init` refuses a directory that already holds a manifest.
pub fn check_init(dir: &str, manifest_exists: bool) -> (result: Result<(), CmanError>)
    ensures
        match result {
            Ok(()) => !manifest_exists,
            Err(CmanError::AlreadyInitialized { dir: d }) => manifest_exists && d@ == dir@,
            Err(_) => false,
        },
{
    if manifest_exists {
        return Err(CmanError::AlreadyInitialized { dir: dir.to_string() });
    }
    Ok(())
}

/// Whether a scaffold file is written: only when nothing is at its path
/// yet, so that `init` in a directory with existing work never clobbers it.
pub fn should_write_file(exists: bool) -> (write: bool)
    ensures
        write == !exists,
{
    !exists
}

/// A file a new project starts with, written only if it is not already
/// there.
pub struct ScaffoldFile {
    pub path: String,
    pub contents: String,
}

/// The files scaffolded into `dir` for package `name`, in the order they are
/// written: the manifest, `.gitignore`, and `src/main.c`.
pub fn scaffold_files(dir: &str, name: &str) -> (files: Vec<ScaffoldFile>)
    ensures
        files@.len() == 3,
        files@[0].path@ == spec_join(dir@, MANIFEST_FILE@),
        files@[0].contents@ == spec_manifest_template(name@),
        files@[1].path@ == spec_join(dir@, ".gitignore"@),
        files@[1].contents@ == GITIGNORE@,
        files@[2].path@ == spec_join(spec_join(dir@, "src"@), "main.c"@),
        files@[2].contents@ == MAIN_C@,
{
    let mut files: Vec<ScaffoldFile> = Vec::new();
    files.push(ScaffoldFile { path: join(dir, MANIFEST_FILE), contents: manifest_template(name) });
    files.push(ScaffoldFile { path: join(dir, ".gitignore"), contents: GITIGNORE.to_string() });
    let src = join(dir, "src");
    files.push(ScaffoldFile { path: join(src.as_str(), "main.c"), contents: MAIN_C.to_string() });
    files
}

/// The detail of the status line announcing a new package.
pub fn created_message(name: &str) -> (message: String)
    ensures
        message@ == "binary `"@ + name@ + "` package"@,
{
    let mut message = String::from_str("binary `");
    message.append(name);
    message.append("` package");
    message
}

/// A valid package name is safe as a file name and a shell word: it has no
/// `/` or white space, does not start with `-`, is not `.` or `..`, and
/// joined onto a directory it names an entry directly inside it.
pub proof fn law_valid_names_are_safe(name: Seq<char>, dir: Seq<char>)
    requires
        spec_valid_name(name),
    ensures
        forall|i: int| 0 <= i < name.len() ==> #[trigger] name[i] != '/' && !spec_is_whitespace(name[i]),
        name[0] != '-',
        name != seq!['.'] && name != seq!['.', '.'],
        dir.len() > 0 && dir.last() != '/' ==> spec_join(dir, name) == dir + seq!['/'] + name,
{
    assert forall|i: int| 0 <= i < name.len() implies #[trigger] name[i] != '/' && !spec_is_whitespace(
        name[i],
    ) by {
        if i > 0 {
            assert(is_ascii_letter_or_digit(name[i]) || name[i] == '_' || name[i] == '-');
        }
    }
    if name == seq!['.'] || name == seq!['.', '.'] {
        assert(name[0] == '.');
    }
}

/// The names `validate_name` accepts are exactly these: a first character
/// that is an ASCII letter of either case or `_`, followed by any number of
/// ASCII letters of either case, ASCII digits, `_` and `-`.
pub proof fn law_accepted_names(name: Seq<char>)
    ensures
        spec_valid_name(name) <==> {
            &&& name.len() > 0
            &&& (('a' <= name[0] && name[0] <= 'z') || ('A' <= name[0] && name[0] <= 'Z')
                || name[0] == '_')
            &&& forall|i: int|
                1 <= i < name.len() ==> ('a' <= #[trigger] name[i] && name[i] <= 'z') || ('A'
                    <= name[i] && name[i] <= 'Z') || ('0' <= name[i] && name[i] <= '9') || name[i]
                    == '_' || name[i] == '-'
        },
{
}

/// The manifest of a new project names the package exactly as given: after
/// `[package]`, a line break and `name = "`, the text runs through `name`
/// itself up to the next `"`, and the version and C standard follow.
pub proof fn law_manifest_names_the_package_as_given(name: Seq<char>)
    requires
        spec_valid_name(name),
    ensures
        ({
            let text = spec_manifest_template(name);
            let start = "[package]\nname = \""@.len() as int;
            &&& text.take(start) == "[package]\nname = \""@
            &&& text.subrange(start, start + name.len()) == name
            &&& forall|i: int| start <= i < start + name.len() ==> #[trigger] text[i] != '"'
            &&& text[start + name.len()] == '"'
            &&& text.skip(start + name.len()) == "\"\nversion = \"0.1.0\"\nstd = \"c17\"\n"@
        }),
{
    reveal_strlit("[package]\nname = \"");
    reveal_strlit("\"\nversion = \"0.1.0\"\nstd = \"c17\"\n");
    let pre = "[package]\nname = \""@;
    let post = "\"\nversion = \"0.1.0\"\nstd = \"c17\"\n"@;
    let text = spec_manifest_template(name);
    let start = pre.len() as int;
    assert(text == pre + name + post);
    assert(text.take(start) =~= pre);
    assert(text.subrange(start, start + name.len()) =~= name);
    assert(text.skip(start + name.len()) =~= post);
    assert forall|i: int| start <= i < start + name.len() implies #[trigger] text[i] != '"' by {
        assert(text[i] == name[i - start]);
        if i - start > 0 {
            assert(is_ascii_letter_or_digit(name[i - start]) || name[i - start] == '_' || name[i - start] == '-');
        }
    }
    assert(text[start + name.len()] == post[0]);
}

} // verus!
