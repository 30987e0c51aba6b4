//! The ways a `cman` command can fail, and the message each one reports.

use vstd::prelude::*;

use crate::text::{decimal, spec_decimal, string_views};

verus! {

/// A failure of a `cman` command.
#[derive(Debug)]
pub enum CmanError {
    /// No `cman.toml` in the start directory or any of its ancestors.
    ManifestNotFound { start: String },
    /// The manifest at `manifest` has an empty `package.name`.
    EmptyPackageName { manifest: String },
    /// The project at `root` has no `src` directory.
    NoSrcDir { root: String },
    /// `src_dir` holds no `.c` file.
    NoSources { src_dir: String },
    /// A source file does not lie under the source directory.
    OutsideSrc { src: String, src_dir: String },
    /// A package name that cannot serve as a file name and a shell word.
    InvalidName { name: String },
    /// No package name can be read off the directory `dir`.
    CannotInferName { dir: String },
    /// `cman new` was pointed at something that exists and is not an empty
    /// directory.
    DestinationNotEmpty { dir: String },
    /// `cman init` was pointed at a directory that already has a manifest.
    AlreadyInitialized { dir: String },
    /// Some compilation units did not compile.
    CompileFailed { package: String, failed: Vec<String>, total: usize },
    /// Some compilation units did not pass the syntax check.
    CheckFailed { package: String, failed: Vec<String>, total: usize },
    /// The linker reported failure.
    LinkFailed,
}

/// `items` separated by `sep`, as `join` on a slice of strings writes them.
pub open spec fn spec_join_list(items: Seq<Seq<char>>, sep: Seq<char>) -> Seq<char>
    decreases items.len(),
{
    if items.len() == 0 {
        Seq::empty()
    } else if items.len() == 1 {
        items[0]
    } else {
        spec_join_list(items.drop_last(), sep) + sep + items.last()
    }
}

/// Join `items` with `sep` between them.
pub fn join_list(items: &Vec<String>, sep: &str) -> (s: String)
    ensures
        s@ == spec_join_list(string_views(items@), sep@),
{
    let mut s = String::new();
    let mut i: usize = 0;
    assert(string_views(items@).take(0) =~= Seq::<Seq<char>>::empty());
    while i < items.len()
        invariant
            i <= items.len(),
            s@ == spec_join_list(string_views(items@).take(i as int), sep@),
        decreases items.len() - i,
    {
        assert(string_views(items@).take(i + 1).drop_last() =~= string_views(items@).take(i as int));
        if i > 0 {
            s.append(sep);
        }
        s.append(items[i].as_str());
        i = i + 1;
    }
    assert(string_views(items@).take(items.len() as int) =~= string_views(items@));
    s
}

/// The summary line of a failed compile or check.
pub open spec fn spec_failure_summary(
    verb: Seq<char>,
    package: Seq<char>,
    failed: Seq<Seq<char>>,
    total: nat,
) -> Seq<char> {
    "could not "@ + verb + " `"@ + package + "` ("@ + spec_decimal(failed.len()) + " of "@
        + spec_decimal(total) + " file(s) failed: "@ + spec_join_list(failed, ", "@) + ")"@
}

/// The message a failure reports.
pub open spec fn spec_message(e: CmanError) -> Seq<char> {
    match e {
        CmanError::ManifestNotFound { start } => "could not find `cman.toml` in `"@ + start@
            + "` or any parent directory"@,
        CmanError::EmptyPackageName { manifest } => "`package.name` in `"@ + manifest@
            + "` must not be empty"@,
        CmanError::NoSrcDir { root } => "no `src` directory in `"@ + root@ + "`"@,
        CmanError::NoSources { src_dir } => "no `.c` files found under `"@ + src_dir@ + "`"@,
        CmanError::OutsideSrc { src, src_dir } => "`"@ + src@ + "` is outside `"@ + src_dir@
            + "`"@,
        CmanError::InvalidName { name } => "invalid package name `"@ + name@
            + "`: it must start with a letter or `_` and contain only letters, digits, `_` or `-`"@,
        CmanError::CannotInferName { dir } => "cannot infer a package name from `"@ + dir@
            + "`; pass --name"@,
        CmanError::DestinationNotEmpty { dir } => "destination `"@ + dir@
            + "` already exists and is not empty"@,
        CmanError::AlreadyInitialized { dir } => "`cman.toml` already exists in `"@ + dir@ + "`"@,
        CmanError::CompileFailed { package, failed, total } => spec_failure_summary(
            "compile"@,
            package@,
            string_views(failed@),
            total as nat,
        ),
        CmanError::CheckFailed { package, failed, total } => spec_failure_summary(
            "check"@,
            package@,
            string_views(failed@),
            total as nat,
        ),
        CmanError::LinkFailed => "linking failed"@,
    }
}

fn failure_summary(verb: &str, package: &String, failed: &Vec<String>, total: usize) -> (s: String)
    ensures
        s@ == spec_failure_summary(verb@, package@, string_views(failed@), total as nat),
{
    let mut s = String::from_str("could not ");
    s.append(verb);
    s.append(" `");
    s.append(package.as_str());
    s.append("` (");
    s.append(decimal(failed.len()).as_str());
    s.append(" of ");
    s.append(decimal(total).as_str());
    s.append(" file(s) failed: ");
    s.append(join_list(failed, ", ").as_str());
    s.append(")");
    s
}

/// Two strings with a third between them.
fn surround(before: &str, middle: &String, after: &str) -> (s: String)
    ensures
        s@ == before@ + middle@ + after@,
{
    let mut s = String::from_str(before);
    s.append(middle.as_str());
    s.append(after);
    s
}

impl CmanError {
    /// The message this failure reports to the user.
    pub fn message(&self) -> (m: String)
        ensures
            m@ == spec_message(*self),
    {
        match self {
            CmanError::ManifestNotFound { start } => surround(
                "could not find `cman.toml` in `",
                start,
                "` or any parent directory",
            ),
            CmanError::EmptyPackageName { manifest } => surround(
                "`package.name` in `",
                manifest,
                "` must not be empty",
            ),
            CmanError::NoSrcDir { root } => surround("no `src` directory in `", root, "`"),
            CmanError::NoSources { src_dir } => surround("no `.c` files found under `", src_dir, "`"),
            CmanError::OutsideSrc { src, src_dir } => {
                let mut s = surround("`", src, "` is outside `");
                s.append(src_dir.as_str());
                s.append("`");
                s
            },
            CmanError::InvalidName { name } => surround(
                "invalid package name `",
                name,
                "`: it must start with a letter or `_` and contain only letters, digits, `_` or `-`",
            ),
            CmanError::CannotInferName { dir } => surround(
                "cannot infer a package name from `",
                dir,
                "`; pass --name",
            ),
            CmanError::DestinationNotEmpty { dir } => surround(
                "destination `",
                dir,
                "` already exists and is not empty",
            ),
            CmanError::AlreadyInitialized { dir } => surround(
                "`cman.toml` already exists in `",
                dir,
                "`",
            ),
            CmanError::CompileFailed { package, failed, total } => failure_summary(
                "compile",
                package,
                failed,
                *total,
            ),
            CmanError::CheckFailed { package, failed, total } => failure_summary(
                "check",
                package,
                failed,
                *total,
            ),
            CmanError::LinkFailed => String::from_str("linking failed"),
        }
    }
}

} // verus!
