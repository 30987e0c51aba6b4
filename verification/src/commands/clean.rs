//! `cman clean`: which artifacts to delete, and what to report.

use vstd::prelude::*;

use crate::cli::{spec_dir_name, Profile};
use crate::manifest::Project;
use crate::paths::spec_join;
use crate::text::{decimal, spec_decimal};

verus! {

/// Everything removed lives under `target/`, which `cman` owns outright:
/// `--release` removes only `target/release`, otherwise all of `target/`.
pub fn clean_target(project: &Project, release: bool) -> (dir: String)
    ensures
        dir@ == if release {
            spec_join(spec_join(project.root@, "target"@), spec_dir_name(Profile::Release))
        } else {
            spec_join(project.root@, "target"@)
        },
{
    if release {
        project.profile_dir(Profile::Release)
    } else {
        project.target_dir()
    }
}

/// The detail of the status line after removing `files` files from `shown`.
pub fn removed_message(files: usize, shown: &str) -> (message: String)
    ensures
        message@ == spec_decimal(files as nat) + " file(s) from `"@ + shown@ + "`"@,
{
    let mut message = decimal(files);
    message.append(" file(s) from `");
    message.append(shown);
    message.append("`");
    message
}

} // verus!
