//! Editor integration: teaching VS Code to flush its buffers before a build.
//!
//! `cman` cannot reach into an editor and save its unsaved work, so the next
//! best thing is to hand VS Code a setting that makes it save on its own the
//! moment focus leaves the window — which is exactly what happens when you
//! click over to a terminal to type `cman build`.

use vstd::prelude::*;

use crate::paths::{join, spec_join};

verus! {

/// Set this to any non-empty value to stop `cman` writing editor config.
pub const OPT_OUT_VAR: &'static str = "CMAN_NO_EDITOR_SETUP";

pub const SETTINGS: &'static str = "{\n  \"files.autoSave\": \"onFocusChange\"\n}\n";

/// Whether the user opted out, given the value of `CMAN_NO_EDITOR_SETUP`.
pub fn opted_out(value: Option<&str>) -> (out: bool)
    ensures
        out == match value {
            Some(v) => v@.len() > 0,
            None => false,
        },
{
    match value {
        Some(v) => !v.is_empty(),
        None => false,
    }
}

/// The directory of the VS Code settings of the project at `root`.
pub fn settings_dir(root: &str) -> (dir: String)
    ensures
        dir@ == spec_join(root@, ".vscode"@),
{
    join(root, ".vscode")
}

/// The VS Code settings file of the project at `root`.
pub fn settings_path(root: &str) -> (path: String)
    ensures
        path@ == spec_join(spec_join(root@, ".vscode"@), "settings.json"@),
{
    join(settings_dir(root).as_str(), "settings.json")
}

/// Whether to write the settings file: not when the user opted out, and not
/// when the project has settings of its own, which are left strictly alone.
pub fn should_write_settings(opted_out: bool, settings_exist: bool) -> (write: bool)
    ensures
        write == (!opted_out && !settings_exist),
{
    !opted_out && !settings_exist
}

} // verus!
