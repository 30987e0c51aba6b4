//! `cman run`: the exit status it passes on.

use vstd::prelude::*;

verus! {

/// The exit status `cman run` reports for the program's own: its exit code
/// clamped to `0..=255`, or failure (1) when it was killed by a signal and
/// has no exit code.
pub fn exit_status(code: Option<i32>) -> (status: u8)
    ensures
        status == match code {
            Some(c) => if c < 0 {
                0
            } else if c > 255 {
                255
            } else {
                c as u8
            },
            None => 1,
        },
{
    match code {
        Some(c) => if c < 0 {
            0
        } else if c > 255 {
            255
        } else {
            c as u8
        },
        None => 1,
    }
}

} // verus!
