//! Build profiles: which flags and which `target/` subdirectory to use.

use vstd::prelude::*;

verus! {

/// Which set of compiler flags and which `target/` subdirectory to use.
#[derive(Clone, Copy, PartialEq, Eq, Structural, Debug)]
pub enum Profile {
    Dev,
    Release,
}

/// Name of the directory under `target/` for a profile.
pub open spec fn spec_dir_name(profile: Profile) -> Seq<char> {
    match profile {
        Profile::Dev => seq!['d', 'e', 'b', 'u', 'g'],
        Profile::Release => seq!['r', 'e', 'l', 'e', 'a', 's', 'e'],
    }
}

/// Profile-specific compiler flags.
pub open spec fn spec_profile_flags(profile: Profile) -> Seq<Seq<char>> {
    match profile {
        Profile::Dev => seq![seq!['-', 'g'], seq!['-', 'O', '0']],
        Profile::Release => seq![seq!['-', 'O', '2'], seq!['-', 'D', 'N', 'D', 'E', 'B', 'U', 'G']],
    }
}

impl Profile {
    pub fn from_release_flag(release: bool) -> (profile: Self)
        ensures
            profile == (if release { Profile::Release } else { Profile::Dev }),
    {
        if release {
            Profile::Release
        } else {
            Profile::Dev
        }
    }

    /// Name of the directory under `target/` that holds this profile's artifacts.
    pub fn dir_name(self) -> (name: &'static str)
        ensures
            name@ == spec_dir_name(self),
    {
        match self {
            Profile::Dev => {
                proof {
                    reveal_strlit("debug");
                }
                "debug"
            },
            Profile::Release => {
                proof {
                    reveal_strlit("release");
                }
                "release"
            },
        }
    }

    /// Profile-specific compiler flags.
    pub fn flags(self) -> (flags: &'static [&'static str])
        ensures
            flags@.len() == spec_profile_flags(self).len(),
            forall|i: int| 0 <= i < flags@.len() ==> #[trigger] flags@[i]@ == spec_profile_flags(self)[i],
    {
        match self {
            Profile::Dev => {
                proof {
                    reveal_strlit("-g");
                    reveal_strlit("-O0");
                }
                &["-g", "-O0"]
            },
            Profile::Release => {
                proof {
                    reveal_strlit("-O2");
                    reveal_strlit("-DNDEBUG");
                }
                &["-O2", "-DNDEBUG"]
            },
        }
    }
}

} // verus!
