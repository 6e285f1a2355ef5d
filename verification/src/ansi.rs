use vstd::prelude::*;

use crate::vcs::VcsType;

verus! {

pub const RESET: &'static str = "\x1b[0m";
pub const BOLD: &'static str = "\x1b[1m";
pub const UNDERLINE: &'static str = "\x1b[4m";
pub const UNDERLINE_OFF: &'static str = "\x1b[24m";

pub const WHITE: &'static str = "\x1b[37m";
pub const YELLOW: &'static str = "\x1b[33m";
pub const RED: &'static str = "\x1b[31m";
pub const LIGHT_RED: &'static str = "\x1b[91m";
pub const BLUE: &'static str = "\x1b[34m";
pub const GREEN: &'static str = "\x1b[32m";
pub const LIGHT_GREEN: &'static str = "\x1b[92m";

/// The foreground colour that marks the root of a working copy of `kind`.
pub open spec fn spec_fg_for_vcs(kind: VcsType) -> &'static str {
    match kind {
        VcsType::Jj => YELLOW,
        VcsType::Git => RED,
        VcsType::Repo => WHITE,
    }
}

/// The colour of a working-copy root in the rendered path.
pub fn fg_for_vcs(kind: VcsType) -> (color: &'static str)
    ensures
        color == spec_fg_for_vcs(kind),
{
    match kind {
        VcsType::Jj => YELLOW,
        VcsType::Git => RED,
        VcsType::Repo => WHITE,
    }
}

} // verus!
