//! UI settings carried between runs.

use crate::paths::{base_dir, program_file, program_path};
use vstd::prelude::*;
use vstd::string::*;

verus! {

/// UI settings carried between runs: the preview layout and the results
/// row density. `None` means "not recorded" — the config default applies.
#[derive(Debug, PartialEq)]
pub struct SessionState {
    pub preview_layout: Option<String>,
    pub density: Option<String>,
}

impl Default for SessionState {
    fn default() -> (r: SessionState)
        ensures
            r.preview_layout is None,
            r.density is None,
    {
        SessionState { preview_layout: None, density: None }
    }
}

/// What the state file holds.
pub open spec fn session_file(preview_layout: Seq<char>, density: Seq<char>) -> Seq<char> {
    "preview_layout = \""@ + preview_layout + "\"\ndensity = \""@ + density + "\"\n"@
}

/// The text of the state file. A missing or damaged file stands for the default
/// state.
pub fn session_text(preview_layout: &str, density: &str) -> (r: String)
    ensures
        r@ == session_file(preview_layout@, density@),
{
    let mut out = "preview_layout = \"".to_owned();
    out.append(preview_layout);
    out.append("\"\ndensity = \"");
    out.append(density);
    out.append("\"\n");
    out
}

/// Where the look of the last session is: below `XDG_STATE_HOME` where that is set.
pub fn default_state_path(set: Option<&str>, home: Option<&str>) -> (r: String)
    ensures
        r@ == program_file(base_dir(set, home, ".local/state"@), "session.toml"@),
{
    program_path(set, home, ".local/state", "session.toml")
}

} // verus!
