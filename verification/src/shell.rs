//! The chrome around the scene: what the editor last had to say.
use vstd::prelude::*;
use vstd::string::StringExecFns;

use crate::text::{contains, contains_text, join, lowercase, to_lowercase};

verus! {

/// The foot's status line: the project's status, and the scene's after it
/// when there is one and no project search is running.
pub open spec fn spec_chatter(project_status: Seq<char>, busy: bool, scene_status: Seq<char>) -> Seq<char> {
    if busy || scene_status.len() == 0 {
        project_status
    } else {
        project_status + " · "@ + scene_status
    }
}

/// The foot's status line.
pub fn chatter(project_status: &str, busy: bool, scene_status: &str) -> (line: String)
    ensures
        line@ == spec_chatter(project_status@, busy, scene_status@),
{
    if busy || crate::text::chars_of(scene_status).len() == 0 {
        String::from_str(project_status)
    } else {
        let head = join(project_status, " · ");
        join(head.as_str(), scene_status)
    }
}

/// Whether a status line reports trouble: it mentions a failure or an
/// error, in any case.
pub open spec fn spec_is_warning(line: Seq<char>) -> bool {
    contains_text(lowercase(line), "fail"@) || contains_text(lowercase(line), "error"@)
}

/// Whether a status line reports trouble.
pub fn is_warning(line: &str) -> (warning: bool)
    ensures
        warning == spec_is_warning(line@),
{
    let lowered = to_lowercase(line);
    contains(lowered.as_str(), "fail") || contains(lowered.as_str(), "error")
}

/// The glyph in front of the status line: a warning sign for trouble, an
/// information mark otherwise.
pub fn status_glyph(warning: bool) -> (glyph: char)
    ensures
        glyph == if warning { '\u{E4E0}' } else { '\u{E2CE}' },
{
    if warning {
        '\u{E4E0}'
    } else {
        '\u{E2CE}'
    }
}

} // verus!
