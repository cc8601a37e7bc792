//! Showing what an update does to a version.

use crate::text::joined_text3;
use crate::update_type::UpdateType;
use crate::version;
use crate::version::{format_version_display, next_version_or_default, InvalidVersion};
use vstd::prelude::*;
use vstd::string::*;

verus! {

/// The current version and the next one.
pub open spec fn update_display(current: Seq<char>, next: Seq<char>) -> Seq<char> {
    current + " → v"@ + next
}

/// The current version and the one that the update leads to.
pub fn display_update(current_version: Option<&str>, update_type: UpdateType) -> (result: Result<
    String,
    InvalidVersion,
>)
    ensures
        ({
            let next = version::next_version_text(
                version::version_or_default(current_version),
                update_type,
            );
            match result {
                Ok(display) => next is Some && display@ == update_display(
                    version::version_display(current_version),
                    next->0,
                ),
                Err(invalid) => next is None && invalid.version@ == version::version_or_default(
                    current_version,
                ),
            }
        }),
{
    let next: String = match next_version_or_default(current_version, update_type) {
        Ok(next) => next,
        Err(invalid) => {
            return Err(invalid);
        },
    };
    let current: String = format_version_display(current_version);
    Ok(joined_text3(current.as_str(), " → v", next.as_str()))
}

/// An update is shown as the version it starts from, an arrow, and the version it
/// leads to. Without a version it starts from `0.0.0`, and shows `unknown`.
pub proof fn updates_show_both_versions(current: &str, next: Seq<char>)
    ensures
        update_display(version::version_display(Some(current)), next) == "v"@ + current@ + " → v"@
            + next,
        update_display(version::version_display(None), next) == "unknown → v"@ + next,
        version::version_or_default(Some(current)) == current@,
        version::version_or_default(None) == "0.0.0"@,
{
    reveal_strlit("unknown");
    reveal_strlit(" → v");
    reveal_strlit("unknown → v");
    assert("unknown"@ + " → v"@ =~= "unknown → v"@);
}

} // verus!
