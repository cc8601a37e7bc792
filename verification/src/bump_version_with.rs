//! Computing, writing and storing the next version of a manifest.

use crate::text::joined_text;
use crate::text_set;
use crate::update_type::UpdateType;
use crate::version;
use crate::version::{next_version_or_default, InvalidVersion};
use vstd::prelude::*;
use vstd::string::*;

verus! {

/// A bump that failed: the version cannot be bumped, or the writer failed.
#[derive(Debug)]
pub enum BumpError<E> {
    Version { path: String, invalid: InvalidVersion },
    Write(E),
}

/// What to tell the user of a manifest whose version cannot be bumped.
pub open spec fn version_error_text(path: Seq<char>, version: Seq<char>) -> Seq<char> {
    "Failed to compute next version for "@ + path + ": "@ + ("Invalid version: "@ + version)
}

/// What to tell the user of a manifest whose version cannot be bumped.
pub fn version_error_message(path: &str, invalid: &InvalidVersion) -> (message: String)
    ensures
        message@ == version_error_text(path@, invalid.version@),
{
    let mut message: String = joined_text("Failed to compute next version for ", path);
    message.append(": ");
    message.append(invalid.message().as_str());
    message
}

/// The text of a stored version, or the default where there is none.
pub open spec fn stored_version(version: Option<String>) -> Seq<char> {
    match version {
        Some(v) => v@,
        None => version::DEFAULT_VERSION@,
    }
}

/// `outcome` is one that `write` can have for the text.
pub open spec fn is_outcome<E>(
    write: impl FnOnce(&str) -> Result<(), E>,
    text: Seq<char>,
    outcome: Result<(), E>,
) -> bool {
    exists|argument: &str|
        argument@ == text && #[trigger] call_ensures(write, (argument,), outcome)
}

/// Hands the next version to `write`, and stores it once it is written. Where
/// there is no next version `write` is not called.
pub fn bump_version_with<E, W: FnOnce(&str) -> Result<(), E>>(
    version: &mut Option<String>,
    path: &str,
    update_type: UpdateType,
    write: W,
) -> (result: Result<(), BumpError<E>>)
    requires
        forall|text: &str|
            version::next_version_text(stored_version(*old(version)), update_type) == Some(text@)
                ==> #[trigger] call_requires(write, (text,)),
    ensures
        match result {
            Ok(_) => {
                let next = version::next_version_text(stored_version(*old(version)), update_type);
                &&& next is Some
                &&& is_outcome(write, next->0, Ok(()))
                &&& text_set::optional_view(*final(version)) == next
            },
            Err(BumpError::Version { path: p, invalid }) => {
                &&& version::next_version_text(stored_version(*old(version)), update_type) is None
                &&& p@ == path@
                &&& invalid.version@ == stored_version(*old(version))
                &&& *final(version) == *old(version)
            },
            Err(BumpError::Write(error)) => {
                let next = version::next_version_text(stored_version(*old(version)), update_type);
                &&& next is Some
                &&& is_outcome(write, next->0, Err(error))
                &&& *final(version) == *old(version)
            },
        },
{
    let current: Option<&str> = match version {
        Some(v) => Some(v.as_str()),
        None => None,
    };
    let next: String = match next_version_or_default(current, update_type) {
        Ok(next) => next,
        Err(invalid) => {
            return Err(BumpError::Version { path: path.to_string(), invalid });
        },
    };
    match write(next.as_str()) {
        Ok(done) => {
            proof {
                assert(done == ());
            }
            *version = Some(next);
            Ok(())
        },
        Err(error) => Err(BumpError::Write(error)),
    }
}

} // verus!
