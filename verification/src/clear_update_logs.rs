//! Clearing changepack logs once their changes are applied.

use crate::applied_change_spans;
use crate::applied_change_spans::{remove_applied_change_spans, SpanError};
use crate::find_project_dirs;
use crate::find_project_dirs::{has_extension_ignore_ascii_case, join_path};
use crate::json;
use crate::json::{object_keys, parse_value, value_member};
use crate::paths;
use crate::text;
use crate::text::{decimal_text, joined_text3, starts_with_text};
use crate::text_set;
use serde_json::Value;
use vstd::prelude::*;
use vstd::string::*;
use vstd::utf8::*;

verus! {

/// What the name of a changepack log begins with.
pub const LOG_PREFIX: &'static str = "changepack_log_";

/// The extension of a changepack log.
pub const LOG_EXTENSION: &'static str = "json";

/// An entry of the directory that holds the logs.
#[derive(Debug)]
pub struct DirEntry {
    pub name: String,
    pub is_file: bool,
}

/// The entry is a changepack log.
pub open spec fn is_log(entry: DirEntry) -> bool {
    entry.is_file && LOG_PREFIX@.is_prefix_of(entry.name@) && find_project_dirs::has_extension(
        paths::components(entry.name@),
        LOG_EXTENSION@,
    )
}

/// The paths of the changepack logs among the entries, in order.
pub open spec fn log_paths(dir: Seq<char>, entries: Seq<DirEntry>) -> Seq<Seq<char>>
    decreases entries.len(),
{
    if entries.len() == 0 {
        Seq::empty()
    } else {
        let earlier = log_paths(dir, entries.drop_last());
        if is_log(entries.last()) {
            earlier.push(find_project_dirs::joined_path(dir, entries.last().name@))
        } else {
            earlier
        }
    }
}

/// The paths of the changepack logs among the entries of a directory.
pub fn collect_changepack_log_paths(changepacks_dir: &str, entries: &Vec<DirEntry>) -> (logs: Vec<
    String,
>)
    ensures
        paths::views(logs@) == log_paths(changepacks_dir@, entries@),
{
    let mut logs: Vec<String> = Vec::new();
    let mut i: usize = 0;
    proof {
        assert(paths::views(logs@) =~= Seq::empty());
    }
    while i < entries.len()
        invariant
            i <= entries@.len(),
            paths::views(logs@) == log_paths(changepacks_dir@, entries@.take(i as int)),
        decreases entries@.len() - i,
    {
        let ghost earlier = paths::views(logs@);
        proof {
            assert(entries@.take(i as int + 1).drop_last() =~= entries@.take(i as int));
        }
        let name: &str = entries[i].name.as_str();
        if entries[i].is_file && starts_with_text(name, LOG_PREFIX)
            && has_extension_ignore_ascii_case(name, LOG_EXTENSION) {
            let path: String = join_path(changepacks_dir, name);
            logs.push(path);
            proof {
                assert(paths::views(logs@) =~= earlier.push(logs@.last()@));
            }
        }
        i = i + 1;
    }
    proof {
        assert(entries@.take(i as int) =~= entries@);
    }
    logs
}

/// What came of removing a file.
#[derive(Debug)]
pub struct Removal {
    pub path: String,
    pub error: Option<String>,
}

/// The removals that failed, in order, each with its path and why.
pub open spec fn failures(removals: Seq<Removal>) -> Seq<Seq<char>>
    decreases removals.len(),
{
    if removals.len() == 0 {
        Seq::empty()
    } else {
        let earlier = failures(removals.drop_last());
        match removals.last().error {
            Some(error) => earlier.push(removals.last().path@ + ": "@ + error@),
            None => earlier,
        }
    }
}

/// The texts one behind the other, with semicolons between them.
pub open spec fn listed(texts: Seq<Seq<char>>) -> Seq<char>
    decreases texts.len(),
{
    if texts.len() == 0 {
        Seq::empty()
    } else if texts.len() == 1 {
        texts[0]
    } else {
        listed(texts.drop_last()) + "; "@ + texts.last()
    }
}

/// What to tell the user where logs could not be removed.
pub open spec fn removal_text(failed: Seq<Seq<char>>) -> Seq<char> {
    "Failed to remove "@ + text::decimal(failed.len()) + " update log(s): "@ + listed(failed)
}

/// A removal fails for every text in the list of failures.
proof fn lemma_failures(removals: Seq<Removal>)
    ensures
        failures(removals).len() <= removals.len(),
        failures(removals).len() == 0 <==> forall|i: int|
            0 <= i < removals.len() ==> (#[trigger] removals[i]).error is None,
    decreases removals.len(),
{
    if removals.len() > 0 {
        let less = removals.drop_last();
        lemma_failures(less);
        assert forall|i: int| 0 <= i < less.len() implies less[i] == #[trigger] removals[i] by {}
        if failures(removals).len() == 0 {
            assert forall|i: int| 0 <= i < removals.len() implies (
            #[trigger] removals[i]).error is None by {
                if i < less.len() {
                    assert(less[i] == removals[i]);
                }
            }
        }
        if forall|i: int| 0 <= i < removals.len() ==> (#[trigger] removals[i]).error is None {
            assert(removals[removals.len() - 1].error is None);
            assert forall|i: int| 0 <= i < less.len() implies (#[trigger] less[i]).error is None by {
                assert(removals[i].error is None);
            }
        }
    }
}

/// Reports on the removal of all logs: it succeeds where every removal did, and
/// else lists those that failed.
pub fn clear_update_logs(removals: &Vec<Removal>) -> (result: Result<(), String>)
    ensures
        match result {
            Ok(_) => forall|i: int|
                0 <= i < removals@.len() ==> (#[trigger] removals@[i]).error is None,
            Err(message) => (exists|i: int|
                0 <= i < removals@.len() && (#[trigger] removals@[i]).error is Some) && message@
                == removal_text(failures(removals@)),
        },
{
    let mut details: String = String::new();
    let mut count: usize = 0;
    let mut i: usize = 0;
    proof {
        assert(details@ =~= Seq::empty());
    }
    while i < removals.len()
        invariant
            count <= i <= removals@.len(),
            count == failures(removals@.take(i as int)).len(),
            details@ == listed(failures(removals@.take(i as int))),
        decreases removals@.len() - i,
    {
        let ghost earlier = failures(removals@.take(i as int));
        proof {
            assert(removals@.take(i as int + 1).drop_last() =~= removals@.take(i as int));
        }
        match &removals[i].error {
            Some(error) => {
                let ghost before = details@;
                let detail: String = joined_text3(removals[i].path.as_str(), ": ", error.as_str());
                if count > 0 {
                    details.append("; ");
                }
                details.append(detail.as_str());
                count = count + 1;
                proof {
                    let after = earlier.push(detail@);
                    assert(after.drop_last() =~= earlier);
                    if earlier.len() == 0 {
                        assert(details@ =~= detail@);
                    }
                    assert(details@ =~= listed(after));
                }
            },
            None => {},
        }
        i = i + 1;
    }
    proof {
        assert(removals@.take(i as int) =~= removals@);
        lemma_failures(removals@);
    }
    if count == 0 {
        Ok(())
    } else {
        let number: String = decimal_text(count as u64);
        let mut message: String = joined_text3(
            "Failed to remove ",
            number.as_str(),
            " update log(s): ",
        );
        message.append(details.as_str());
        Err(message)
    }
}

/// A changepack log as it was read.
#[derive(Debug)]
pub struct LogBody {
    pub path: String,
    pub content: String,
}

/// What becomes of a log.
pub enum LogFate {
    /// It stays as it is.
    Keep,
    /// It is removed.
    Remove,
    /// It gets the bytes.
    Rewrite(Seq<u8>),
    /// It is not JSON.
    Unparsable(Seq<char>),
    /// It cannot be rewritten.
    Unwritable(applied_change_spans::SpanFault),
}

/// Whether a change of the log was applied.
pub open spec fn has_applied(keys: Set<Seq<char>>, applied: Seq<String>) -> bool {
    exists|key: Seq<char>| #[trigger] keys.contains(key) && paths::lists_place(applied, key)
}

/// Whether a change of the log is still to be applied.
pub open spec fn has_unapplied(keys: Set<Seq<char>>, applied: Seq<String>) -> bool {
    exists|key: Seq<char>| #[trigger] keys.contains(key) && !paths::lists_place(applied, key)
}

/// What becomes of a log: it is removed once all its changes are applied, and
/// rewritten without those that are where some are.
pub open spec fn log_fate(content: Seq<char>, applied: Seq<String>) -> LogFate {
    match json::parsed_value(content) {
        Err(message) => LogFate::Unparsable(message),
        Ok(nodes) => {
            let changes = json::member(nodes, "changes"@);
            let keys = json::member_keys(changes);
            if !json::has_member(nodes, "changes"@) || !json::is_object(changes) {
                LogFate::Keep
            } else if !has_unapplied(keys, applied) {
                LogFate::Remove
            } else if !has_applied(keys, applied) {
                LogFate::Keep
            } else {
                match applied_change_spans::without_applied(encode_utf8(content), applied) {
                    Ok(bytes) => LogFate::Rewrite(bytes),
                    Err(fault) => LogFate::Unwritable(fault),
                }
            }
        },
    }
}

/// Why logs cannot be cleared.
#[derive(Debug)]
pub enum ClearError {
    /// A log is not JSON.
    Unparsable { path: String, message: String },
    /// A log cannot be rewritten.
    Unwritable { path: String, error: SpanError },
}

impl ClearError {
    /// What to tell the user.
    pub open spec fn text(self) -> Seq<char> {
        match self {
            ClearError::Unparsable { path, message } => "Failed to parse update log "@ + path@
                + ": "@ + message@,
            ClearError::Unwritable { path, error } => "Failed to rewrite update log "@ + path@
                + ": "@ + applied_change_spans::fault_message(error@),
        }
    }

    /// What to tell the user.
    pub fn message(&self) -> (text: String)
        ensures
            text@ == self.text(),
    {
        match self {
            ClearError::Unparsable { path, message } => {
                let mut text: String = joined_text3(
                    "Failed to parse update log ",
                    path.as_str(),
                    ": ",
                );
                text.append(message.as_str());
                text
            },
            ClearError::Unwritable { path, error } => {
                let mut text: String = joined_text3(
                    "Failed to rewrite update log ",
                    path.as_str(),
                    ": ",
                );
                text.append(error.message().as_str());
                text
            },
        }
    }
}

/// What is to be done with one log.
#[derive(Debug)]
pub enum LogAction {
    Keep,
    Remove,
    Rewrite(String),
}

/// The action is what becomes of the log.
pub open spec fn is_action(action: LogAction, fate: LogFate) -> bool {
    match action {
        LogAction::Keep => fate is Keep,
        LogAction::Remove => fate is Remove,
        LogAction::Rewrite(text) => fate == LogFate::Rewrite(encode_utf8(text@)),
    }
}

/// The error says why the log cannot be cleared.
pub open spec fn is_clear_fault(error: ClearError, path: Seq<char>, fate: LogFate) -> bool {
    match error {
        ClearError::Unparsable { path: at, message } => at@ == path && fate
            == LogFate::Unparsable(message@),
        ClearError::Unwritable { path: at, error } => at@ == path && fate == LogFate::Unwritable(
            error@,
        ),
    }
}

/// Whether one of the keys is applied, and whether one is not.
fn classify_keys(keys: &Vec<String>, applied_paths: &Vec<String>) -> (found: (bool, bool))
    ensures
        found.0 == has_applied(text_set::text_set(keys@), applied_paths@),
        found.1 == has_unapplied(text_set::text_set(keys@), applied_paths@),
{
    let ghost all = text_set::text_set(keys@);
    let mut applied: bool = false;
    let mut unapplied: bool = false;
    let mut i: usize = 0;
    while i < keys.len()
        invariant
            i <= keys@.len(),
            all == text_set::text_set(keys@),
            applied ==> has_applied(all, applied_paths@),
            unapplied ==> has_unapplied(all, applied_paths@),
            forall|k: int|
                0 <= k < i ==> (paths::lists_place(applied_paths@, (#[trigger] keys@[k])@)
                    ==> applied) && (!paths::lists_place(applied_paths@, keys@[k]@) ==> unapplied),
        decreases keys@.len() - i,
    {
        proof {
            assert(all.contains(keys@[i as int]@));
        }
        if paths::holds_path(applied_paths, keys[i].as_str()) {
            applied = true;
        } else {
            unapplied = true;
        }
        i = i + 1;
    }
    (applied, unapplied)
}

/// Decides what is to be done with one log.
pub fn classify_log(path: &str, content: &str, applied_paths: &Vec<String>) -> (result: Result<
    LogAction,
    ClearError,
>)
    ensures
        match result {
            Ok(action) => is_action(action, log_fate(content@, applied_paths@)),
            Err(error) => is_clear_fault(error, path@, log_fate(content@, applied_paths@)),
        },
{
    let value: Value = match parse_value(content) {
        Ok(value) => value,
        Err(message) => {
            return Err(ClearError::Unparsable { path: path.to_string(), message });
        },
    };
    let changes: &Value = match value_member(&value, "changes") {
        Some(changes) => changes,
        None => {
            return Ok(LogAction::Keep);
        },
    };
    let keys: Vec<String> = match object_keys(changes) {
        Some(keys) => keys,
        None => {
            return Ok(LogAction::Keep);
        },
    };
    let (applied, unapplied): (bool, bool) = classify_keys(&keys, applied_paths);
    if !unapplied {
        return Ok(LogAction::Remove);
    }
    if !applied {
        return Ok(LogAction::Keep);
    }
    match remove_applied_change_spans(content, applied_paths) {
        Ok(text) => Ok(LogAction::Rewrite(text)),
        Err(error) => Err(ClearError::Unwritable { path: path.to_string(), error }),
    }
}

/// What is to be done with all logs.
#[derive(Debug)]
pub struct ClearPlan {
    pub removals: Vec<String>,
    pub rewrites: Vec<LogBody>,
}

/// A log to be rewritten, with its bytes.
pub struct RewriteView {
    pub path: Seq<char>,
    pub bytes: Seq<u8>,
}

/// The logs to be rewritten, with their bytes.
pub open spec fn rewrite_views(rewrites: Seq<LogBody>) -> Seq<RewriteView> {
    rewrites.map_values(
        |log: LogBody| RewriteView { path: log.path@, bytes: encode_utf8(log.content@) },
    )
}

/// The logs to be removed, in order.
pub open spec fn removed_logs(logs: Seq<LogBody>, applied: Seq<String>) -> Seq<Seq<char>>
    decreases logs.len(),
{
    if logs.len() == 0 {
        Seq::empty()
    } else {
        let earlier = removed_logs(logs.drop_last(), applied);
        if log_fate(logs.last().content@, applied) is Remove {
            earlier.push(logs.last().path@)
        } else {
            earlier
        }
    }
}

/// The logs to be rewritten, in order.
pub open spec fn rewritten_logs(logs: Seq<LogBody>, applied: Seq<String>) -> Seq<RewriteView>
    decreases logs.len(),
{
    if logs.len() == 0 {
        Seq::empty()
    } else {
        let earlier = rewritten_logs(logs.drop_last(), applied);
        match log_fate(logs.last().content@, applied) {
            LogFate::Rewrite(bytes) => earlier.push(
                RewriteView { path: logs.last().path@, bytes },
            ),
            _ => earlier,
        }
    }
}

/// The log cannot be cleared.
pub open spec fn is_unclearable(log: LogBody, applied: Seq<String>) -> bool {
    let fate = log_fate(log.content@, applied);
    fate is Unparsable || fate is Unwritable
}

/// The first log that cannot be cleared.
pub open spec fn is_first_unclearable(logs: Seq<LogBody>, applied: Seq<String>, i: int) -> bool {
    0 <= i < logs.len() && is_unclearable(logs[i], applied) && forall|k: int|
        0 <= k < i ==> !is_unclearable(#[trigger] logs[k], applied)
}

/// Plans the clearing of the logs whose changes were applied. A log that cannot
/// be cleared keeps everything as it is.
pub fn clear_applied_update_logs(logs: &Vec<LogBody>, applied_paths: &Vec<String>) -> (result:
    Result<ClearPlan, ClearError>)
    ensures
        match result {
            Ok(plan) => (forall|k: int|
                0 <= k < logs@.len() ==> !is_unclearable(#[trigger] logs@[k], applied_paths@))
                && paths::views(plan.removals@) == removed_logs(logs@, applied_paths@)
                && rewrite_views(plan.rewrites@) == rewritten_logs(logs@, applied_paths@),
            Err(error) => exists|i: int| #[trigger]
                is_first_unclearable(logs@, applied_paths@, i) && is_clear_fault(
                    error,
                    logs@[i].path@,
                    log_fate(logs@[i].content@, applied_paths@),
                ),
        },
{
    let mut plan: ClearPlan = ClearPlan { removals: Vec::new(), rewrites: Vec::new() };
    let mut i: usize = 0;
    proof {
        assert(paths::views(plan.removals@) =~= Seq::empty());
        assert(rewrite_views(plan.rewrites@) =~= Seq::empty());
    }
    while i < logs.len()
        invariant
            i <= logs@.len(),
            forall|k: int| 0 <= k < i ==> !is_unclearable(#[trigger] logs@[k], applied_paths@),
            paths::views(plan.removals@) == removed_logs(logs@.take(i as int), applied_paths@),
            rewrite_views(plan.rewrites@) == rewritten_logs(
                logs@.take(i as int),
                applied_paths@,
            ),
        decreases logs@.len() - i,
    {
        let ghost removed = paths::views(plan.removals@);
        let ghost rewritten = rewrite_views(plan.rewrites@);
        proof {
            assert(logs@.take(i as int + 1).drop_last() =~= logs@.take(i as int));
        }
        match classify_log(logs[i].path.as_str(), logs[i].content.as_str(), applied_paths) {
            Ok(LogAction::Keep) => {},
            Ok(LogAction::Remove) => {
                plan.removals.push(logs[i].path.clone());
                proof {
                    assert(paths::views(plan.removals@) =~= removed.push(logs@[i as int].path@));
                }
            },
            Ok(LogAction::Rewrite(content)) => {
                plan.rewrites.push(LogBody { path: logs[i].path.clone(), content });
                proof {
                    assert(rewrite_views(plan.rewrites@) =~= rewritten.push(
                        RewriteView {
                            path: logs@[i as int].path@,
                            bytes: encode_utf8(content@),
                        },
                    ));
                }
            },
            Err(error) => {
                proof {
                    assert(is_first_unclearable(logs@, applied_paths@, i as int));
                }
                return Err(error);
            },
        }
        i = i + 1;
    }
    proof {
        assert(logs@.take(i as int) =~= logs@);
    }
    Ok(plan)
}

/// Logs are told by their names: files that begin with `changepack_log_` and end
/// in `.json`, in any case.
pub proof fn logs_are_told_by_their_names(entry: DirEntry, stem: Seq<char>, ending: Seq<char>)
    requires
        stem.len() > 0,
        !stem.contains('/'),
        ending.len() > 0,
        !ending.contains('/'),
        !ending.contains('.'),
        entry.name@ == stem + seq!['.'] + ending,
    ensures
        is_log(entry) <==> entry.is_file && "changepack_log_"@.is_prefix_of(entry.name@)
            && ending.len() == 4 && (ending[0] == 'j' || ending[0] == 'J') && (ending[1] == 's'
            || ending[1] == 'S') && (ending[2] == 'o' || ending[2] == 'O') && (ending[3] == 'n'
            || ending[3] == 'N'),
{
    find_project_dirs::extensions_stand_behind_the_last_dot(stem, ending, "json"@);
    reveal_strlit("json");
    let wanted = "json"@;
    assert(wanted.len() == 4 && wanted[0] == 'j' && wanted[1] == 's' && wanted[2] == 'o'
        && wanted[3] == 'n');
    if ending.len() == 4 {
        let a = ending[0];
        let b = ending[1];
        let c = ending[2];
        let d = ending[3];
        assert((forall|i: int|
            0 <= i < ending.len() ==> (#[trigger] ending[i]) == wanted[i] || ('A' <= ending[i]
                <= 'Z' && (wanted[i] as int) == (ending[i] as int) + 32) || ('A' <= wanted[i] <= 'Z'
                && (ending[i] as int) == (wanted[i] as int) + 32)) <==> (a == 'j' || a == 'J') && (b
            == 's' || b == 'S') && (c == 'o' || c == 'O') && (d == 'n' || d == 'N'));
    }
}

/// The paths of the logs are those of the entries that are logs, below the
/// directory, in their order.
pub proof fn log_paths_are_those_of_the_logs(dir: Seq<char>, entries: Seq<DirEntry>)
    ensures
        log_paths(dir, entries) == entries.filter(
            |entry: DirEntry|
                entry.is_file && "changepack_log_"@.is_prefix_of(entry.name@)
                    && find_project_dirs::has_extension(
                    paths::components(entry.name@),
                    "json"@,
                ),
        ).map_values(|entry: DirEntry| find_project_dirs::joined_path(dir, entry.name@)),
    decreases entries.len(),
{
    let kept = |entry: DirEntry|
        entry.is_file && "changepack_log_"@.is_prefix_of(entry.name@)
            && find_project_dirs::has_extension(paths::components(entry.name@), "json"@);
    let path = |entry: DirEntry| find_project_dirs::joined_path(dir, entry.name@);
    reveal(Seq::filter);
    if entries.len() == 0 {
        assert(entries.filter(kept).map_values(path) =~= Seq::empty());
    } else {
        let earlier = entries.drop_last();
        let last = entries.last();
        log_paths_are_those_of_the_logs(dir, earlier);
        assert(is_log(last) == kept(last));
        if kept(last) {
            assert(earlier.filter(kept).push(last).map_values(path) =~= earlier.filter(
                kept,
            ).map_values(path).push(path(last)));
        }
    }
}

/// A removal that failed is told with its path and its error, behind those that
/// failed before it; the others are not told.
pub proof fn failed_removals_are_told(removals: Seq<Removal>, next: Removal)
    ensures
        failures(Seq::empty()) == Seq::<Seq<char>>::empty(),
        next.error is None ==> failures(removals.push(next)) == failures(removals),
        next.error is Some ==> failures(removals.push(next)) == failures(removals).push(
            next.path@ + ": "@ + next.error->0@,
        ),
        next.error is Some && failures(removals).len() > 0 ==> listed(
            failures(removals.push(next)),
        ) == listed(failures(removals)) + "; "@ + next.path@ + ": "@ + next.error->0@,
        next.error is Some && failures(removals).len() == 0 ==> listed(
            failures(removals.push(next)),
        ) == next.path@ + ": "@ + next.error->0@,
{
    assert(removals.push(next).drop_last() =~= removals);
    if next.error is Some {
        let told = next.path@ + ": "@ + next.error->0@;
        let list = failures(removals);
        assert(list.push(told).drop_last() =~= list);
        assert(list.push(told).last() == told);
        assert(listed(list) + "; "@ + told =~= listed(list) + "; "@ + next.path@ + ": "@
            + next.error->0@);
    }
}

} // verus!
