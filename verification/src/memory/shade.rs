//! What the helper that registers schemas inside the game reports.

use crate::paths::string_of;
use crate::text::{chars_of, eq_ignore_case, lower_text};
use vstd::prelude::*;
use vstd::string::*;

verus! {

/// Whether the name of a connector is that of this backend.
pub fn is_shade_connector(name: Option<&str>) -> (yes: bool)
    ensures
        yes == (name is Some && lower_text(name->0@) == lower_text("shade"@)),
{
    match name {
        Some(value) => eq_ignore_case(value, "shade"),
        None => false,
    }
}

/// The prefix of an extended path.
pub open spec fn extended_prefix() -> Seq<char> {
    seq!['\\', '\\', '?', '\\']
}

/// A path without the prefix of an extended one.
pub open spec fn plain_path(path: Seq<char>) -> Seq<char> {
    if path.len() >= 4 && path.subrange(0, 4) == extended_prefix() {
        path.subrange(4, path.len() as int)
    } else {
        path
    }
}

/// The path in the form that the library loader takes: it refuses extended
/// paths.
pub fn injectable_dll_path(path: &str) -> (plain: String)
    ensures
        plain@ == plain_path(path@),
{
    let chars = chars_of(path);
    if chars.len() >= 4 && chars[0] == '\\' && chars[1] == '\\' && chars[2] == '?' && chars[3]
        == '\\' {
        assert(path@.subrange(0, 4) =~= extended_prefix());
        return string_of(&chars, 4, chars.len());
    }
    assert(path@.len() >= 4 && path@.subrange(0, 4) == extended_prefix() ==> {
        let head = path@.subrange(0, 4);
        head[0] == '\\' && head[1] == '\\' && head[2] == '?' && head[3] == '\\'
    });
    path.to_owned()
}

/// The helper's report.
#[derive(Debug)]
pub struct ShadeReport {
    pub ok: bool,
    pub schema_system: u64,
    pub bindings: Vec<String>,
    pub failed: Vec<(String, String)>,
    pub error: Option<String>,
}

impl Default for ShadeReport {
    fn default() -> (report: Self)
        ensures
            !report.ok,
            report.schema_system == 0,
            report.bindings@.len() == 0,
            report.failed@.len() == 0,
            report.error is None,
    {
        ShadeReport {
            ok: false,
            schema_system: 0,
            bindings: Vec::new(),
            failed: Vec::new(),
            error: None,
        }
    }
}

/// Why no schemas were registered.
#[derive(Debug)]
pub enum ShadeError {
    /// The helper failed, for this reason.
    PayloadFailed(String),
    /// The helper registered no module.
    NoModules,
}

/// Accepts a report of success that names some module.
pub fn inject_schema_bindings(report: ShadeReport) -> (accepted: Result<ShadeReport, ShadeError>)
    ensures
        if !report.ok {
            accepted matches Err(ShadeError::PayloadFailed(reason)) && reason@ == (
            match report.error {
                Some(text) => text@,
                None => "unknown error"@,
            })
        } else if report.bindings@.len() == 0 {
            accepted matches Err(ShadeError::NoModules)
        } else {
            accepted is Ok && accepted->Ok_0 == report
        },
{
    if !report.ok {
        return Err(
            ShadeError::PayloadFailed(
                match report.error {
                    Some(text) => text,
                    None => "unknown error".to_owned(),
                },
            ),
        );
    }
    if report.bindings.len() == 0 {
        return Err(ShadeError::NoModules);
    }
    Ok(report)
}

/// What a step of loading a library in another process came to.
#[derive(Clone, Copy, Debug, PartialEq, Eq, Structural)]
pub enum LoadStep {
    /// Whether the process could be opened.
    Opened(bool),
    /// Whether memory could be had for the path.
    Allocated(bool),
    /// Whether the path could be written, how many bytes of it were, and how many
    /// it has.
    Written { done: bool, written: usize, wanted: usize },
    /// Whether the library that holds the loader could be found.
    LibraryFound(bool),
    /// Whether the loader could be found in it.
    LoaderFound(bool),
    /// Whether the loader could be started.
    Started(bool),
    /// Waiting for the loader ended with this code.
    Waited(u32),
    /// The loader ended, with this result where it could be had.
    Ended(Option<u32>),
}

/// Why a library was not loaded.
#[derive(Clone, Copy, Debug, PartialEq, Eq, Structural)]
pub enum LoadFailure {
    NotOpened,
    NotAllocated,
    NotWritten,
    NoLibrary,
    NoLoader,
    NotStarted,
    TimedOut,
    WaitFailed,
    NoResult,
    Refused,
}

/// What follows from a step.
#[derive(Clone, Copy, Debug, PartialEq, Eq, Structural)]
pub enum LoadVerdict {
    /// The next step is taken.
    GoOn,
    /// The library is loaded. The memory for the path is given back.
    Loaded,
    /// The library is not loaded. The memory for the path is given back where
    /// `give_back` says so.
    Failed { why: LoadFailure, give_back: bool },
}

/// The code of a wait at whose end the loader had ended.
pub const WAIT_OBJECT_0: u32 = 0;

/// The code of a wait that timed out.
pub const WAIT_TIMEOUT: u32 = 0x102;

/// The step failed: what is said of it, and whether the memory for the path is
/// given back.
pub open spec fn load_failure(step: LoadStep) -> Option<(LoadFailure, bool)> {
    match step {
        LoadStep::Opened(false) => Some((LoadFailure::NotOpened, false)),
        LoadStep::Allocated(false) => Some((LoadFailure::NotAllocated, false)),
        LoadStep::Written { done, written, wanted } if !done || written != wanted => Some(
            (LoadFailure::NotWritten, true),
        ),
        LoadStep::LibraryFound(false) => Some((LoadFailure::NoLibrary, true)),
        LoadStep::LoaderFound(false) => Some((LoadFailure::NoLoader, true)),
        LoadStep::Started(false) => Some((LoadFailure::NotStarted, true)),
        LoadStep::Waited(code) if code == WAIT_TIMEOUT => Some((LoadFailure::TimedOut, false)),
        LoadStep::Waited(code) if code != WAIT_OBJECT_0 => Some((LoadFailure::WaitFailed, true)),
        LoadStep::Ended(None) => Some((LoadFailure::NoResult, true)),
        LoadStep::Ended(Some(0)) => Some((LoadFailure::Refused, true)),
        _ => None,
    }
}

/// What follows from a step: a failure ends the loading, and so does the result
/// of the loader.
pub open spec fn load_verdict(step: LoadStep) -> LoadVerdict {
    match load_failure(step) {
        Some((why, give_back)) => LoadVerdict::Failed { why, give_back },
        None => if step is Ended {
            LoadVerdict::Loaded
        } else {
            LoadVerdict::GoOn
        },
    }
}

fn unless(fine: bool, why: LoadFailure, give_back: bool) -> (verdict: LoadVerdict)
    ensures
        verdict == (if fine {
            LoadVerdict::GoOn
        } else {
            LoadVerdict::Failed { why, give_back }
        }),
{
    if fine {
        LoadVerdict::GoOn
    } else {
        LoadVerdict::Failed { why, give_back }
    }
}

/// Decides what follows from a step. Memory that a loader may still be reading
/// is kept.
pub fn judge_load(step: LoadStep) -> (verdict: LoadVerdict)
    ensures
        verdict == load_verdict(step),
{
    match step {
        LoadStep::Opened(fine) => unless(fine, LoadFailure::NotOpened, false),
        LoadStep::Allocated(fine) => unless(fine, LoadFailure::NotAllocated, false),
        LoadStep::Written { done, written, wanted } => unless(
            done && written == wanted,
            LoadFailure::NotWritten,
            true,
        ),
        LoadStep::LibraryFound(fine) => unless(fine, LoadFailure::NoLibrary, true),
        LoadStep::LoaderFound(fine) => unless(fine, LoadFailure::NoLoader, true),
        LoadStep::Started(fine) => unless(fine, LoadFailure::NotStarted, true),
        LoadStep::Waited(code) => if code == WAIT_TIMEOUT {
            LoadVerdict::Failed { why: LoadFailure::TimedOut, give_back: false }
        } else {
            unless(code == WAIT_OBJECT_0, LoadFailure::WaitFailed, true)
        },
        LoadStep::Ended(result) => match result {
            None => LoadVerdict::Failed { why: LoadFailure::NoResult, give_back: true },
            Some(code) => if code == 0 {
                LoadVerdict::Failed { why: LoadFailure::Refused, give_back: true }
            } else {
                LoadVerdict::Loaded
            },
        },
    }
}

/// What to do about the helper's status file.
#[derive(Clone, Copy, Debug, PartialEq, Eq, Structural)]
pub enum StatusStep {
    /// A report was read.
    Done,
    /// There is none yet: look again after this many milliseconds.
    Retry(u64),
    /// The time is over.
    GiveUp,
}

/// What is done about the status file after a time.
pub open spec fn status_step(parsed: bool, elapsed_ms: u64, timeout_ms: u64) -> StatusStep {
    if elapsed_ms >= timeout_ms {
        StatusStep::GiveUp
    } else if parsed {
        StatusStep::Done
    } else {
        StatusStep::Retry(50)
    }
}

/// Once the time is over nothing is awaited, whatever the file holds; before that a
/// report ends the wait, and without one the file is looked at again.
pub proof fn lemma_status(parsed: bool, elapsed_ms: u64, timeout_ms: u64)
    ensures
        status_step(parsed, elapsed_ms, timeout_ms) is GiveUp <==> timeout_ms <= elapsed_ms,
        status_step(parsed, elapsed_ms, timeout_ms) is Done ==> parsed,
        parsed && elapsed_ms < timeout_ms ==> status_step(parsed, elapsed_ms, timeout_ms) is Done,
        !parsed && elapsed_ms < timeout_ms ==> status_step(parsed, elapsed_ms, timeout_ms)
            == StatusStep::Retry(50),
{
}

/// Decides what to do about the status file: a file that cannot be read or
/// parsed yet is looked at again until the time is over.
pub fn wait_status(parsed: bool, elapsed_ms: u64, timeout_ms: u64) -> (step: StatusStep)
    ensures
        step == status_step(parsed, elapsed_ms, timeout_ms),
{
    if elapsed_ms >= timeout_ms {
        StatusStep::GiveUp
    } else if parsed {
        StatusStep::Done
    } else {
        StatusStep::Retry(50)
    }
}

/// A path loses the prefix of an extended one, once, and is else kept.
pub proof fn lemma_plain_path(path: Seq<char>)
    ensures
        plain_path(seq!['\\', '\\', '?', '\\'] + path) == path,
        path.len() < 4 || path[0] != '\\' || path[1] != '\\' || path[2] != '?' || path[3] != '\\'
            ==> plain_path(path) == path,
{
    let whole = seq!['\\', '\\', '?', '\\'] + path;
    assert(whole.subrange(0, 4) =~= extended_prefix());
    assert(whole.subrange(4, whole.len() as int) =~= path);
    if path.len() >= 4 && path.subrange(0, 4) == extended_prefix() {
        let head = path.subrange(0, 4);
        assert(head[0] == '\\' && head[1] == '\\' && head[2] == '?' && head[3] == '\\');
    }
}

/// Loading goes on exactly after a step that succeeded, and is done exactly when the
/// loader ended with a result other than zero. The memory for the path is kept only
/// where there is none yet, or where the loader may still be reading it.
pub proof fn lemma_load_judged(step: LoadStep)
    ensures
        load_verdict(step) == LoadVerdict::GoOn <==> (match step {
            LoadStep::Opened(fine) => fine,
            LoadStep::Allocated(fine) => fine,
            LoadStep::Written { done, written, wanted } => done && written == wanted,
            LoadStep::LibraryFound(fine) => fine,
            LoadStep::LoaderFound(fine) => fine,
            LoadStep::Started(fine) => fine,
            LoadStep::Waited(code) => code == 0,
            LoadStep::Ended(_) => false,
        }),
        load_verdict(step) == LoadVerdict::Loaded <==> (step matches LoadStep::Ended(Some(code))
            && code != 0),
        load_verdict(step) matches LoadVerdict::Failed { why, give_back } ==> (!give_back <==> (
        step is Opened || step is Allocated || step == LoadStep::Waited(0x102))),
{
}

} // verus!
