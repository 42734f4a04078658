//! Watching the open document for changes.
//!
//! The directory is watched rather than the file, so that editors which
//! save atomically (write a temporary file, rename it over the document) are
//! still followed after the file is replaced. A failed read is
//! ambiguous: an atomic save leaves the document briefly missing, and so does
//! a real deletion. The only way to tell is to wait and look again, which is
//! what the state machine below decides; the caller performs each action and
//! reports what happened.

use vstd::prelude::*;
use crate::text::{chars_eq, chars_of};
use crate::path_laws::{lemma_file_name_of_child, lemma_parent_keeps_the_prefix};
use crate::winpath::{file_name_of, is_plain_name, is_sep, parent_of, parse_path};

verus! {

/// How long the watcher must be quiet before a change is read, in
/// milliseconds.
pub const SETTLE_MS: u64 = 300;

/// How long the file has to stay gone before its absence counts as a
/// deletion, in milliseconds. Too short and an ordinary save flashes a
/// warning; too long and a real deletion goes unreported.
pub const DELETION_GRACE_MS: u64 = 1000;

/// Where the watcher is.
#[derive(PartialEq, Eq, Structural, Clone, Copy, Debug)]
pub enum WatchState {
    /// Waiting for a change.
    Watching,
    /// A change concerned the document; waiting for the changes to settle.
    Settling,
    /// The document is being read.
    Reading,
    /// A read failed; the document is read again after the grace period.
    Rechecking,
    /// The watcher is gone.
    Stopped,
}

/// What happened.
#[derive(PartialEq, Eq, Structural, Clone, Copy, Debug)]
pub enum WatchEvent {
    /// The watcher reported a change; `true` when it concerns the document.
    Changed(bool),
    /// The watcher reported an error.
    WatchFailed,
    /// The watcher is gone.
    Disconnected,
    /// No change arrived for [`SETTLE_MS`].
    Settled,
    /// The document was read.
    ReadSucceeded,
    /// The document could not be read.
    ReadFailed,
}

/// What to do next.
#[derive(PartialEq, Eq, Structural, Clone, Copy, Debug)]
pub enum WatchAction {
    /// Wait for the next change.
    Wait,
    /// Swallow follow-up changes until [`SETTLE_MS`] pass without one.
    Settle,
    /// Read the document.
    Read,
    /// Wait [`DELETION_GRACE_MS`], then read the document.
    ReadAfterGrace,
    /// Store the new content, then announce it, then wait. The order matters:
    /// a snapshot handed out later is then never older than an announcement.
    Publish,
    /// Announce that the document is missing, keep the content shown, and
    /// wait: losing what was being read because a branch switch moved the
    /// file is worse than showing something slightly stale.
    ReportMissing,
    /// Stop watching.
    Stop,
}

/// The watcher's decisions: the next state and action for an event.
pub open spec fn spec_watch_step(s: WatchState, e: WatchEvent) -> (WatchState, WatchAction) {
    if e is Disconnected || s is Stopped {
        (WatchState::Stopped, WatchAction::Stop)
    } else {
        match s {
            WatchState::Watching => if e == WatchEvent::Changed(true) {
                (WatchState::Settling, WatchAction::Settle)
            } else {
                (WatchState::Watching, WatchAction::Wait)
            },
            WatchState::Settling => if e is Settled {
                (WatchState::Reading, WatchAction::Read)
            } else {
                (WatchState::Settling, WatchAction::Settle)
            },
            WatchState::Reading => if e is ReadSucceeded {
                (WatchState::Watching, WatchAction::Publish)
            } else if e is ReadFailed {
                (WatchState::Rechecking, WatchAction::ReadAfterGrace)
            } else {
                (WatchState::Reading, WatchAction::Read)
            },
            WatchState::Rechecking => if e is ReadSucceeded {
                (WatchState::Watching, WatchAction::Publish)
            } else if e is ReadFailed {
                (WatchState::Watching, WatchAction::ReportMissing)
            } else {
                (WatchState::Rechecking, WatchAction::ReadAfterGrace)
            },
            WatchState::Stopped => (WatchState::Stopped, WatchAction::Stop),
        }
    }
}

/// The next state and action for an event.
pub fn watch_step(s: WatchState, e: WatchEvent) -> (r: (WatchState, WatchAction))
    ensures
        r == spec_watch_step(s, e),
{
    match e {
        WatchEvent::Disconnected => return (WatchState::Stopped, WatchAction::Stop),
        _ => {},
    }
    match s {
        WatchState::Stopped => (WatchState::Stopped, WatchAction::Stop),
        WatchState::Watching => match e {
            WatchEvent::Changed(true) => (WatchState::Settling, WatchAction::Settle),
            _ => (WatchState::Watching, WatchAction::Wait),
        },
        WatchState::Settling => match e {
            WatchEvent::Settled => (WatchState::Reading, WatchAction::Read),
            _ => (WatchState::Settling, WatchAction::Settle),
        },
        WatchState::Reading => match e {
            WatchEvent::ReadSucceeded => (WatchState::Watching, WatchAction::Publish),
            WatchEvent::ReadFailed => (WatchState::Rechecking, WatchAction::ReadAfterGrace),
            _ => (WatchState::Reading, WatchAction::Read),
        },
        WatchState::Rechecking => match e {
            WatchEvent::ReadSucceeded => (WatchState::Watching, WatchAction::Publish),
            WatchEvent::ReadFailed => (WatchState::Watching, WatchAction::ReportMissing),
            _ => (WatchState::Rechecking, WatchAction::ReadAfterGrace),
        },
    }
}

/// New content is published only right after a successful read.
pub proof fn lemma_publish_follows_a_read(s: WatchState, e: WatchEvent)
    ensures
        spec_watch_step(s, e).1 is Publish ==> e is ReadSucceeded && (s is Reading
            || s is Rechecking),
{
}

/// A missing document is reported only when a second read, made after the
/// grace period, fails too; the first failure only schedules that read.
pub proof fn lemma_missing_needs_two_failures(s: WatchState, e: WatchEvent)
    ensures
        spec_watch_step(s, e).1 is ReportMissing ==> s is Rechecking && e is ReadFailed,
        s is Reading && e is ReadFailed ==> spec_watch_step(s, e) == (
            WatchState::Rechecking,
            WatchAction::ReadAfterGrace,
        ),
{
}

/// Changes that do not concern the document, and watcher errors, leave the
/// watcher waiting as it was.
pub proof fn lemma_unrelated_changes_are_ignored(e: WatchEvent)
    requires
        e == WatchEvent::Changed(false) || e is WatchFailed,
    ensures
        spec_watch_step(WatchState::Watching, e) == (WatchState::Watching, WatchAction::Wait),
{
}

/// Once stopped, the watcher stays stopped.
pub proof fn lemma_stopped_is_final(e: WatchEvent)
    ensures
        spec_watch_step(WatchState::Stopped, e) == (WatchState::Stopped, WatchAction::Stop),
{
}

/// The directory to watch for a document: the directory it lies in, or `.`
/// when it has none.
pub open spec fn spec_watch_dir(path: Seq<char>) -> Seq<char> {
    match parse_path(path).parent() {
        Some(p) => if p.len() > 0 {
            p
        } else {
            "."@
        },
        None => "."@,
    }
}

/// The directory to watch and the file name to look for, or `None` when the
/// path names no file.
pub fn watch_target(path: &str) -> (r: Option<(String, String)>)
    ensures
        match r {
            Some((dir, name)) => parse_path(path@).file_name() == Some(name@) && dir@
                == spec_watch_dir(path@),
            None => parse_path(path@).file_name() is None,
        },
{
    let name = match file_name_of(path) {
        Some(n) => n,
        None => return None,
    };
    let dir = match parent_of(path) {
        Some(p) => if chars_of(p.as_str()).len() > 0 {
            p
        } else {
            ".".to_owned()
        },
        None => ".".to_owned(),
    };
    Some((dir, name))
}

/// Some path of a change names the watched file.
pub open spec fn spec_concerns_target(paths: Seq<Seq<char>>, name: Seq<char>) -> bool {
    exists|i: int| 0 <= i < paths.len() && parse_path(#[trigger] paths[i]).file_name() == Some(name)
}

/// Whether a change, reported for `paths`, concerns the file named `name`.
pub fn concerns_target(paths: &Vec<String>, name: &str) -> (r: bool)
    ensures
        r == spec_concerns_target(paths.deep_view(), name@),
{
    let target = chars_of(name);
    let mut i: usize = 0;
    while i < paths.len()
        invariant
            i <= paths@.len(),
            target@ == name@,
            forall|j: int|
                0 <= j < i ==> parse_path(#[trigger] paths.deep_view()[j]).file_name() != Some(
                    name@,
                ),
        decreases paths@.len() - i,
    {
        assert(paths.deep_view()[i as int] == paths@[i as int]@);
        match file_name_of(paths[i].as_str()) {
            Some(n) => {
                if chars_eq(&chars_of(n.as_str()), &target) {
                    return true;
                }
            },
            None => {},
        }
        i += 1;
    }
    false
}

/// A change concerns the target exactly when one of the paths it reports
/// has the target's name as its file name; a path whose file name is another
/// one never concerns it.
pub proof fn lemma_changes_concern_only_the_named_file(paths: Seq<Seq<char>>, name: Seq<char>)
    ensures
        spec_concerns_target(paths, name) <==> exists|i: int|
            0 <= i < paths.len() && parse_path(#[trigger] paths[i]).file_name() == Some(name),
{
}

/// Saving a file in the watched directory concerns the document exactly
/// when it is the document's own file: `C:\work\docs\meeting-notes.md` does
/// not concern `notes.md`, though its text ends with that name.
pub proof fn lemma_a_sibling_is_not_the_target(d: Seq<char>, f: Seq<char>, name: Seq<char>)
    requires
        d.len() == 0 || !is_sep(d[0]),
        is_plain_name(f),
        forall|i: int| 0 <= i < f.len() ==> !is_sep(#[trigger] f[i]),
    ensures
        spec_concerns_target(seq![d + seq!['\\'] + f], name) <==> f == name,
{
    lemma_file_name_of_child(d, f);
    let paths = seq![d + seq!['\\'] + f];
    if f == name {
        assert(parse_path(paths[0]).file_name() == Some(name));
    }
}

/// An absolute document is watched in the directory it lies in, which is on
/// the same drive or share and never the current directory: the directory
/// watched for `\\?\D:\notes.md` is `\\?\D:\`.
pub proof fn lemma_absolute_documents_watch_their_directory(path: Seq<char>)
    requires
        parse_path(path).is_absolute(),
        parse_path(path).file_name() is Some,
    ensures
        parse_path(path).parent() == Some(spec_watch_dir(path)),
        spec_watch_dir(path) != "."@,
        spec_watch_dir(path).take(parse_path(path).prefix.len() as int) == parse_path(path).prefix,
{
    lemma_parent_keeps_the_prefix(path);
    reveal_strlit(".");
    assert(spec_watch_dir(path).len() >= 2);
}

} // verus!
