//! Keeping one library across machines, through a git repository the user
//! owns.
//!
//! Git is only the transport. It never merges anything itself, because it
//! merges by line and two machines that each saved a command have both
//! appended to the same list, which git reports as a conflict although nothing
//! clashes. See `merge`.

pub mod merge;

use vstd::prelude::*;

use crate::text::{chars_of, decimal, decimal_of, extend, extend_str, has, string_of};

verus! {

broadcast use vstd::string::group_string_axioms;

/// How a sync was started, which decides how it may fail.
#[derive(Debug, Clone, Copy, PartialEq, Eq, Structural)]
pub enum Mode {
    /// Someone ran `lore sync` and is watching.
    Interactive,
    /// Started by lore itself after a change. Must never ask anything, since
    /// nobody is there to answer, and reports failure by leaving a note.
    Background,
}

/// What a sync did.
#[derive(Debug)]
pub struct Report {
    pub received: usize,
    pub sent: usize,
    pub kept_both: Vec<(String, String)>,
}

impl Default for Report {
    fn default() -> (r: Report)
        ensures
            r.received == 0,
            r.sent == 0,
            r.kept_both@.len() == 0,
    {
        Report { received: 0, sent: 0, kept_both: Vec::new() }
    }
}

/// `n` of `noun`, in the plural unless there is exactly one.
pub open spec fn counted(n: nat, noun: Seq<char>) -> Seq<char> {
    if n == 1 {
        "1 "@ + noun
    } else {
        decimal_of(n) + " "@ + noun + "s"@
    }
}

/// The line that says what a sync moved each way.
pub open spec fn moved_line(received: nat, sent: nat) -> Seq<char> {
    if received == 0 && sent == 0 {
        "Already up to date"@
    } else {
        "Synced: "@ + counted(received, "change"@) + " from other machines, "@ + counted(
            sent,
            "change"@,
        ) + " from this one"@
    }
}

/// The line that says where this machine's version of a conflicting entry
/// went.
pub open spec fn kept_line(id: Seq<char>, copy: Seq<char>) -> Seq<char> {
    id + " was changed on two machines. The one synced first kept the id, this machine's version is now "@
        + copy
}

/// The lines of a summary after the first, one for each entry kept twice,
/// each after a line feed.
pub open spec fn kept_lines(pairs: Seq<(Seq<char>, Seq<char>)>) -> Seq<char>
    decreases pairs.len(),
{
    if pairs.len() == 0 {
        seq![]
    } else {
        kept_lines(pairs.drop_last()) + seq!['\n'] + kept_line(pairs.last().0, pairs.last().1)
    }
}

pub open spec fn string_pairs(v: Seq<(String, String)>) -> Seq<(Seq<char>, Seq<char>)> {
    v.map_values(|p: (String, String)| (p.0@, p.1@))
}

fn count(n: u128, noun: &str) -> (r: Vec<char>)
    ensures
        r@ == counted(n as nat, noun@),
{
    if n == 1 {
        let mut out = chars_of("1 ");
        extend_str(&mut out, noun);
        out
    } else {
        let mut out = decimal(n);
        extend_str(&mut out, " ");
        extend_str(&mut out, noun);
        extend_str(&mut out, "s");
        out
    }
}

impl Report {
    /// What the sync did, in words: what moved each way, then a line for each
    /// entry changed on two machines saying where this machine's version went.
    pub fn summary(&self) -> (r: String)
        ensures
            r@ == moved_line(self.received as nat, self.sent as nat) + kept_lines(
                string_pairs(self.kept_both@),
            ),
    {
        let mut out = if self.received == 0 && self.sent == 0 {
            chars_of("Already up to date")
        } else {
            let mut line = chars_of("Synced: ");
            extend(&mut line, &count(self.received as u128, "change"));
            extend_str(&mut line, " from other machines, ");
            extend(&mut line, &count(self.sent as u128, "change"));
            extend_str(&mut line, " from this one");
            line
        };
        let ghost head = out@;
        let ghost pairs = string_pairs(self.kept_both@);
        let mut i: usize = 0;
        while i < self.kept_both.len()
            invariant
                i <= self.kept_both@.len(),
                pairs == string_pairs(self.kept_both@),
                out@ == head + kept_lines(pairs.take(i as int)),
            decreases self.kept_both@.len() - i,
        {
            assert(pairs.take(i + 1).drop_last() =~= pairs.take(i as int));
            assert(pairs.take(i + 1).last() == pairs[i as int]);
            let (id, copy) = &self.kept_both[i];
            out.push('\n');
            extend_str(&mut out, id.as_str());
            extend_str(
                &mut out,
                " was changed on two machines. The one synced first kept the id, this machine's version is now ",
            );
            extend_str(&mut out, copy.as_str());
            assert(out@ =~= head + kept_lines(pairs.take(i + 1)));
            i += 1;
        }
        assert(pairs.take(i as int) =~= pairs);
        string_of(&out)
    }
}

/// A git command that failed, carrying which command it was and what it
/// said.
#[derive(Debug, Clone)]
pub struct GitError {
    pub what: String,
    pub message: String,
}

/// Whether a failure is a push the repository turned away because it has
/// moved on, the one failure that another round of fetching and merging
/// mends.
pub open spec fn rejected(what: Seq<char>, message: Seq<char>) -> bool {
    what == "push"@ && (crate::text::contains(message, "rejected"@) || crate::text::contains(
        message,
        "fetch first"@,
    ) || crate::text::contains(message, "non-fast-forward"@))
}

pub fn is_rejected_push(error: &GitError) -> (r: bool)
    ensures
        r == rejected(error.what@, error.message@),
{
    let m = chars_of(error.message.as_str());
    crate::text::same(&chars_of(error.what.as_str()), &chars_of("push")) && (has(
        &m,
        &chars_of("rejected"),
    ) || has(&m, &chars_of("fetch first")) || has(&m, &chars_of("non-fast-forward")))
}

/// How long ago something happened, in the largest whole unit.
pub open spec fn ago_text(seconds: nat) -> Seq<char> {
    if seconds < 60 {
        "just now"@
    } else if seconds < 3600 {
        counted(seconds / 60, "minute"@) + " ago"@
    } else if seconds < 86400 {
        counted(seconds / 3600, "hour"@) + " ago"@
    } else {
        counted(seconds / 86400, "day"@) + " ago"@
    }
}

/// How long ago something happened `seconds` ago, in words.
pub fn ago(seconds: u64) -> (r: String)
    ensures
        r@ == ago_text(seconds as nat),
{
    let out = if seconds < 60 {
        chars_of("just now")
    } else if seconds < 3600 {
        let mut v = count((seconds / 60) as u128, "minute");
        extend_str(&mut v, " ago");
        v
    } else if seconds < 86400 {
        let mut v = count((seconds / 3600) as u128, "hour");
        extend_str(&mut v, " ago");
        v
    } else {
        let mut v = count((seconds / 86400) as u128, "day");
        extend_str(&mut v, " ago");
        v
    };
    string_of(&out)
}


/// Whether a sync has nothing to publish: the repository holds no library
/// yet and the merged one is blank, which is not worth a commit.
pub fn nothing_to_publish(repository_has_library: bool, merged: &str) -> (r: bool)
    ensures
        r == (!repository_has_library && crate::text::trim(merged@).len() == 0),
{
    !repository_has_library && crate::text::trimmed(&chars_of(merged)).len() == 0
}

/// Whether the clone has commits the repository lacks: it has a commit at
/// all, and the repository's branch is missing or points elsewhere. `head`
/// and `remote` are the commits the two point at, when they exist.
pub fn needs_push(head: Option<&str>, remote: Option<&str>) -> (r: bool)
    ensures
        r == match (head, remote) {
            (None, _) => false,
            (Some(_), None) => true,
            (Some(h), Some(o)) => h@ != o@,
        },
{
    match (head, remote) {
        (None, _) => false,
        (Some(_), None) => true,
        (Some(h), Some(o)) => !crate::text::same_str(h, o),
    }
}

/// How long, in nanoseconds, a sync may hold the lock before another may
/// take it from it, and how long another waits before giving up: two
/// minutes.
pub const STALE_LOCK_NANOS: u128 = 120_000_000_000;

/// Whether a lock taken `age_nanos` ago, or a wait that has lasted that
/// long, has gone on too long.
pub fn is_stale(age_nanos: u128) -> (r: bool)
    ensures
        r == (age_nanos > STALE_LOCK_NANOS),
{
    age_nanos > STALE_LOCK_NANOS
}

} // verus!
