//! Picker state and key handling, kept free of any terminal so it can be
//! tested directly.
//!
//! The picker decides; whoever runs it does the work a decision asks for
//! (recording a use, writing the library, reading it back) and hands the
//! result back in.

use vstd::prelude::*;

use crate::model::{
    body_for, entry_views, param_views, variant_views, BodyView, CommandBody, Entry, EntryView,
    Layer, ParamView, ShellFamily,
};
use crate::store::definitions::{
    clean_tags, derived_tags, merge_tags, parse_tags, purpose_parts, split_purpose, suggest_id,
    suggests, with_new, NewEntry, NewEntryView,
};
use crate::params::{
    distinct_names, lemma_found_from, list_has, opt_view, pair_views, placeholders, spots,
    rendered_from, string_views, Found,
};
use crate::search::{
    candidate_views, ranking, score_views, standing_of, Candidate, Ranker, Standing,
};
use crate::text::{chars_of, concat, joined_with, owned, string_of, trim, trimmed, words};
use crate::tui::form::{field_views, Field, FieldView, Form, FormView};

verus! {

broadcast use vstd::string::group_string_axioms;

/// Commands from the shell's history that saving can walk back through.
///
/// Deep enough to reach past a run of throwaway commands, as a shell's own up
/// arrow would.
pub const HISTORY_LIMIT: usize = 50;

/// What the picker hands back to the shell.
#[derive(Debug, PartialEq, Eq)]
pub enum Outcome {
    /// Command to place in the prompt. Running it stays the user's decision.
    Insert {
        command: String,
        /// Where to leave the cursor, in characters from the start of the
        /// command. `None` puts it at the end, which is where a finished
        /// command wants it.
        cursor: Option<usize>,
    },
    Cancelled,
}

/// Saving a command, asked the way a shell would ask it: the command on one
/// line, then what it is for on the next. There is no form to fill in, and
/// tags are either written into the answer as `#tag` or taken from the
/// command's own words.
pub struct Save {
    pub step: SaveStep,
    pub command: String,
    pub purpose: String,
    /// The history entry the command line is showing while up and down walk
    /// through it. `None` once the line is past the newest, as in a shell.
    pub recalled: Option<usize>,
}

#[derive(Debug, Clone, Copy, PartialEq, Eq, Structural)]
pub enum SaveStep {
    Command,
    Purpose,
}

/// One line of the picker.
pub struct Row<'a> {
    pub entry: &'a Entry,
    pub cmd: &'a str,
    pub pinned: bool,
}

/// Shown when saving is asked to go on without a command.
pub const NO_COMMAND: &'static str = "Type a command, or press up for the ones you ran";

/// A key as the picker reads it.
#[derive(Debug, Clone, Copy, PartialEq, Eq, Structural)]
pub enum KeyCode {
    Char(char),
    Enter,
    Esc,
    Tab,
    BackTab,
    Up,
    Down,
    PageUp,
    PageDown,
    Backspace,
    /// Any key the picker has no use for.
    Other,
}

/// A key press, with whether control was held.
#[derive(Debug, Clone, Copy, PartialEq, Eq, Structural)]
pub struct Key {
    pub code: KeyCode,
    pub control: bool,
}

/// What the picker is doing.
pub enum Mode {
    Browse,
    Params { entry_id: String, template: String, form: Form },
    Save(Save),
    /// Rewriting an entry in place. Everything the form does not show is
    /// carried through untouched, so editing a description cannot lose a
    /// per shell variant or a placeholder's documentation.
    Edit {
        id: String,
        cmd: CommandBody,
        params: Vec<(String, crate::model::ParamSpec)>,
        danger: bool,
        /// A builtin is rewritten as a user entry that shadows it rather than
        /// changed where it lives.
        shadowing: bool,
        form: Form,
    },
}

/// The entries of `es` that have a command for `family`, among the first
/// `n`, in order.
pub open spec fn pickable_upto(es: Seq<EntryView>, family: ShellFamily, n: int) -> Seq<usize>
    decreases n,
{
    if n <= 0 {
        seq![]
    } else {
        let before = pickable_upto(es, family, n - 1);
        if body_for(es[n - 1].cmd, family) is Some {
            before.push((n - 1) as usize)
        } else {
            before
        }
    }
}

/// The entries of `es` that have a command for `family`, in order.
pub open spec fn pickable_in(es: Seq<EntryView>, family: ShellFamily) -> Seq<usize> {
    pickable_upto(es, family, es.len() as int)
}

/// What the ordering is handed: each pickable entry with its command.
pub open spec fn candidates_in(es: Seq<EntryView>, family: ShellFamily) -> Seq<(EntryView, Seq<char>)> {
    pickable_in(es, family).map_values(
        |i: usize| (es[i as int], body_for(es[i as int].cmd, family).unwrap()),
    )
}

pub proof fn lemma_pickable(es: Seq<EntryView>, family: ShellFamily, n: int)
    requires
        0 <= n <= es.len(),
        es.len() <= usize::MAX,
    ensures
        forall|k: int|
            0 <= k < pickable_upto(es, family, n).len() ==> (#[trigger] pickable_upto(es, family, n)[k]) < n
                && body_for(es[pickable_upto(es, family, n)[k] as int].cmd, family) is Some,
        forall|a: int, b: int|
            0 <= a < b < pickable_upto(es, family, n).len() ==> (#[trigger] pickable_upto(es, family, n)[a])
                < (#[trigger] pickable_upto(es, family, n)[b]),
    decreases n,
{
    if n > 0 {
        lemma_pickable(es, family, n - 1);
        let before = pickable_upto(es, family, n - 1);
        let now = pickable_upto(es, family, n);
        if body_for(es[n - 1].cmd, family) is Some {
            assert(now == before.push((n - 1) as usize));
        } else {
            assert(now == before);
        }
        assert forall|k: int| 0 <= k < now.len() implies (#[trigger] now[k]) < n && body_for(
            es[now[k] as int].cmd,
            family,
        ) is Some by {
            if k < before.len() {
                assert(now[k] == before[k]);
            }
        }
        assert forall|a: int, b: int| 0 <= a < b < now.len() implies (#[trigger] now[a]) < (
        #[trigger] now[b]) by {
            assert(now[a] == before[a]);
            if b < before.len() {
                assert(now[b] == before[b]);
            }
        }
    }
}

/// Where the cursor stays when the list changes under it: where it was, kept
/// inside a list of `len` rows.
pub open spec fn kept_within(selected: int, len: int) -> int {
    if len == 0 {
        0
    } else if selected < len - 1 {
        selected
    } else {
        len - 1
    }
}

pub struct App {
    pub entries: Vec<Entry>,
    pub family: ShellFamily,
    /// Entries that have a command for this shell, in load order.
    pub pickable: Vec<usize>,
    /// Ranked entry indices, best first.
    pub order: Vec<usize>,
    /// The ranking of the pickable entries that `order` was made from.
    pub ranked: Ghost<Seq<usize>>,
    pub selected: usize,
    pub query: String,
    pub mode: Mode,
    pub status: Option<String>,
    pub ranker: Ranker,
    /// What the usage statistics say of each entry, by id.
    pub scores: Vec<(String, Standing)>,
    /// What the shell last ran, newest first, offered when saving.
    pub history: Vec<String>,
    /// Entry the next ctrl+x will actually remove.
    pub armed_to_remove: Option<String>,
    /// Set once the library file has been written, so the caller knows there
    /// is something to sync.
    pub changed: bool,
}

impl App {
    /// Whether the list on offer is the ranking of what this shell can pick
    /// for the current query, with the cursor on it.
    pub open spec fn ordered(self) -> bool {
        let es = entry_views(self.entries@);
        let p = pickable_in(es, self.family);
        &&& self.pickable@ == p
        &&& ranking(candidates_in(es, self.family), score_views(self.scores@), trim(self.query@), self.ranked@)
        &&& self.order@.len() == self.ranked@.len()
        &&& forall|k: int| 0 <= k < self.order@.len() ==> #[trigger] self.order@[k] == p[self.ranked@[k] as int]
        &&& if self.order@.len() == 0 {
            self.selected == 0
        } else {
            self.selected < self.order@.len()
        }
    }

    /// Whether a form on screen has its focus on one of its fields.
    pub open spec fn forms_ok(self) -> bool {
        match self.mode {
            Mode::Params { form, .. } => form@.wf(),
            Mode::Edit { form, .. } => form@.wf() && form@.fields.len() == 3,
            Mode::Save(save) => match save.recalled {
                Some(i) => i < self.history@.len(),
                None => true,
            },
            Mode::Browse => true,
        }
    }

    pub open spec fn wf(self) -> bool {
        self.ordered() && self.forms_ok()
    }

    /// Whether `self` and `other` hold the same library, query and screen,
    /// whatever their list.
    pub open spec fn same_but_list(self, other: App) -> bool {
        &&& self.entries@ == other.entries@
        &&& self.family == other.family
        &&& self.query@ == other.query@
        &&& self.mode == other.mode
        &&& self.status == other.status
        &&& self.scores@ == other.scores@
        &&& self.history@ == other.history@
        &&& self.armed_to_remove == other.armed_to_remove
        &&& self.changed == other.changed
    }

    /// The entry in row `k` of the list.
    pub open spec fn row_entry(self, k: int) -> EntryView {
        entry_views(self.entries@)[self.order@[k] as int]
    }

    proof fn lemma_rows(self)
        requires
            self.ordered(),
        ensures
            forall|k: int|
                0 <= k < self.order@.len() ==> (#[trigger] self.order@[k]) < self.entries@.len()
                    && body_for(self.entries@[self.order@[k] as int].cmd@, self.family) is Some,
    {
        let es = entry_views(self.entries@);
        assert(self.entries.len() == self.entries@.len());
        assert(es.len() == self.entries@.len());
        lemma_pickable(es, self.family, es.len() as int);
        assert forall|k: int| 0 <= k < self.order@.len() implies (#[trigger] self.order@[k]) < self.entries@.len()
            && body_for(self.entries@[self.order@[k] as int].cmd@, self.family) is Some by {
            let r = self.ranked@[k] as int;
            assert(self.ranked@[k] < candidates_in(es, self.family).len());
            assert(self.order@[k] == pickable_in(es, self.family)[r]);
            assert(es[self.order@[k] as int] == self.entries@[self.order@[k] as int]@);
        }
    }

    /// Recomputes which entries are on offer and in what order.
    fn reindex(&mut self)
        ensures
            final(self).ordered(),
            final(self).same_but_list(*old(self)),
            final(self).selected == kept_within(old(self).selected as int, final(self).order@.len() as int),
    {
        let ghost es = entry_views(self.entries@);
        let mut pickable: Vec<usize> = Vec::new();
        let mut i: usize = 0;
        while i < self.entries.len()
            invariant
                i <= self.entries@.len(),
                es == entry_views(self.entries@),
                pickable@ == pickable_upto(es, self.family, i as int),
            decreases self.entries@.len() - i,
        {
            assert(es[i as int] == self.entries@[i as int]@);
            if self.entries[i].cmd_for(self.family).is_some() {
                pickable.push(i);
            }
            i += 1;
        }
        proof {
            lemma_pickable(es, self.family, es.len() as int);
        }
        let ghost cands = candidates_in(es, self.family);
        let mut candidates: Vec<Candidate> = Vec::new();
        let mut k: usize = 0;
        while k < pickable.len()
            invariant
                k <= pickable@.len(),
                es == entry_views(self.entries@),
                pickable@ == pickable_in(es, self.family),
                cands == candidates_in(es, self.family),
                forall|j: int|
                    0 <= j < pickable@.len() ==> (#[trigger] pickable@[j]) < es.len()
                        && body_for(es[pickable@[j] as int].cmd, self.family) is Some,
                candidate_views(candidates@) == cands.take(k as int),
            decreases pickable@.len() - k,
        {
            let at = pickable[k];
            assert(es[at as int] == self.entries@[at as int]@);
            let entry = &self.entries[at];
            let cmd = entry.cmd_for(self.family).unwrap();
            let ghost before = candidates@;
            let c = Candidate { entry, cmd };
            assert(cands[k as int] == (es[at as int], body_for(es[at as int].cmd, self.family).unwrap()));
            assert((c.entry@, c.cmd@) == cands[k as int]);
            candidates.push(c);
            assert(candidate_views(candidates@) =~= candidate_views(before).push((c.entry@, c.cmd@)));
            assert(cands.take(k + 1) =~= cands.take(k as int).push(cands[k as int]));
            assert(candidate_views(candidates@) =~= cands.take(k + 1));
            k += 1;
        }
        assert(candidate_views(candidates@) =~= cands);
        let ranked = self.ranker.rank(&candidates, &self.scores, self.query.as_str());
        let mut order: Vec<usize> = Vec::new();
        let mut j: usize = 0;
        while j < ranked.len()
            invariant
                j <= ranked@.len(),
                pickable@ == pickable_in(es, self.family),
                ranking(cands, score_views(self.scores@), trim(self.query@), ranked@),
                cands.len() == pickable@.len(),
                order@.len() == j,
                forall|m: int| 0 <= m < j ==> #[trigger] order@[m] == pickable@[ranked@[m] as int],
            decreases ranked@.len() - j,
        {
            assert(ranked@[j as int] < cands.len());
            order.push(pickable[ranked[j]]);
            j += 1;
        }
        let n = order.len();
        self.pickable = pickable;
        self.order = order;
        self.ranked = Ghost(ranked@);
        if n == 0 {
            self.selected = 0;
        } else if self.selected >= n - 1 {
            self.selected = n - 1;
        }
    }

    pub fn new(entries: Vec<Entry>, family: ShellFamily, scores: Vec<(String, Standing)>, history: Vec<String>) -> (r: App)
        ensures
            r.wf(),
            r.entries@ == entries@,
            r.family == family,
            r.scores@ == scores@,
            string_views(r.history@) == prepared(string_views(history@)),
            r.query@.len() == 0,
            r.mode == Mode::Browse,
            r.status is None,
            r.armed_to_remove is None,
            !r.changed,
            r.selected == 0,
    {
        let mut app = App {
            entries,
            family,
            pickable: Vec::new(),
            order: Vec::new(),
            ranked: Ghost(Seq::empty()),
            selected: 0,
            query: String::new(),
            mode: Mode::Browse,
            status: None,
            ranker: Ranker::new(),
            scores,
            history: prepare_history(history),
            armed_to_remove: None,
            changed: false,
        };
        app.reindex();
        app
    }

    pub fn query(&self) -> (r: &str)
        ensures
            r@ == self.query@,
    {
        self.query.as_str()
    }

    pub fn mode(&self) -> (r: &Mode)
        ensures
            *r == self.mode,
    {
        &self.mode
    }

    pub fn status(&self) -> (r: Option<&str>)
        ensures
            match r {
                Some(s) => self.status is Some && s@ == self.status.unwrap()@,
                None => self.status is None,
            },
    {
        match &self.status {
            Some(s) => Some(s.as_str()),
            None => None,
        }
    }

    pub fn selected(&self) -> (r: usize)
        ensures
            r == self.selected,
    {
        self.selected
    }

    /// How many entries are on offer.
    pub fn matches(&self) -> (r: usize)
        ensures
            r == self.order@.len(),
    {
        self.order.len()
    }

    /// Whether an entry is pinned.
    fn is_pinned(&self, id: &str) -> (r: bool)
        ensures
            r == match standing_of(score_views(self.scores@), id@) {
                Some(s) => s.pinned,
                None => false,
            },
    {
        match crate::search::find_standing(self.scores.as_slice(), id) {
            Some(s) => s.pinned,
            None => false,
        }
    }

    /// Row `k` of the list.
    fn row(&self, k: usize) -> (r: Row)
        requires
            self.ordered(),
            k < self.order@.len(),
        ensures
            *r.entry == self.entries@[self.order@[k as int] as int],
            body_for(r.entry.cmd@, self.family) == Some(r.cmd@),
            r.entry@ == self.row_entry(k as int),
            r.cmd@ == body_for(self.row_entry(k as int).cmd, self.family).unwrap(),
            r.pinned == match standing_of(score_views(self.scores@), r.entry.id@) {
                Some(s) => s.pinned,
                None => false,
            },
    {
        proof {
            self.lemma_rows();
            assert(entry_views(self.entries@)[self.order@[k as int] as int] == self.entries@[self.order@[k as int] as int]@);
        }
        let entry = &self.entries[self.order[k]];
        let cmd = entry.cmd_for(self.family).unwrap();
        Row { entry, cmd, pinned: self.is_pinned(entry.id.as_str()) }
    }

    /// The entries currently on offer, best first.
    pub fn rows(&self) -> (r: Vec<Row>)
        requires
            self.ordered(),
        ensures
            r@.len() == self.order@.len(),
            forall|k: int| 0 <= k < r@.len() ==> *(#[trigger] r@[k]).entry == self.entries@[self.order@[k] as int]
                && body_for(r@[k].entry.cmd@, self.family) == Some(r@[k].cmd@),
    {
        let mut out: Vec<Row> = Vec::new();
        let mut k: usize = 0;
        while k < self.order.len()
            invariant
                self.ordered(),
                k <= self.order@.len(),
                out@.len() == k,
                forall|m: int| 0 <= m < k ==> *(#[trigger] out@[m]).entry == self.entries@[self.order@[m] as int]
                    && body_for(out@[m].entry.cmd@, self.family) == Some(out@[m].cmd@),
            decreases self.order@.len() - k,
        {
            out.push(self.row(k));
            k += 1;
        }
        out
    }

    /// The row under the cursor, if the list has any.
    pub fn selected_row(&self) -> (r: Option<Row>)
        requires
            self.ordered(),
        ensures
            self.order@.len() == 0 <==> r is None,
            r is Some ==> r.unwrap().entry@ == row_entry_of(self@) && r.unwrap().cmd@ == template_of(self@),
            r is Some ==> *r.unwrap().entry == self.entries@[self.order@[self.selected as int] as int]
                && body_for(r.unwrap().entry.cmd@, self.family) == Some(r.unwrap().cmd@)
                && r.unwrap().pinned == match standing_of(score_views(self.scores@), r.unwrap().entry.id@) {
                    Some(s) => s.pinned,
                    None => false,
                },
    {
        if self.order.len() == 0 {
            None
        } else {
            Some(self.row(self.selected))
        }
    }
}

/// The commands of `raw` trimmed, without blanks, each kept the first time
/// it comes.
pub open spec fn history_from(raw: Seq<Seq<char>>) -> Seq<Seq<char>>
    decreases raw.len(),
{
    if raw.len() == 0 {
        seq![]
    } else {
        let before = history_from(raw.drop_last());
        let t = trim(raw.last());
        if t.len() == 0 || before.contains(t) {
            before
        } else {
            before.push(t)
        }
    }
}

/// What saving offers from the shell's history, newest first.
pub open spec fn prepared(raw: Seq<Seq<char>>) -> Seq<Seq<char>> {
    let all = history_from(raw);
    if all.len() > HISTORY_LIMIT {
        all.take(HISTORY_LIMIT as int)
    } else {
        all
    }
}

/// Trims what the shell handed over, drops blanks and repeats, and caps the
/// list.
///
/// A shell history is mostly the same handful of commands run again and
/// again, and a list where nine rows in ten are `cd ..` is not worth opening.
pub fn prepare_history(raw: Vec<String>) -> (r: Vec<String>)
    ensures
        string_views(r@) == prepared(string_views(raw@)),
        r@.len() <= HISTORY_LIMIT,
{
    let ghost s = string_views(raw@);
    let mut all: Vec<String> = Vec::new();
    let mut i: usize = 0;
    while i < raw.len()
        invariant
            i <= raw@.len(),
            s == string_views(raw@),
            string_views(all@) == history_from(s.take(i as int)),
        decreases raw@.len() - i,
    {
        assert(s.take(i + 1).drop_last() =~= s.take(i as int));
        assert(s.take(i + 1).last() == raw@[i as int]@);
        let tc = trimmed(&chars_of(raw[i].as_str()));
        let t = string_of(&tc);
        if tc.len() > 0 && !list_has(&all, &t) {
            let ghost before = all@;
            let ghost tv = t@;
            all.push(t);
            assert(string_views(all@) =~= string_views(before).push(tv));
        } else {
            assert(t@.len() == 0 || string_views(all@).contains(t@));
        }
        i += 1;
    }
    assert(s.take(i as int) =~= s);
    let ghost h = string_views(all@);
    let mut out: Vec<String> = Vec::new();
    let mut k: usize = 0;
    while k < all.len() && k < HISTORY_LIMIT
        invariant
            k <= all@.len(),
            k <= HISTORY_LIMIT,
            h == string_views(all@),
            string_views(out@) == h.take(k as int),
        decreases all@.len() - k,
    {
        let ghost before = out@;
        out.push(all[k].clone());
        assert(string_views(out@) =~= string_views(before).push(all@[k as int]@));
        assert(h.take(k + 1) =~= h.take(k as int).push(all@[k as int]@));
        k += 1;
    }
    if all.len() > HISTORY_LIMIT {
        assert(string_views(out@) =~= h.take(HISTORY_LIMIT as int));
    } else {
        assert(h.take(k as int) =~= h);
    }
    out
}


/// Where the cursor lands after moving `delta` rows in a list of `len`: kept
/// inside the list.
pub open spec fn moved_to(selected: int, delta: int, len: int) -> int {
    if len == 0 {
        0
    } else if selected + delta < 0 {
        0
    } else if selected + delta > len - 1 {
        len - 1
    } else {
        selected + delta
    }
}

/// The first row of `order` holding entry `id`, if any.
pub open spec fn row_of(es: Seq<EntryView>, order: Seq<usize>, id: Seq<char>) -> Option<int>
    decreases order.len(),
{
    if order.len() == 0 {
        None
    } else if es[order[0] as int].id == id {
        Some(0)
    } else {
        match row_of(es, order.drop_first(), id) {
            Some(k) => Some(k + 1),
            None => None,
        }
    }
}

pub proof fn lemma_row_of(es: Seq<EntryView>, order: Seq<usize>, id: Seq<char>)
    ensures
        row_of(es, order, id) is Some ==> 0 <= row_of(es, order, id).unwrap() < order.len(),
    decreases order.len(),
{
    if order.len() > 0 {
        lemma_row_of(es, order.drop_first(), id);
    }
}

impl App {
    /// The list, cursor and query of `self` are those of `other`, and so is
    /// everything else.
    pub open spec fn same_list(self, other: App) -> bool {
        &&& self.pickable@ == other.pickable@
        &&& self.order@ == other.order@
        &&& self.ranked@ == other.ranked@
    }

    /// Moves the cursor `delta` rows, staying inside the list.
    fn move_by(&mut self, delta: isize)
        requires
            old(self).ordered(),
        ensures
            final(self).ordered(),
            final(self).same_but_list(*old(self)),
            final(self).same_list(*old(self)),
            final(self).mode == old(self).mode,
            final(self).selected == moved_to(old(self).selected as int, delta as int, old(self).order@.len() as int),
    {
        let n = self.order.len();
        if n == 0 {
            self.selected = 0;
            return;
        }
        let last = n - 1;
        if delta < 0 {
            let back: usize = if delta == isize::MIN {
                (isize::MAX as usize) + 1
            } else {
                let b = (-delta) as usize;
                assert(b == -delta);
                b
            };
            if back > self.selected {
                self.selected = 0;
            } else {
                self.selected = self.selected - back;
            }
        } else {
            let ahead = delta as usize;
            assert(ahead == delta);
            if ahead > last - self.selected {
                self.selected = last;
            } else {
                self.selected = self.selected + ahead;
            }
        }
    }

    /// The first row holding entry `id`, if any.
    fn position_of(&self, id: &str) -> (r: Option<usize>)
        requires
            self.ordered(),
        ensures
            r is Some <==> row_of(entry_views(self.entries@), self.order@, id@) is Some,
            r is Some ==> row_of(entry_views(self.entries@), self.order@, id@) == Some(r.unwrap() as int),
    {
        proof {
            self.lemma_rows();
        }
        let ghost es = entry_views(self.entries@);
        let mut k: usize = 0;
        assert(self.order@.skip(0) =~= self.order@);
        while k < self.order.len()
            invariant
                k <= self.order@.len(),
                es == entry_views(self.entries@),
                forall|m: int| 0 <= m < self.order@.len() ==> (#[trigger] self.order@[m]) < self.entries@.len(),
                row_of(es, self.order@, id@) == match row_of(es, self.order@.skip(k as int), id@) {
                    Some(j) => Some(j + k),
                    None => None,
                },
            decreases self.order@.len() - k,
        {
            let at = self.order[k];
            assert(self.order@.skip(k as int).drop_first() =~= self.order@.skip(k + 1));
            assert(self.order@.skip(k as int)[0] == at);
            assert(es[at as int] == self.entries@[at as int]@);
            if crate::text::same(&chars_of(self.entries[at].id.as_str()), &chars_of(id)) {
                return Some(k);
            }
            k += 1;
        }
        None
    }

    /// Puts the cursor on the row holding `id`, if the list has one.
    fn select_id(&mut self, id: &str)
        requires
            old(self).ordered(),
        ensures
            final(self).ordered(),
            final(self).same_but_list(*old(self)),
            final(self).same_list(*old(self)),
            final(self).mode == old(self).mode,
            final(self).selected == match row_of(entry_views(old(self).entries@), old(self).order@, id@) {
                Some(k) => k,
                None => old(self).selected as int,
            },
    {
        proof {
            lemma_row_of(entry_views(self.entries@), self.order@, id@);
        }
        let ghost found_at = row_of(entry_views(self.entries@), self.order@, id@);
        match self.position_of(id) {
            Some(k) => {
                assert(found_at is Some && found_at.unwrap() == k);
                self.selected = k;
            },
            None => {
                assert(found_at is None);
            },
        }
    }

    /// Replaces the query and ranks the list for it.
    fn set_query(&mut self, query: String)
        ensures
            final(self).ordered(),
            final(self).query@ == query@,
            final(self).entries@ == old(self).entries@,
            final(self).family == old(self).family,
            final(self).mode == old(self).mode,
            final(self).status == old(self).status,
            final(self).scores@ == old(self).scores@,
            final(self).history@ == old(self).history@,
            final(self).armed_to_remove == old(self).armed_to_remove,
            final(self).changed == old(self).changed,
            final(self).selected == kept_within(old(self).selected as int, final(self).order@.len() as int),
    {
        self.query = query;
        self.reindex();
    }
}

/// Whether `o` puts `command` in the prompt with the cursor at `cursor`.
pub open spec fn inserts(o: Outcome, command: Seq<char>, cursor: Option<usize>) -> bool {
    match o {
        Outcome::Insert { command: c, cursor: k } => c@ == command && k == cursor,
        Outcome::Cancelled => false,
    }
}

/// Whether `r` records a use of `id` with `values` and then inserts
/// `command` with the cursor at `cursor`.
pub open spec fn uses(r: Step, id: Seq<char>, values: Seq<(Seq<char>, Seq<char>)>, command: Seq<char>, cursor: Option<usize>) -> bool {
    match r {
        Step::Use { id: i, values: v, outcome } => i@ == id && pair_views(v@) == values && inserts(
            outcome,
            command,
            cursor,
        ),
        _ => false,
    }
}

/// Whether `r` asks for what was last given to the placeholders of `id`.
pub open spec fn recalls(r: Step, id: Seq<char>) -> bool {
    match r {
        Step::Recall { id: i } => i@ == id,
        _ => false,
    }
}

/// What the caller does once the picker has taken a key.
pub enum Step {
    /// Nothing: draw the picker again.
    Stay,
    /// Hand this back to the shell.
    Finish(Outcome),
    /// Record a use of entry `id`, remembering each value given to one of its
    /// placeholders, then hand `outcome` back to the shell.
    Use { id: String, values: Vec<(String, String)>, outcome: Outcome },
    /// Look up the values last given to the placeholders of entry `id` and
    /// hand them to `recalled`.
    Recall { id: String },
    /// Pin or unpin entry `id`, then hand the new standings to `repinned`.
    Pin { id: String, pinned: bool },
    /// Append `entry` to the user's library and record it as new, then hand
    /// the library as it now loads to `saved`.
    Append(crate::store::definitions::NewEntry),
    /// Write `entry` over the user's entry with its id, or add it, then hand
    /// the library as it now loads to `edited`.
    Upsert { entry: crate::store::definitions::NewEntry, shadowing: bool },
    /// Take entry `id` out of the user's library when it is the user's own,
    /// else list it as disabled there; forget its statistics; then hand the
    /// library as it now loads to `removed`.
    Remove { id: String, own: bool },
}

/// The description given for placeholder `name`: that of the first spec
/// that names it.
pub open spec fn param_desc(ps: Seq<(Seq<char>, ParamView)>, name: Seq<char>) -> Option<Seq<char>>
    decreases ps.len(),
{
    if ps.len() == 0 {
        None
    } else if ps[0].0 == name {
        ps[0].1.desc
    } else {
        param_desc(ps.drop_first(), name)
    }
}

/// The default written for `name`: that of the last placeholder named so
/// that has one.
pub open spec fn default_of(fs: Seq<Found>, name: Seq<char>) -> Option<Seq<char>>
    decreases fs.len(),
{
    if fs.len() == 0 {
        None
    } else if fs.last().name == name && fs.last().default is Some {
        fs.last().default
    } else {
        default_of(fs.drop_last(), name)
    }
}

/// The first entry of `es` with id `id`.
pub open spec fn first_with_id(es: Seq<EntryView>, id: Seq<char>) -> Option<EntryView>
    decreases es.len(),
{
    if es.len() == 0 {
        None
    } else if es[0].id == id {
        Some(es[0])
    } else {
        first_with_id(es.drop_first(), id)
    }
}

/// What a placeholder's field opens on: the value last given, else the
/// default the command writes, else nothing.
pub open spec fn opening_value(remembered: Seq<(Seq<char>, Seq<char>)>, fs: Seq<Found>, name: Seq<char>) -> Seq<char> {
    match crate::params::lookup(remembered, name) {
        Some(v) => v,
        None => match default_of(fs, name) {
            Some(d) => d,
            None => seq![],
        },
    }
}

/// The form asking for the placeholders of `template`, an entry's command.
pub open spec fn params_form(
    template: Seq<char>,
    entry: Option<EntryView>,
    remembered: Seq<(Seq<char>, Seq<char>)>,
) -> FormView {
    let fs = placeholders(template);
    let names = distinct_names(fs);
    FormView {
        title: "Fill in the placeholders"@,
        fields: Seq::new(
            names.len(),
            |k: int|
                FieldView {
                    label: names[k],
                    hint: match entry {
                        Some(e) => param_desc(e.params, names[k]),
                        None => None,
                    },
                    value: opening_value(remembered, fs, names[k]),
                    choices: seq![],
                },
        ),
        focused: 0,
        picking: None,
    }
}

/// What a finished placeholder form hands back: each label with its value
/// trimmed.
pub open spec fn given_values(fields: Seq<FieldView>) -> Seq<(Seq<char>, Seq<char>)> {
    fields.map_values(|f: FieldView| (f.label, trim(f.value)))
}

/// `template` with the placeholder `f` cut out.
pub open spec fn cut(template: Seq<char>, f: Found) -> Seq<char> {
    template.take(f.start) + template.skip(f.end)
}

impl App {
    /// The command of the row under the cursor.
    pub open spec fn chosen_template(self) -> Seq<char> {
        body_for(self.row_entry(self.selected as int).cmd, self.family).unwrap()
    }

    /// The description of placeholder `name` of entry `id`.
    fn hint_for(&self, id: &str, name: &str) -> (r: Option<String>)
        ensures
            opt_view(r) == match first_with_id(entry_views(self.entries@), id@) {
                Some(e) => param_desc(e.params, name@),
                None => None,
            },
    {
        let ghost es = entry_views(self.entries@);
        let mut i: usize = 0;
        assert(es.skip(0) =~= es);
        while i < self.entries.len()
            invariant
                i <= self.entries@.len(),
                es == entry_views(self.entries@),
                first_with_id(es.skip(i as int), id@) == first_with_id(es, id@),
            decreases self.entries@.len() - i,
        {
            assert(es.skip(i as int).drop_first() =~= es.skip(i + 1));
            assert(es.skip(i as int)[0] == self.entries@[i as int]@);
            if crate::text::same_str(self.entries[i].id.as_str(), id) {
                assert(first_with_id(es, id@) == Some(self.entries@[i as int]@));
                let ps = &self.entries[i].params;
                let ghost pv = crate::model::param_views(ps@);
                let mut k: usize = 0;
                assert(pv.skip(0) =~= pv);
                while k < ps.len()
                    invariant
                        k <= ps@.len(),
                        pv == crate::model::param_views(ps@),
                        i < self.entries@.len(),
                        es == entry_views(self.entries@),
                        first_with_id(es, id@) == Some(self.entries@[i as int]@),
                        pv == self.entries@[i as int]@.params,
                        param_desc(pv.skip(k as int), name@) == param_desc(pv, name@),
                    decreases ps@.len() - k,
                {
                    assert(pv.skip(k as int).drop_first() =~= pv.skip(k + 1));
                    assert(pv.skip(k as int)[0] == (ps@[k as int].0@, ps@[k as int].1@));
                    if crate::text::same_str(ps[k].0.as_str(), name) {
                        assert(param_desc(pv, name@) == opt_view(ps@[k as int].1.desc));
                        return match &ps[k].1.desc {
                            Some(d) => Some(crate::text::owned(d.as_str())),
                            None => None,
                        };
                    }
                    k += 1;
                }
                return None;
            }
            i += 1;
        }
        None
    }

    /// Enter on a row: hand the command back, or ask for its placeholders.
    ///
    /// One placeholder is not worth a screen. The command goes to the prompt
    /// with the placeholder cut out and the cursor in the gap, so the value is
    /// typed against the shell's own completion rather than into a form that
    /// knows nothing about paths, branches or container names.
    fn chosen(&self) -> (r: Step)
        requires
            self.ordered(),
        ensures
            self.order@.len() == 0 ==> r is Stay,
            self.order@.len() > 0 ==> ({
                let e = self.row_entry(self.selected as int);
                let t = self.chosen_template();
                let fs = placeholders(t);
                if fs.len() == 0 {
                    uses(r, e.id, seq![], t, None)
                } else if fs.len() == 1 {
                    uses(r, e.id, seq![], cut(t, fs[0]), Some(fs[0].start as usize))
                } else {
                    recalls(r, e.id)
                }
            }),
    {
        if self.order.len() == 0 {
            return Step::Stay;
        }
        let row = self.row(self.selected);
        let id = row.entry.id.clone();
        let template = row.cmd;
        let found = spots(template);
        proof {
            lemma_found_from(template@, 0);
            assert(template@ == self.chosen_template());
        }
        let values: Vec<(String, String)> = Vec::new();
        assert(pair_views(values@) =~= Seq::<(Seq<char>, Seq<char>)>::empty());
        if found.len() == 0 {
            return Step::Use {
                id,
                values,
                outcome: Outcome::Insert { command: crate::text::owned(template), cursor: None },
            };
        }
        if found.len() == 1 {
            let cs = chars_of(template);
            let start = found[0].start;
            let end = found[0].end;
            assert(found_views_at(found@, 0) == placeholders(template@)[0]);
            let mut kept = crate::text::slice(&cs, 0, start);
            crate::text::extend(&mut kept, &crate::text::slice(&cs, end, cs.len()));
            assert(kept@ =~= cut(template@, placeholders(template@)[0]));
            return Step::Use {
                id,
                values,
                outcome: Outcome::Insert { command: string_of(&kept), cursor: Some(start) },
            };
        }
        Step::Recall { id }
    }

    /// Opens the form for the placeholders of the row under the cursor, on
    /// the values `remembered` gives them, else their defaults.
    pub fn recalled(&mut self, remembered: &Vec<(String, String)>)
        requires
            old(self).wf(),
        ensures
            final(self).wf(),
            final(self).same_but_list_and_mode(*old(self)),
            final(self).same_list(*old(self)),
            final(self).selected == old(self).selected,
            old(self).order@.len() == 0 || placeholders(old(self).chosen_template()).len() == 0
                ==> final(self).mode == old(self).mode,
            old(self).order@.len() > 0 && placeholders(old(self).chosen_template()).len() > 0 ==> ({
                let e = old(self).row_entry(old(self).selected as int);
                let t = old(self).chosen_template();
                final(self).mode matches Mode::Params { entry_id, template, form } && entry_id@ == e.id
                    && template@ == t && form@ == params_form(
                    t,
                    first_with_id(entry_views(old(self).entries@), e.id),
                    pair_views(remembered@),
                )
            }),
    {
        if self.order.len() == 0 {
            return;
        }
        let row = self.row(self.selected);
        let entry_id = row.entry.id.clone();
        let template = crate::text::owned(row.cmd);
        let found = spots(template.as_str());
        assert(template@ == self.chosen_template());
        if found.len() == 0 {
            return;
        }
        let names = crate::params::names(template.as_str());
        let ghost fs = placeholders(template@);
        let ghost nv = distinct_names(fs);
        let ghost want = params_form(template@, first_with_id(entry_views(self.entries@), entry_id@), pair_views(remembered@));
        let mut fields: Vec<Field> = Vec::new();
        let mut k: usize = 0;
        assert(want.fields.len() == names@.len());
        while k < names.len()
            invariant
                k <= names@.len(),
                want.fields.len() == names@.len(),
                nv == distinct_names(fs),
                string_views(names@) == nv,
                fs == placeholders(template@),
                found_views_all(found@) == fs,
                want == params_form(template@, first_with_id(entry_views(self.entries@), entry_id@), pair_views(remembered@)),
                field_views(fields@) == want.fields.take(k as int),
            decreases names@.len() - k,
        {
            let name = names[k].as_str();
            assert(nv[k as int] == names@[k as int]@);
            let value = match remembered_value(remembered, name) {
                Some(v) => v,
                None => match default_value(&found, name) {
                    Some(d) => d,
                    None => String::new(),
                },
            };
            let hint = self.hint_for(entry_id.as_str(), name);
            let field = Field::new(name, value.as_str()).with_hint(hint);
            let ghost before = fields@;
            assert(value@ == opening_value(pair_views(remembered@), fs, nv[k as int]));
            assert(field@ == want.fields[k as int]);
            fields.push(field);
            assert(field_views(fields@) =~= field_views(before).push(want.fields[k as int]));
            assert(want.fields.take(k + 1) =~= want.fields.take(k as int).push(want.fields[k as int]));
            k += 1;
        }
        assert(field_views(fields@) =~= want.fields);
        proof {
            crate::params::lemma_distinct_nonempty(fs);
        }
        let form = Form::new("Fill in the placeholders", fields);
        self.mode = Mode::Params { entry_id, template, form };
    }

    /// The placeholder form is done: hand the command back with its values
    /// filled in.
    fn finish_params(&self) -> (r: Step)
        ensures
            self.mode matches Mode::Params { entry_id, template, form } ==> uses(
                r,
                entry_id@,
                given_values(form@.fields),
                rendered_from(template@, 0, given_values(form@.fields)),
                None,
            ),
            !(self.mode is Params) ==> r is Stay,
    {
        match &self.mode {
            Mode::Params { entry_id, template, form } => {
                let mut values: Vec<(String, String)> = Vec::new();
                let mut k: usize = 0;
                while k < form.fields.len()
                    invariant
                        k <= form.fields@.len(),
                        pair_views(values@) == given_values(form@.fields).take(k as int),
                    decreases form.fields@.len() - k,
                {
                    let v = form.value(k);
                    let ghost before = values@;
                    values.push((form.fields[k].label.clone(), v));
                    assert(pair_views(values@) =~= pair_views(before).push(given_values(form@.fields)[k as int]));
                    assert(given_values(form@.fields).take(k + 1) =~= given_values(form@.fields).take(k as int).push(
                        given_values(form@.fields)[k as int],
                    ));
                    k += 1;
                }
                assert(given_values(form@.fields).take(k as int) =~= given_values(form@.fields));
                let command = crate::params::render(template.as_str(), values.as_slice());
                Step::Use {
                    id: entry_id.clone(),
                    values,
                    outcome: Outcome::Insert { command, cursor: None },
                }
            },
            _ => Step::Stay,
        }
    }

    /// Everything but the list and the screen of `self` is as in `other`.
    pub open spec fn same_but_list_and_mode(self, other: App) -> bool {
        &&& self.entries@ == other.entries@
        &&& self.family == other.family
        &&& self.query@ == other.query@
        &&& self.status == other.status
        &&& self.scores@ == other.scores@
        &&& self.history@ == other.history@
        &&& self.armed_to_remove == other.armed_to_remove
        &&& self.changed == other.changed
    }
}

/// The value `remembered` gives `name`: the last pair that names it.
fn remembered_value(remembered: &Vec<(String, String)>, name: &str) -> (r: Option<String>)
    ensures
        opt_view(r) == crate::params::lookup(pair_views(remembered@), name@),
{
    let ghost all = pair_views(remembered@);
    let mut i: usize = remembered.len();
    assert(all.take(i as int) =~= all);
    while i > 0
        invariant
            i <= remembered@.len(),
            all == pair_views(remembered@),
            crate::params::lookup(all, name@) == crate::params::lookup(all.take(i as int), name@),
        decreases i,
    {
        assert(all.take(i as int).drop_last() =~= all.take(i - 1));
        assert(all.take(i as int).last() == (remembered@[i - 1].0@, remembered@[i - 1].1@));
        if crate::text::same_str(remembered[i - 1].0.as_str(), name) {
            return Some(remembered[i - 1].1.clone());
        }
        i -= 1;
    }
    None
}

/// The default written for `name` among the placeholders `found`.
fn default_value(found: &Vec<crate::params::Spot>, name: &str) -> (r: Option<String>)
    ensures
        opt_view(r) == default_of(found_views_all(found@), name@),
{
    let ghost all = found_views_all(found@);
    let mut i: usize = found.len();
    assert(all.take(i as int) =~= all);
    while i > 0
        invariant
            i <= found@.len(),
            all == found_views_all(found@),
            default_of(all, name@) == default_of(all.take(i as int), name@),
        decreases i,
    {
        assert(all.take(i as int).drop_last() =~= all.take(i - 1));
        assert(all.take(i as int).last() == found@[i - 1]@);
        if crate::text::same_str(found[i - 1].name.as_str(), name) {
            match &found[i - 1].default {
                Some(d) => {
                    return Some(d.clone());
                },
                None => {},
            }
        }
        i -= 1;
    }
    None
}

pub open spec fn found_views_all(v: Seq<crate::params::Spot>) -> Seq<Found> {
    crate::params::found_views(v)
}

pub open spec fn found_views_at(v: Seq<crate::params::Spot>, k: int) -> Found {
    v[k]@
}

pub struct SaveView {
    pub step: SaveStep,
    pub command: Seq<char>,
    pub purpose: Seq<char>,
    pub recalled: Option<usize>,
}

impl View for Save {
    type V = SaveView;

    open spec fn view(&self) -> SaveView {
        SaveView {
            step: self.step,
            command: self.command@,
            purpose: self.purpose@,
            recalled: self.recalled,
        }
    }
}

pub enum ModeView {
    Browse,
    Params { entry_id: Seq<char>, template: Seq<char>, form: FormView },
    Save(SaveView),
    Edit {
        id: Seq<char>,
        cmd: BodyView,
        params: Seq<(Seq<char>, ParamView)>,
        danger: bool,
        shadowing: bool,
        form: FormView,
    },
}

impl View for Mode {
    type V = ModeView;

    open spec fn view(&self) -> ModeView {
        match self {
            Mode::Browse => ModeView::Browse,
            Mode::Params { entry_id, template, form } => ModeView::Params {
                entry_id: entry_id@,
                template: template@,
                form: form@,
            },
            Mode::Save(save) => ModeView::Save(save@),
            Mode::Edit { id, cmd, params, danger, shadowing, form } => ModeView::Edit {
                id: id@,
                cmd: cmd@,
                params: param_views(params@),
                danger: *danger,
                shadowing: *shadowing,
                form: form@,
            },
        }
    }
}

/// What the picker shows and knows, as its contracts read it.
pub struct AppView {
    pub entries: Seq<EntryView>,
    pub family: ShellFamily,
    pub order: Seq<usize>,
    pub selected: nat,
    pub query: Seq<char>,
    pub mode: ModeView,
    pub status: Option<Seq<char>>,
    pub scores: Seq<(Seq<char>, Standing)>,
    pub history: Seq<Seq<char>>,
    pub armed: Option<Seq<char>>,
    pub changed: bool,
}

impl View for App {
    type V = AppView;

    open spec fn view(&self) -> AppView {
        AppView {
            entries: entry_views(self.entries@),
            family: self.family,
            order: self.order@,
            selected: self.selected as nat,
            query: self.query@,
            mode: self.mode@,
            status: opt_view(self.status),
            scores: score_views(self.scores@),
            history: string_views(self.history@),
            armed: opt_view(self.armed_to_remove),
            changed: self.changed,
        }
    }
}

/// The save a screen shows, when it shows one.
pub open spec fn save_of(m: ModeView) -> SaveView {
    match m {
        ModeView::Save(s) => s,
        _ => SaveView { step: SaveStep::Command, command: seq![], purpose: seq![], recalled: None },
    }
}

/// The line of a save that the cursor is on.
pub open spec fn line_of(s: SaveView) -> Seq<char> {
    match s.step {
        SaveStep::Command => s.command,
        SaveStep::Purpose => s.purpose,
    }
}

/// `s` with the line the cursor is on replaced.
pub open spec fn with_line(s: SaveView, line: Seq<char>) -> SaveView {
    match s.step {
        SaveStep::Command => SaveView { command: line, ..s },
        SaveStep::Purpose => SaveView { purpose: line, ..s },
    }
}

/// The command line walked `older` steps back through the shell's history.
/// Past the newest entry the line is empty, the way a shell's own prompt is
/// when down is pressed at the bottom of its history.
pub open spec fn recalled_from(s: SaveView, history: Seq<Seq<char>>, older: int) -> SaveView {
    let next = match s.recalled {
        Some(i) => i + older,
        None => if older > 0 {
            0
        } else {
            -1
        },
    };
    if s.recalled is None && older <= 0 {
        s
    } else if next < 0 {
        SaveView { recalled: None, command: seq![], ..s }
    } else if next < history.len() {
        SaveView { recalled: Some(next as usize), command: history[next], ..s }
    } else {
        s
    }
}

/// Where saving starts: on the newest thing the shell has, asking for the
/// command.
pub open spec fn fresh_save(history: Seq<Seq<char>>) -> SaveView {
    SaveView {
        step: SaveStep::Command,
        command: if history.len() > 0 {
            history[0]
        } else {
            seq![]
        },
        purpose: seq![],
        recalled: if history.len() > 0 {
            Some(0usize)
        } else {
            None
        },
    }
}

/// Shown when saving is asked to go on without saying what the command is
/// for.
pub open spec fn no_purpose() -> Seq<char> {
    "Say what it is for, so you can find it later"@
}

/// The description a save's answer gives.
pub open spec fn save_desc(s: SaveView) -> Seq<char> {
    joined_with(purpose_parts(words(s.purpose)).0, ' ')
}

/// What saving `s` writes, under the id `id`.
pub open spec fn saved_entry(s: SaveView, id: Seq<char>) -> NewEntryView {
    NewEntryView {
        id,
        cmd: BodyView::Shared(trim(s.command)),
        desc: save_desc(s),
        tags: with_new(purpose_parts(words(s.purpose)).1, derived_tags(trim(s.command))),
        params: seq![],
        danger: false,
    }
}

/// Whether some entry of `es` has exactly `command` for `family`.
pub open spec fn saved_in(es: Seq<EntryView>, family: ShellFamily, command: Seq<char>) -> bool {
    exists|i: int| 0 <= i < es.len() && body_for((#[trigger] es[i]).cmd, family) == Some(command)
}

/// The ids of `es`.
pub open spec fn ids_of(es: Seq<EntryView>) -> Seq<Seq<char>> {
    es.map_values(|e: EntryView| e.id)
}

/// What submitting the save `s` does to a picker in state `v`: sends the
/// cursor to whatever is missing, or asks for the entry to be written.
pub open spec fn submitted(v: AppView, s: SaveView, w: AppView, r: Step) -> bool {
    if trim(s.command).len() == 0 {
        &&& w == AppView {
            mode: ModeView::Save(SaveView { step: SaveStep::Command, ..s }),
            status: Some(NO_COMMAND@),
            ..v
        }
        &&& r is Stay
    } else if save_desc(s).len() == 0 {
        &&& w == AppView {
            mode: ModeView::Save(SaveView { step: SaveStep::Purpose, ..s }),
            status: Some(no_purpose()),
            ..v
        }
        &&& r is Stay
    } else {
        &&& w == v
        &&& r matches Step::Append(e) && e@ == saved_entry(s, e@.id) && suggests(
            trim(s.command),
            ids_of(v.entries),
            e@.id,
        )
    }
}

impl App {
    /// Starts saving on the newest thing the shell has.
    ///
    /// The shell puts whatever was on the prompt line ahead of its history,
    /// so a command typed but not yet run is what gets offered first, and the
    /// last one run when the line was empty.
    fn begin_save(&mut self)
        requires
            old(self).wf(),
        ensures
            final(self).wf(),
            final(self)@ == (AppView { mode: ModeView::Save(fresh_save(old(self)@.history)), ..old(self)@ }),
            final(self).same_list(*old(self)),
    {
        let command = if self.history.len() > 0 {
            self.history[0].clone()
        } else {
            String::new()
        };
        let recalled = if self.history.len() > 0 {
            Some(0)
        } else {
            None
        };
        self.mode = Mode::Save(Save { step: SaveStep::Command, command, purpose: String::new(), recalled });
        assert(final(self)@.mode == ModeView::Save(fresh_save(old(self)@.history)));
    }

    /// Walks the command line through the shell's history, `older` steps
    /// back.
    fn recall(&mut self, older: isize)
        requires
            old(self).wf(),
            old(self).mode is Save,
            -1 <= older <= 1,
        ensures
            final(self).wf(),
            final(self).same_list(*old(self)),
            final(self)@ == (AppView {
                mode: ModeView::Save(
                    recalled_from(save_of(old(self)@.mode), old(self)@.history, older as int),
                ),
                ..old(self)@
            }),
    {
        let n = self.history.len();
        let recalled = match &self.mode {
            Mode::Save(save) => save.recalled,
            _ => None,
        };
        // Where the line goes: `None` clears it, past the newest entry.
        let target: Option<usize> = match recalled {
            Some(index) => {
                if older < 0 {
                    if index == 0 {
                        None
                    } else {
                        Some(index - 1)
                    }
                } else if older == 0 {
                    Some(index)
                } else {
                    Some(index + 1)
                }
            },
            None => {
                if older > 0 {
                    Some(0)
                } else {
                    return;
                }
            },
        };
        match target {
            None => {
                if let Mode::Save(save) = &mut self.mode {
                    save.recalled = None;
                    save.command = String::new();
                }
            },
            Some(k) => {
                if k < n {
                    let command = self.history[k].clone();
                    if let Mode::Save(save) = &mut self.mode {
                        save.recalled = Some(k);
                        save.command = command;
                    }
                }
            },
        }
    }
}

/// `s` without its last character, if it has one.
fn without_last(s: &String) -> (r: String)
    ensures
        r@ == if s@.len() > 0 {
            s@.drop_last()
        } else {
            s@
        },
{
    let cs = chars_of(s.as_str());
    if cs.len() > 0 {
        let r = crate::text::slice(&cs, 0, cs.len() - 1);
        assert(r@ =~= s@.drop_last());
        string_of(&r)
    } else {
        owned(s.as_str())
    }
}

/// `s` with `c` after it.
fn with_char(s: &String, c: char) -> (r: String)
    ensures
        r@ == s@.push(c),
{
    let mut t = owned(s.as_str());
    crate::text::push_char(&mut t, c);
    t
}

impl App {
    /// The line of the save on screen that the cursor is on.
    fn save_line(&self) -> (r: String)
        requires
            self.mode is Save,
        ensures
            r@ == line_of(save_of(self@.mode)),
    {
        match &self.mode {
            Mode::Save(save) => match save.step {
                SaveStep::Command => owned(save.command.as_str()),
                SaveStep::Purpose => owned(save.purpose.as_str()),
            },
            _ => String::new(),
        }
    }

    /// Replaces the line of the save that the cursor is on.
    fn set_save_line(&mut self, line: String)
        requires
            old(self).wf(),
            old(self).mode is Save,
        ensures
            final(self).wf(),
            final(self).same_list(*old(self)),
            final(self)@ == (AppView {
                mode: ModeView::Save(with_line(save_of(old(self)@.mode), line@)),
                ..old(self)@
            }),
    {
        if let Mode::Save(save) = &mut self.mode {
            match save.step {
                SaveStep::Command => {
                    save.command = line;
                },
                SaveStep::Purpose => {
                    save.purpose = line;
                },
            }
        }
    }

    /// Moves the save's cursor to the line `step`.
    fn set_save_step(&mut self, step: SaveStep)
        requires
            old(self).wf(),
            old(self).mode is Save,
        ensures
            final(self).wf(),
            final(self).same_list(*old(self)),
            final(self)@ == (AppView {
                mode: ModeView::Save(SaveView { step, ..save_of(old(self)@.mode) }),
                ..old(self)@
            }),
    {
        if let Mode::Save(save) = &mut self.mode {
            save.step = step;
        }
    }

    /// The ids of the entries loaded.
    fn ids(&self) -> (r: Vec<String>)
        ensures
            string_views(r@) == ids_of(entry_views(self.entries@)),
    {
        let ghost es = entry_views(self.entries@);
        let mut out: Vec<String> = Vec::new();
        let mut i: usize = 0;
        while i < self.entries.len()
            invariant
                i <= self.entries@.len(),
                es == entry_views(self.entries@),
                string_views(out@) == ids_of(es).take(i as int),
            decreases self.entries@.len() - i,
        {
            let ghost before = out@;
            out.push(self.entries[i].id.clone());
            assert(string_views(out@) =~= string_views(before).push(es[i as int].id));
            assert(ids_of(es).take(i + 1) =~= ids_of(es).take(i as int).push(es[i as int].id));
            i += 1;
        }
        assert(ids_of(es).take(i as int) =~= ids_of(es));
        out
    }

    /// Submits the save on screen.
    fn finish_save(&mut self) -> (r: Step)
        requires
            old(self).wf(),
            old(self).mode is Save,
        ensures
            final(self).wf(),
            final(self).same_list(*old(self)),
            submitted(old(self)@, save_of(old(self)@.mode), final(self)@, r),
    {
        let (command, purpose) = match &self.mode {
            Mode::Save(save) => (string_of(&trimmed(&chars_of(save.command.as_str()))), owned(save.purpose.as_str())),
            _ => (String::new(), String::new()),
        };
        let (description, given) = split_purpose(purpose.as_str());
        if chars_of(command.as_str()).len() == 0 {
            self.set_save_step(SaveStep::Command);
            self.status = Some(owned(NO_COMMAND));
            return Step::Stay;
        }
        // Without a description the entry is only findable by its own text,
        // which defeats the point of saving it in the first place.
        if chars_of(description.as_str()).len() == 0 {
            self.set_save_step(SaveStep::Purpose);
            self.status = Some(owned("Say what it is for, so you can find it later"));
            return Step::Stay;
        }
        let taken = self.ids();
        let id = suggest_id(command.as_str(), &taken);
        let tags = merge_tags(given, command.as_str());
        let entry = NewEntry {
            id,
            cmd: CommandBody::Shared(command),
            desc: description,
            tags,
            params: Vec::new(),
            danger: false,
        };
        assert(param_views(entry.params@) =~= Seq::<(Seq<char>, ParamView)>::empty());
        Step::Append(entry)
    }

    /// The entry saved as `id` is in the library, which now loads as
    /// `entries` with `scores`: show it, under the cursor, on an empty query.
    pub fn saved(&mut self, entries: Vec<Entry>, scores: Vec<(String, Standing)>, id: &str)
        requires
            old(self).wf(),
        ensures
            final(self).wf(),
            final(self)@ == (AppView {
                entries: entry_views(entries@),
                scores: score_views(scores@),
                order: final(self)@.order,
                selected: match row_of(entry_views(entries@), final(self)@.order, id@) {
                    Some(k) => k as nat,
                    None => kept_within(old(self).selected as int, final(self)@.order.len() as int) as nat,
                },
                query: seq![],
                mode: ModeView::Browse,
                status: Some("Saved as "@ + id@),
                changed: true,
                ..old(self)@
            }),
    {
        self.entries = entries;
        self.scores = scores;
        self.mode = Mode::Browse;
        self.set_query(String::new());
        self.select_id(id);
        self.status = Some(concat("Saved as ", id));
        self.changed = true;
    }

    /// Whether the library already holds exactly this command for this
    /// shell.
    pub fn is_saved(&self, command: &str) -> (r: bool)
        ensures
            r == saved_in(self@.entries, self.family, trim(command@)),
    {
        let wanted = trimmed(&chars_of(command));
        let mut i: usize = 0;
        while i < self.entries.len()
            invariant
                i <= self.entries@.len(),
                wanted@ == trim(command@),
                forall|k: int| 0 <= k < i ==> body_for(#[trigger] self.entries@[k].cmd@, self.family) != Some(trim(command@)),
            decreases self.entries@.len() - i,
        {
            match self.entries[i].cmd_for(self.family) {
                Some(cmd) => {
                    if crate::text::same(&chars_of(cmd), &wanted) {
                        assert(entry_views(self.entries@)[i as int] == self.entries@[i as int]@);
                        return true;
                    }
                },
                None => {},
            }
            i += 1;
        }
        assert forall|k: int| 0 <= k < self@.entries.len() implies body_for(
            (#[trigger] self@.entries[k]).cmd,
            self.family,
        ) != Some(trim(command@)) by {
            assert(self@.entries[k] == self.entries@[k]@);
        }
        false
    }

    /// Tags the entry being saved would get, for showing before it is saved.
    pub fn save_tags(&self) -> (r: Vec<String>)
        ensures
            self.mode is Save ==> string_views(r@) == with_new(
                purpose_parts(words(save_of(self@.mode).purpose)).1,
                derived_tags(trim(save_of(self@.mode).command)),
            ),
            !(self.mode is Save) ==> r@.len() == 0,
    {
        match &self.mode {
            Mode::Save(save) => {
                let (_, given) = split_purpose(save.purpose.as_str());
                let command = string_of(&trimmed(&chars_of(save.command.as_str())));
                merge_tags(given, command.as_str())
            },
            _ => Vec::new(),
        }
    }

    /// Whether anything in the library was written while the picker was
    /// open.
    pub fn changed(&self) -> (r: bool)
        ensures
            r == self.changed,
    {
        self.changed
    }
}

/// `ls` with `sep` between each one and the next.
pub open spec fn joined_by(ls: Seq<Seq<char>>, sep: Seq<char>) -> Seq<char>
    decreases ls.len(),
{
    if ls.len() == 0 {
        seq![]
    } else if ls.len() == 1 {
        ls[0]
    } else {
        joined_by(ls.drop_last(), sep) + sep + ls.last()
    }
}

/// The strings of `v` with `sep` between each one and the next.
pub fn join_strings(v: &Vec<String>, sep: &str) -> (r: String)
    ensures
        r@ == joined_by(string_views(v@), sep@),
{
    let ghost all = string_views(v@);
    let mut out = String::new();
    let mut i: usize = 0;
    while i < v.len()
        invariant
            i <= v@.len(),
            all == string_views(v@),
            out@ == joined_by(all.take(i as int), sep@),
        decreases v@.len() - i,
    {
        assert(all.take(i + 1).drop_last() =~= all.take(i as int));
        assert(all.take(i + 1).last() == v@[i as int]@);
        if i > 0 {
            crate::text::append_str(&mut out, sep);
        } else {
            assert(all.take(1) =~= seq![v@[0]@]);
        }
        crate::text::append_str(&mut out, v[i].as_str());
        i += 1;
    }
    assert(all.take(i as int) =~= all);
    out
}

/// The edit screen for entry `e`, whose command for this shell is `cmd`.
pub open spec fn edit_form(e: EntryView, cmd: Seq<char>) -> FormView {
    FormView {
        title: "Edit "@ + e.id,
        fields: seq![
            FieldView { label: "command"@, hint: None, value: cmd, choices: seq![] },
            FieldView { label: "description"@, hint: None, value: e.desc, choices: seq![] },
            FieldView {
                label: "tags"@,
                hint: Some("comma separated"@),
                value: joined_by(e.tags, ", "@),
                choices: seq![],
            },
        ],
        focused: 0,
        picking: None,
    }
}

/// Where `v` writes a command for `family`, if it does.
pub open spec fn variant_index(v: Seq<(ShellFamily, Seq<char>)>, family: ShellFamily) -> Option<int>
    decreases v.len(),
{
    if v.len() == 0 {
        None
    } else if v[0].0 == family {
        Some(0)
    } else {
        match variant_index(v.drop_first(), family) {
            Some(k) => Some(k + 1),
            None => None,
        }
    }
}

/// `v` with the command for `family` replaced by `cmd`, or added in the
/// order the families sort in.
pub open spec fn set_variant(v: Seq<(ShellFamily, Seq<char>)>, family: ShellFamily, cmd: Seq<char>) -> Seq<(ShellFamily, Seq<char>)> {
    match variant_index(v, family) {
        Some(k) => v.update(k, (family, cmd)),
        None => if family == ShellFamily::Posix {
            seq![(family, cmd)] + v
        } else {
            v.push((family, cmd))
        },
    }
}

proof fn lemma_variant_index(v: Seq<(ShellFamily, Seq<char>)>, family: ShellFamily)
    ensures
        variant_index(v, family) matches Some(k) ==> 0 <= k < v.len() && v[k].0 == family,
        variant_index(v, family) is None ==> forall|k: int| 0 <= k < v.len() ==> v[k].0 != family,
    decreases v.len(),
{
    if v.len() > 0 {
        lemma_variant_index(v.drop_first(), family);
        if v[0].0 != family {
            assert forall|k: int| 0 < k < v.len() implies v[k].0 == v.drop_first()[k - 1].0 by {}
        }
    }
}

proof fn lemma_first_variant(v: Seq<(ShellFamily, Seq<char>)>, family: ShellFamily, i: int)
    requires
        0 <= i < v.len(),
        v[i].0 == family,
        forall|k: int| 0 <= k < i ==> v[k].0 != family,
    ensures
        variant_index(v, family) == Some(i),
    decreases i,
{
    if i > 0 {
        lemma_first_variant(v.drop_first(), family, i - 1);
    }
}

/// The command an edit writes: only the variant for the shell being used is
/// replaced. The others were never on screen and are none of the edit's
/// business.
pub open spec fn edited_body(body: BodyView, family: ShellFamily, cmd: Seq<char>) -> BodyView {
    match body {
        BodyView::Shared(_) => BodyView::Shared(cmd),
        BodyView::PerShell(v) => BodyView::PerShell(set_variant(v, family, cmd)),
    }
}

/// What finishing the edit screen `m` does to a picker in state `v`:
/// points at whatever is missing, or asks for the entry to be written.
pub open spec fn edit_submitted(v: AppView, m: ModeView, w: AppView, r: Step) -> bool {
    match m {
        ModeView::Edit { id, cmd, params, danger, shadowing, form } => {
            let command = trim(form.fields[0].value);
            let desc = trim(form.fields[1].value);
            if command.len() == 0 {
                &&& w == AppView { status: Some("A command is required"@), ..v }
                &&& r is Stay
            } else if desc.len() == 0 {
                &&& w == AppView {
                    status: Some("A description is required to find this later"@),
                    mode: ModeView::Edit {
                        id,
                        cmd,
                        params,
                        danger,
                        shadowing,
                        form: FormView { focused: 1, ..form },
                    },
                    ..v
                }
                &&& r is Stay
            } else {
                &&& w == v
                &&& r matches Step::Upsert { entry, shadowing: s } && s == shadowing && entry@ == (
                NewEntryView {
                    id,
                    cmd: edited_body(cmd, v.family, command),
                    desc,
                    tags: clean_tags(crate::text::split_on(trim(form.fields[2].value), ',')),
                    params,
                    danger,
                })
            }
        },
        _ => r is Stay && w == v,
    }
}

/// The command `body` becomes when its command for `family` is replaced by
/// `command`.
pub fn rewritten(body: &CommandBody, family: ShellFamily, command: String) -> (r: CommandBody)
    ensures
        r@ == edited_body(body@, family, command@),
{
    match body {
        CommandBody::Shared(_) => CommandBody::Shared(command),
        CommandBody::PerShell(variants) => {
            let ghost vv = variant_views(variants@);
            proof {
                lemma_variant_index(vv, family);
            }
            let mut out: Vec<(ShellFamily, String)> = Vec::new();
            let mut found = false;
            let mut i: usize = 0;
            assert(vv.skip(0) =~= vv);
            while i < variants.len()
                invariant
                    i <= variants@.len(),
                    vv == variant_views(variants@),
                    variant_index(vv, family) matches Some(k) ==> 0 <= k < vv.len() && vv[k].0 == family,
                    variant_index(vv, family) is None ==> forall|k: int| 0 <= k < vv.len() ==> vv[k].0 != family,
                    found <==> (variant_index(vv, family) matches Some(k) && k < i),
                    variant_views(out@) == if found {
                        set_variant(vv, family, command@).take(i as int)
                    } else {
                        vv.take(i as int)
                    },
                    !found ==> forall|k: int| 0 <= k < i ==> vv[k].0 != family,
                decreases variants@.len() - i,
            {
                let ghost before = out@;
                if !found && variants[i].0 == family {
                    proof {
                        lemma_first_variant(vv, family, i as int);
                    }
                    out.push((family, owned(command.as_str())));
                    found = true;
                    assert(variant_views(out@) =~= variant_views(before).push((family, command@)));
                    assert(variant_views(out@) =~= set_variant(vv, family, command@).take(i + 1));
                } else {
                    out.push((variants[i].0, variants[i].1.clone()));
                    assert(variant_views(out@) =~= variant_views(before).push(vv[i as int]));
                    if found {
                        let ghost k = variant_index(vv, family).unwrap();
                        let ghost sv = set_variant(vv, family, command@);
                        assert(sv == vv.update(k, (family, command@)));
                        assert(sv[i as int] == vv[i as int]);
                        assert(sv.take(i + 1) =~= sv.take(i as int).push(sv[i as int]));
                        assert(variant_views(out@) =~= set_variant(vv, family, command@).take(i + 1));
                    } else {
                        assert(variant_views(out@) =~= vv.take(i + 1));
                    }
                }
                i += 1;
            }
            if !found {
                assert(variant_index(vv, family) is None);
                assert(vv.take(i as int) =~= vv);
                if family == ShellFamily::Posix {
                    out.insert(0, (family, command));
                    assert(variant_views(out@) =~= set_variant(vv, family, command@));
                } else {
                    let ghost before = out@;
                    out.push((family, command));
                    assert(variant_views(out@) =~= set_variant(vv, family, command@));
                }
            } else {
                assert(set_variant(vv, family, command@).take(i as int) =~= set_variant(vv, family, command@));
            }
            CommandBody::PerShell(out)
        },
    }
}


impl App {
    /// Opens the edit screen on the selected entry.
    ///
    /// The id is not offered: changing it would orphan everything the usage
    /// statistics have learned about the entry, and the entry can be removed
    /// and saved again if it really needs a different one.
    fn begin_edit(&mut self)
        requires
            old(self).wf(),
        ensures
            final(self).wf(),
            final(self).same_list(*old(self)),
            old(self).order@.len() == 0 ==> final(self)@ == old(self)@,
            old(self).order@.len() > 0 ==> ({
                let e = old(self).row_entry(old(self).selected as int);
                final(self)@ == (AppView {
                    mode: ModeView::Edit {
                        id: e.id,
                        cmd: e.cmd,
                        params: e.params,
                        danger: e.danger,
                        shadowing: e.layer != Layer::User,
                        form: edit_form(e, old(self).chosen_template()),
                    },
                    ..old(self)@
                })
            }),
    {
        if self.order.len() == 0 {
            return;
        }
        let row = self.row(self.selected);
        let entry = row.entry;
        let fields = vec![
            Field::new("command", row.cmd),
            Field::new("description", entry.desc.as_str()),
            Field::new("tags", join_strings(&entry.tags, ", ").as_str()).with_hint(
                Some(owned("comma separated")),
            ),
        ];
        let title = concat("Edit ", entry.id.as_str());
        let form = Form::new(title.as_str(), fields);
        let id = entry.id.clone();
        let cmd = entry.cmd.copied();
        let params = crate::model::copy_params(&entry.params);
        let danger = entry.danger;
        let shadowing = entry.layer != Layer::User;
        proof {
            assert(field_views(fields@) =~= edit_form(row.entry@, row.cmd@).fields);
        }
        self.mode = Mode::Edit { id, cmd, params, danger, shadowing, form };
    }

    /// Submits the edit screen.
    fn finish_edit(&mut self) -> (r: Step)
        requires
            old(self).wf(),
        ensures
            final(self).wf(),
            final(self).same_list(*old(self)),
            edit_submitted(old(self)@, old(self)@.mode, final(self)@, r),
    {
        let (command, description, tags) = match &self.mode {
            Mode::Edit { form, .. } => (form.value(0), form.value(1), form.value(2)),
            _ => {
                return Step::Stay;
            },
        };
        if chars_of(command.as_str()).len() == 0 {
            self.status = Some(owned("A command is required"));
            return Step::Stay;
        }
        if chars_of(description.as_str()).len() == 0 {
            self.status = Some(owned("A description is required to find this later"));
            if let Mode::Edit { form, .. } = &mut self.mode {
                form.focused = 1;
            }
            return Step::Stay;
        }
        let tag_list = parse_tags(tags.as_str());
        match &self.mode {
            Mode::Edit { id, cmd, params, danger, shadowing, .. } => {
                let body = rewritten(cmd, self.family, command);
                let entry = NewEntry {
                    id: id.clone(),
                    cmd: body,
                    desc: description,
                    tags: tag_list,
                    params: crate::model::copy_params(params),
                    danger: *danger,
                };
                Step::Upsert { entry, shadowing: *shadowing }
            },
            _ => Step::Stay,
        }
    }

    /// The edited entry `id` is in the user's library, which now loads as
    /// `entries`: show it under the cursor.
    pub fn edited(&mut self, entries: Vec<Entry>, id: &str, shadowing: bool)
        requires
            old(self).wf(),
        ensures
            final(self).wf(),
            final(self)@ == (AppView {
                entries: entry_views(entries@),
                order: final(self)@.order,
                selected: match row_of(entry_views(entries@), final(self)@.order, id@) {
                    Some(k) => k as nat,
                    None => kept_within(old(self).selected as int, final(self)@.order.len() as int) as nat,
                },
                mode: ModeView::Browse,
                status: Some(
                    if shadowing {
                        "Saved "@ + id@ + " to your library, overriding the builtin"@
                    } else {
                        "Updated "@ + id@
                    },
                ),
                changed: true,
                ..old(self)@
            }),
    {
        self.changed = true;
        self.entries = entries;
        self.mode = Mode::Browse;
        self.reindex();
        self.select_id(id);
        self.status = Some(
            if shadowing {
                concat(concat("Saved ", id).as_str(), " to your library, overriding the builtin")
            } else {
                concat("Updated ", id)
            },
        );
    }

    /// Takes the selected entry out of the picker, asking once before it
    /// does.
    ///
    /// A builtin lives inside the binary and cannot be deleted, so it is
    /// listed as disabled in the user's library instead. Either way it stops
    /// appearing, which is what was asked for.
    fn remove(&mut self, armed: Option<String>) -> (r: Step)
        requires
            old(self).wf(),
        ensures
            final(self).wf(),
            final(self).same_list(*old(self)),
            old(self).order@.len() == 0 ==> final(self)@ == old(self)@ && r is Stay,
            old(self).order@.len() > 0 ==> ({
                let e = old(self).row_entry(old(self).selected as int);
                if opt_view(armed) != Some(e.id) {
                    &&& final(self)@ == (AppView {
                        status: Some("Remove "@ + e.id + "? ctrl+x again to confirm"@),
                        armed: Some(e.id),
                        ..old(self)@
                    })
                    &&& r is Stay
                } else {
                    &&& final(self)@ == old(self)@
                    &&& r matches Step::Remove { id, own } && id@ == e.id && own == (e.layer == Layer::User)
                }
            }),
    {
        if self.order.len() == 0 {
            return Step::Stay;
        }
        let row = self.row(self.selected);
        let id = row.entry.id.clone();
        let own = row.entry.layer == Layer::User;
        let confirmed = match &armed {
            Some(a) => crate::text::same_str(a.as_str(), id.as_str()),
            None => false,
        };
        if !confirmed {
            self.status = Some(concat(concat("Remove ", id.as_str()).as_str(), "? ctrl+x again to confirm"));
            self.armed_to_remove = Some(id);
            return Step::Stay;
        }
        Step::Remove { id, own }
    }

    /// Entry `id` is out of the library, which now loads as `entries` with
    /// `scores`.
    pub fn removed(&mut self, entries: Vec<Entry>, scores: Vec<(String, Standing)>, id: &str, own: bool)
        requires
            old(self).wf(),
        ensures
            final(self).wf(),
            final(self)@ == (AppView {
                entries: entry_views(entries@),
                scores: score_views(scores@),
                order: final(self)@.order,
                selected: kept_within(old(self).selected as int, final(self)@.order.len() as int) as nat,
                status: Some(
                    if own {
                        "Removed "@ + id@
                    } else {
                        "Hid "@ + id@ + ", listed under disabled in your library"@
                    },
                ),
                changed: true,
                ..old(self)@
            }),
    {
        self.changed = true;
        self.entries = entries;
        self.scores = scores;
        self.reindex();
        self.status = Some(
            if own {
                concat("Removed ", id)
            } else {
                concat(concat("Hid ", id).as_str(), ", listed under disabled in your library")
            },
        );
    }

    /// Pins the selected entry, or unpins it.
    fn toggle_pin(&self) -> (r: Step)
        requires
            self.ordered(),
        ensures
            self.order@.len() == 0 ==> r is Stay,
            self.order@.len() > 0 ==> ({
                let e = self.row_entry(self.selected as int);
                r matches Step::Pin { id, pinned } && id@ == e.id && pinned == !match standing_of(
                    self@.scores,
                    e.id,
                ) {
                    Some(s) => s.pinned,
                    None => false,
                }
            }),
    {
        if self.order.len() == 0 {
            return Step::Stay;
        }
        let row = self.row(self.selected);
        Step::Pin { id: row.entry.id.clone(), pinned: !row.pinned }
    }

    /// Entry `id` is now pinned, or not, and the statistics read `scores`.
    pub fn repinned(&mut self, scores: Vec<(String, Standing)>, id: &str, pinned: bool)
        requires
            old(self).wf(),
        ensures
            final(self).wf(),
            final(self)@ == (AppView {
                scores: score_views(scores@),
                order: final(self)@.order,
                selected: match row_of(old(self)@.entries, final(self)@.order, id@) {
                    Some(k) => k as nat,
                    None => kept_within(old(self).selected as int, final(self)@.order.len() as int) as nat,
                },
                status: Some(
                    if pinned {
                        "Pinned"@
                    } else {
                        "Unpinned"@
                    },
                ),
                ..old(self)@
            }),
    {
        self.scores = scores;
        self.reindex();
        self.select_id(id);
        self.status = Some(owned(if pinned { "Pinned" } else { "Unpinned" }));
    }
}

/// The entry under the cursor of `v`.
pub open spec fn row_entry_of(v: AppView) -> EntryView {
    v.entries[v.order[v.selected as int] as int]
}

/// The command of the entry under the cursor of `v`.
pub open spec fn template_of(v: AppView) -> Seq<char> {
    body_for(row_entry_of(v).cmd, v.family).unwrap()
}

/// Whether `r` hands `Cancelled` back to the shell.
pub open spec fn cancels(r: Step) -> bool {
    match r {
        Step::Finish(o) => o is Cancelled,
        _ => false,
    }
}

/// What Enter on a row asks for.
pub open spec fn choice(v: AppView, r: Step) -> bool {
    if v.order.len() == 0 {
        r is Stay
    } else {
        let e = row_entry_of(v);
        let t = template_of(v);
        let fs = placeholders(t);
        if fs.len() == 0 {
            uses(r, e.id, seq![], t, None)
        } else if fs.len() == 1 {
            uses(r, e.id, seq![], cut(t, fs[0]), Some(fs[0].start as usize))
        } else {
            recalls(r, e.id)
        }
    }
}

/// What ctrl+p asks for.
pub open spec fn pin_choice(v: AppView, r: Step) -> bool {
    if v.order.len() == 0 {
        r is Stay
    } else {
        let e = row_entry_of(v);
        r matches Step::Pin { id, pinned } && id@ == e.id && pinned == !match standing_of(
            v.scores,
            e.id,
        ) {
            Some(s) => s.pinned,
            None => false,
        }
    }
}

/// What ctrl+x does, with `armed` the entry the last key asked about.
pub open spec fn remove_choice(v: AppView, armed: Option<Seq<char>>, w: AppView, r: Step) -> bool {
    if v.order.len() == 0 {
        w == v && r is Stay
    } else {
        let e = row_entry_of(v);
        if armed != Some(e.id) {
            &&& w == AppView {
                status: Some("Remove "@ + e.id + "? ctrl+x again to confirm"@),
                armed: Some(e.id),
                ..v
            }
            &&& r is Stay
        } else {
            &&& w == v
            &&& r matches Step::Remove { id, own } && id@ == e.id && own == (e.layer == Layer::User)
        }
    }
}

/// The edit screen ctrl+e opens.
pub open spec fn edit_opened(v: AppView, w: AppView) -> bool {
    if v.order.len() == 0 {
        w == v
    } else {
        let e = row_entry_of(v);
        w == AppView {
            mode: ModeView::Edit {
                id: e.id,
                cmd: e.cmd,
                params: e.params,
                danger: e.danger,
                shadowing: e.layer != Layer::User,
                form: edit_form(e, template_of(v)),
            },
            ..v
        }
    }
}

/// `w` is `v` with the cursor moved `delta` rows.
pub open spec fn moved(v: AppView, delta: int, w: AppView) -> bool {
    w == AppView { selected: moved_to(v.selected as int, delta, v.order.len() as int) as nat, ..v }
}

/// `w` is `v` searching for `q` instead, the cursor kept where it was as far
/// as the new list allows.
pub open spec fn requeried(v: AppView, q: Seq<char>, w: AppView) -> bool {
    w == AppView {
        query: q,
        order: w.order,
        selected: kept_within(v.selected as int, w.order.len() as int) as nat,
        ..v
    }
}

/// `s` without its last character, if it has one.
pub open spec fn backspaced(s: Seq<char>) -> Seq<char> {
    if s.len() > 0 {
        s.drop_last()
    } else {
        s
    }
}

/// What a key does to the list.
pub open spec fn browsed(u: AppView, armed: Option<Seq<char>>, key: Key, w: AppView, r: Step) -> bool {
    let still = w == u && r is Stay;
    match key.code {
        KeyCode::Esc => w == u && cancels(r),
        KeyCode::Enter => w == u && choice(u, r),
        KeyCode::Up => moved(u, -1, w) && r is Stay,
        KeyCode::Down => moved(u, 1, w) && r is Stay,
        KeyCode::PageUp => moved(u, -10, w) && r is Stay,
        KeyCode::PageDown => moved(u, 10, w) && r is Stay,
        KeyCode::Backspace => requeried(u, backspaced(u.query), w) && r is Stay,
        KeyCode::Char(c) => if !key.control {
            requeried(u, u.query.push(c), w) && r is Stay
        } else if c == 'g' {
            w == u && cancels(r)
        } else if c == 'k' {
            moved(u, -1, w) && r is Stay
        } else if c == 'j' {
            moved(u, 1, w) && r is Stay
        } else if c == 'p' {
            w == u && pin_choice(u, r)
        } else if c == 's' {
            w == AppView { mode: ModeView::Save(fresh_save(u.history)), ..u } && r is Stay
        } else if c == 'e' {
            edit_opened(u, w) && r is Stay
        } else if c == 'x' {
            remove_choice(u, armed, w, r)
        } else if c == 'u' {
            requeried(u, seq![], w) && r is Stay
        } else {
            still
        },
        _ => still,
    }
}

/// `form` with its focus moved back a field, staying on the first.
pub open spec fn retreated(form: FormView) -> FormView {
    FormView {
        focused: if form.focused == 0 {
            0
        } else {
            (form.focused - 1) as nat
        },
        ..form
    }
}

/// What a key does to the field under the cursor of `form`, when it edits
/// it.
pub open spec fn typed_into(form: FormView, key: Key) -> Option<FormView> {
    match key.code {
        KeyCode::Up | KeyCode::BackTab => Some(retreated(form)),
        KeyCode::Backspace => Some(form.with_value(backspaced(form.current()))),
        KeyCode::Char(c) => if !key.control {
            Some(form.with_value(form.current().push(c)))
        } else if c == 'u' {
            Some(form.with_value(seq![]))
        } else {
            None
        },
        _ => None,
    }
}

/// Whether `key` moves a form to its next field.
pub open spec fn advances(key: Key) -> bool {
    key.code == KeyCode::Enter || key.code == KeyCode::Tab || key.code == KeyCode::Down
}

/// What a key does to the placeholder form.
pub open spec fn params_keyed(u: AppView, key: Key, w: AppView, r: Step) -> bool {
    match u.mode {
        ModeView::Params { entry_id, template, form } => if key.code == KeyCode::Esc {
            w == AppView { mode: ModeView::Browse, ..u } && r is Stay
        } else if advances(key) {
            if form.focused + 1 == form.fields.len() {
                w == u && uses(
                    r,
                    entry_id,
                    given_values(form.fields),
                    rendered_from(template, 0, given_values(form.fields)),
                    None,
                )
            } else {
                w == AppView {
                    mode: ModeView::Params { entry_id, template, form: FormView { focused: form.focused + 1, ..form } },
                    ..u
                } && r is Stay
            }
        } else {
            match typed_into(form, key) {
                Some(f) => w == AppView { mode: ModeView::Params { entry_id, template, form: f }, ..u }
                    && r is Stay,
                None => w == u && r is Stay,
            }
        },
        _ => true,
    }
}

/// What a key does to the save screen.
pub open spec fn save_keyed(u: AppView, key: Key, w: AppView, r: Step) -> bool {
    let s = save_of(u.mode);
    let c = key.control;
    let code = key.code;
    let with = |t: SaveView| AppView { mode: ModeView::Save(t), ..u };
    if code == KeyCode::Esc {
        w == AppView { mode: ModeView::Browse, ..u } && r is Stay
    } else if c && code == KeyCode::Char('s') {
        submitted(u, s, w, r)
    } else if s.step == SaveStep::Command && code == KeyCode::Up {
        w == with(recalled_from(s, u.history, 1)) && r is Stay
    } else if s.step == SaveStep::Command && code == KeyCode::Down {
        w == with(recalled_from(s, u.history, -1)) && r is Stay
    } else if s.step == SaveStep::Command && (code == KeyCode::Enter || code == KeyCode::Tab) {
        r is Stay && if trim(s.command).len() == 0 {
            w == AppView { status: Some(NO_COMMAND@), ..u }
        } else {
            w == with(SaveView { step: SaveStep::Purpose, ..s })
        }
    } else if s.step == SaveStep::Purpose && code == KeyCode::Enter {
        submitted(u, s, w, r)
    } else if s.step == SaveStep::Purpose && (code == KeyCode::Up || code == KeyCode::BackTab) {
        w == with(SaveView { step: SaveStep::Command, ..s }) && r is Stay
    } else if c && code == KeyCode::Char('u') {
        w == with(with_line(s, seq![])) && r is Stay
    } else if code == KeyCode::Backspace {
        w == with(with_line(s, backspaced(line_of(s)))) && r is Stay
    } else {
        match code {
            KeyCode::Char(ch) => if !c {
                w == with(with_line(s, line_of(s).push(ch))) && r is Stay
            } else {
                w == u && r is Stay
            },
            _ => w == u && r is Stay,
        }
    }
}

/// What a key does to the edit screen.
pub open spec fn edit_keyed(u: AppView, key: Key, w: AppView, r: Step) -> bool {
    match u.mode {
        ModeView::Edit { id, cmd, params, danger, shadowing, form } => if key.code == KeyCode::Esc {
            w == AppView { mode: ModeView::Browse, ..u } && r is Stay
        } else if advances(key) {
            if form.focused + 1 == form.fields.len() {
                edit_submitted(u, u.mode, w, r)
            } else {
                w == AppView {
                    mode: ModeView::Edit {
                        id,
                        cmd,
                        params,
                        danger,
                        shadowing,
                        form: FormView { focused: form.focused + 1, ..form },
                    },
                    ..u
                } && r is Stay
            }
        } else if key.control && key.code == KeyCode::Char('s') {
            edit_submitted(u, u.mode, w, r)
        } else {
            match typed_into(form, key) {
                Some(f) => w == AppView {
                    mode: ModeView::Edit { id, cmd, params, danger, shadowing, form: f },
                    ..u
                } && r is Stay,
                None => w == u && r is Stay,
            }
        },
        _ => true,
    }
}

/// What a key does to a picker in state `v`, leaving it in state `w` and
/// asking for `r`. Any key first clears the status line and stands a pending
/// removal down; ctrl+c leaves from anywhere.
pub open spec fn key_taken(v: AppView, key: Key, w: AppView, r: Step) -> bool {
    let u = AppView { status: None, armed: None, ..v };
    if key.control && key.code == KeyCode::Char('c') {
        w == u && cancels(r)
    } else {
        match v.mode {
            ModeView::Browse => browsed(u, v.armed, key, w, r),
            ModeView::Params { .. } => params_keyed(u, key, w, r),
            ModeView::Save(_) => save_keyed(u, key, w, r),
            ModeView::Edit { .. } => edit_keyed(u, key, w, r),
        }
    }
}

impl App {
    /// A key while the list is on screen.
    fn browse_key(&mut self, key: Key, armed: Option<String>) -> (r: Step)
        requires
            old(self).wf(),
            old(self).mode is Browse,
        ensures
            final(self).wf(),
            browsed(old(self)@, opt_view(armed), key, final(self)@, r),
    {
        match key.code {
            KeyCode::Esc => Step::Finish(Outcome::Cancelled),
            KeyCode::Enter => self.chosen(),
            KeyCode::Up => {
                self.move_by(-1);
                Step::Stay
            },
            KeyCode::Down => {
                self.move_by(1);
                Step::Stay
            },
            KeyCode::PageUp => {
                self.move_by(-10);
                Step::Stay
            },
            KeyCode::PageDown => {
                self.move_by(10);
                Step::Stay
            },
            KeyCode::Backspace => {
                let q = without_last(&self.query);
                self.set_query(q);
                Step::Stay
            },
            KeyCode::Char(c) => {
                if !key.control {
                    let q = with_char(&self.query, c);
                    self.set_query(q);
                    Step::Stay
                } else if c == 'g' {
                    Step::Finish(Outcome::Cancelled)
                } else if c == 'k' {
                    self.move_by(-1);
                    Step::Stay
                } else if c == 'j' {
                    self.move_by(1);
                    Step::Stay
                } else if c == 'p' {
                    self.toggle_pin()
                } else if c == 's' {
                    self.begin_save();
                    Step::Stay
                } else if c == 'e' {
                    self.begin_edit();
                    Step::Stay
                } else if c == 'x' {
                    self.remove(armed)
                } else if c == 'u' {
                    self.set_query(String::new());
                    Step::Stay
                } else {
                    Step::Stay
                }
            },
            _ => Step::Stay,
        }
    }

    /// A key while the placeholder form is on screen.
    fn params_key(&mut self, key: Key) -> (r: Step)
        requires
            old(self).wf(),
            old(self).mode is Params,
        ensures
            final(self).wf(),
            params_keyed(old(self)@, key, final(self)@, r),
    {
        if key.code == KeyCode::Esc {
            self.mode = Mode::Browse;
            return Step::Stay;
        }
        if key.code == KeyCode::Enter || key.code == KeyCode::Tab || key.code == KeyCode::Down {
            let done = match &mut self.mode {
                Mode::Params { form, .. } => form.advance(),
                _ => false,
            };
            if done {
                return self.finish_params();
            }
            return Step::Stay;
        }
        match &mut self.mode {
            Mode::Params { form, .. } => {
                type_into(form, key);
            },
            _ => {},
        }
        Step::Stay
    }

    /// A key while the save screen is on.
    fn save_key(&mut self, key: Key) -> (r: Step)
        requires
            old(self).wf(),
            old(self).mode is Save,
        ensures
            final(self).wf(),
            save_keyed(old(self)@, key, final(self)@, r),
    {
        let (step, empty_command) = match &self.mode {
            Mode::Save(save) => (save.step, trimmed(&chars_of(save.command.as_str())).len() == 0),
            _ => (SaveStep::Command, true),
        };
        let code = key.code;
        let c = key.control;
        if code == KeyCode::Esc {
            self.mode = Mode::Browse;
            Step::Stay
        } else if c && code == KeyCode::Char('s') {
            self.finish_save()
        } else if step == SaveStep::Command && code == KeyCode::Up {
            self.recall(1);
            Step::Stay
        } else if step == SaveStep::Command && code == KeyCode::Down {
            self.recall(-1);
            Step::Stay
        } else if step == SaveStep::Command && (code == KeyCode::Enter || code == KeyCode::Tab) {
            if empty_command {
                self.status = Some(owned(NO_COMMAND));
            } else {
                self.set_save_step(SaveStep::Purpose);
            }
            Step::Stay
        } else if step == SaveStep::Purpose && code == KeyCode::Enter {
            self.finish_save()
        } else if step == SaveStep::Purpose && (code == KeyCode::Up || code == KeyCode::BackTab) {
            self.set_save_step(SaveStep::Command);
            Step::Stay
        } else if c && code == KeyCode::Char('u') {
            self.set_save_line(String::new());
            Step::Stay
        } else if code == KeyCode::Backspace {
            let line = self.save_line();
            self.set_save_line(without_last(&line));
            Step::Stay
        } else {
            match code {
                KeyCode::Char(ch) => {
                    if !c {
                        let line = self.save_line();
                        self.set_save_line(with_char(&line, ch));
                    }
                    Step::Stay
                },
                _ => Step::Stay,
            }
        }
    }

    /// A key while the edit screen is on.
    fn edit_key(&mut self, key: Key) -> (r: Step)
        requires
            old(self).wf(),
            old(self).mode is Edit,
        ensures
            final(self).wf(),
            edit_keyed(old(self)@, key, final(self)@, r),
    {
        if key.code == KeyCode::Esc {
            self.mode = Mode::Browse;
            return Step::Stay;
        }
        if key.code == KeyCode::Enter || key.code == KeyCode::Tab || key.code == KeyCode::Down {
            let done = match &mut self.mode {
                Mode::Edit { form, .. } => form.advance(),
                _ => false,
            };
            if done {
                return self.finish_edit();
            }
            return Step::Stay;
        }
        if key.control && key.code == KeyCode::Char('s') {
            return self.finish_edit();
        }
        match &mut self.mode {
            Mode::Edit { form, .. } => {
                type_into(form, key);
            },
            _ => {},
        }
        Step::Stay
    }

    /// Takes a key and says what to do next. Any key first clears the status
    /// line and stands a pending removal down; ctrl+c leaves from anywhere.
    pub fn on_key(&mut self, key: Key) -> (r: Step)
        requires
            old(self).wf(),
        ensures
            final(self).wf(),
            key_taken(old(self)@, key, final(self)@, r),
    {
        self.status = None;
        let armed = match &self.armed_to_remove {
            Some(a) => Some(a.clone()),
            None => None,
        };
        self.armed_to_remove = None;
        if key.control && key.code == KeyCode::Char('c') {
            return Step::Finish(Outcome::Cancelled);
        }
        let which: u8 = match &self.mode {
            Mode::Browse => 0,
            Mode::Params { .. } => 1,
            Mode::Save(_) => 2,
            Mode::Edit { .. } => 3,
        };
        if which == 0 {
            self.browse_key(key, armed)
        } else if which == 1 {
            self.params_key(key)
        } else if which == 2 {
            self.save_key(key)
        } else {
            self.edit_key(key)
        }
    }

    /// Where the query matched `haystack`, for highlighting the rows on
    /// screen.
    pub fn highlight(&mut self, haystack: &str) -> (r: Vec<u32>)
        ensures
            trim(old(self).query@).len() == 0 || !crate::search::matchable(haystack@) ==> r@.len() == 0,
            trim(old(self).query@).len() > 0 && crate::search::matchable(haystack@) ==> {
                &&& forall|a: int, b: int| 0 <= a < b < r@.len() ==> r@[a] < r@[b]
                &&& r@.to_set() == crate::search::fuzzy_positions(haystack@, trim(old(self).query@)).to_set()
            },
            final(self)@ == old(self)@,
            final(self).pickable == old(self).pickable,
            final(self).ranked == old(self).ranked,
    {
        self.ranker.highlight(haystack, self.query.as_str())
    }
}

/// Applies a key that edits the field under the cursor of `form`, if it is
/// one.
fn type_into(form: &mut Form, key: Key)
    requires
        old(form)@.wf(),
    ensures
        final(form)@.wf(),
        final(form)@.fields.len() == old(form)@.fields.len(),
        match typed_into(old(form)@, key) {
            Some(f) => final(form)@ == f,
            None => final(form)@ == old(form)@,
        },
{
    match key.code {
        KeyCode::Up | KeyCode::BackTab => form.retreat(),
        KeyCode::Backspace => form.backspace(),
        KeyCode::Char(c) => {
            if !key.control {
                form.insert(c);
            } else if c == 'u' {
                form.clear();
            }
        },
        _ => {},
    }
}
} // verus!
