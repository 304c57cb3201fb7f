//! Combining two copies of a library that changed apart.
//!
//! Git moves the file between machines, but it merges by line, and two
//! machines that each saved a command have both added lines at the end of the
//! same list. Git calls that a conflict although nothing clashes. The merge
//! here works on entries by id instead, so the only real conflict is one entry
//! changed differently in two places.

use vstd::prelude::*;

use crate::model::{entry_views, Entry, EntryView, Layer, Library};
use crate::params::string_views;
use crate::store::definitions::{
    appended, appended_text, disabled_text, enabled_text, lemma_pigeonhole, numbered, removed,
    removed_text, upserted, upserted_text, with_disabled, with_enabled, with_new, written_view,
    EditError, NewEntry, NewEntryView,
};
use crate::store::layers::{
    id_before, id_lt, lemma_id_lt_asymmetric, lemma_id_lt_irreflexive, lemma_id_lt_total,
    lemma_id_lt_transitive, library_fault, stamped, stamped_all, LoadError, LoadFault,
};

verus! {

broadcast use vstd::string::group_string_axioms;

/// One copy of a library, reduced to what the merge compares: its entries in
/// the order the file declares them, so additions arrive in the order they
/// were made, and the patterns it hides, each once.
pub struct Side {
    pub entries: Vec<Entry>,
    pub disabled: Vec<String>,
}

pub struct SideView {
    pub entries: Seq<EntryView>,
    pub disabled: Seq<Seq<char>>,
}

impl View for Side {
    type V = SideView;

    open spec fn view(&self) -> SideView {
        SideView { entries: entry_views(self.entries@), disabled: string_views(self.disabled@) }
    }
}

/// Whether no id occurs twice among `es`.
pub open spec fn unique_ids(es: Seq<EntryView>) -> bool {
    forall|i: int, j: int| 0 <= i < j < es.len() ==> (#[trigger] es[i]).id != (#[trigger] es[j]).id
}

/// Whether nothing occurs twice in `s`.
pub open spec fn unique(s: Seq<Seq<char>>) -> bool {
    forall|i: int, j: int| 0 <= i < j < s.len() ==> #[trigger] s[i] != #[trigger] s[j]
}

impl SideView {
    pub open spec fn wf(self) -> bool {
        unique_ids(self.entries) && unique(self.disabled)
    }
}

/// `s` with each element after its first occurrence left out.
pub open spec fn dedup(s: Seq<Seq<char>>) -> Seq<Seq<char>>
    decreases s.len(),
{
    if s.len() == 0 {
        seq![]
    } else if dedup(s.drop_last()).contains(s.last()) {
        dedup(s.drop_last())
    } else {
        dedup(s.drop_last()).push(s.last())
    }
}

proof fn lemma_dedup(s: Seq<Seq<char>>)
    ensures
        unique(dedup(s)),
        forall|x: Seq<char>| dedup(s).contains(x) <==> s.contains(x),
    decreases s.len(),
{
    if s.len() > 0 {
        let u = s.drop_last();
        lemma_dedup(u);
        let d = dedup(u);
        assert forall|x: Seq<char>| s.contains(x) <==> (u.contains(x) || x == s.last()) by {
            if s.contains(x) {
                let k = choose|k: int| 0 <= k < s.len() && s[k] == x;
                if k < s.len() - 1 {
                    assert(u[k] == x);
                }
            }
            if u.contains(x) {
                let k = choose|k: int| 0 <= k < u.len() && u[k] == x;
                assert(s[k] == x);
            }
            if x == s.last() {
                assert(s[s.len() - 1] == x);
            }
        }
        if !d.contains(s.last()) {
            let e = d.push(s.last());
            assert forall|x: Seq<char>| e.contains(x) <==> (d.contains(x) || x == s.last()) by {
                if e.contains(x) {
                    let k = choose|k: int| 0 <= k < e.len() && e[k] == x;
                    if k < d.len() {
                        assert(d[k] == x);
                    }
                }
                if d.contains(x) {
                    let k = choose|k: int| 0 <= k < d.len() && d[k] == x;
                    assert(e[k] == x);
                }
                if x == s.last() {
                    assert(e[d.len() as int] == x);
                }
            }
            assert forall|i: int, j: int| 0 <= i < j < e.len() implies #[trigger] e[i]
                != #[trigger] e[j] by {
                if j == d.len() {
                    assert(e[i] == d[i]);
                    assert(d.contains(d[i]));
                } else {
                    assert(e[i] == d[i] && e[j] == d[j]);
                }
            }
        }
    }
}

fn dedup_strings(v: Vec<String>) -> (r: Vec<String>)
    ensures
        string_views(r@) == dedup(string_views(v@)),
{
    let ghost s = string_views(v@);
    let mut out: Vec<String> = Vec::new();
    let mut i: usize = 0;
    while i < v.len()
        invariant
            i <= v@.len(),
            s == string_views(v@),
            string_views(out@) == dedup(s.take(i as int)),
        decreases v@.len() - i,
    {
        assert(s.take(i + 1).drop_last() =~= s.take(i as int));
        assert(s.take(i + 1).last() == v@[i as int]@);
        if !crate::params::list_has(&out, &v[i]) {
            let ghost before = out@;
            out.push(v[i].clone());
            assert(string_views(out@) =~= string_views(before).push(v@[i as int]@));
        }
        i += 1;
    }
    assert(s.take(i as int) =~= s);
    out
}

/// Entries that passed the checks of a library file have distinct ids.
proof fn lemma_no_fault_unique(es: Seq<EntryView>, i: int)
    requires
        0 <= i,
        crate::store::layers::first_fault(es, i) is None,
    ensures
        forall|a: int, b: int| 0 <= a < b < es.len() && i <= b ==> (#[trigger] es[a]).id != (
        #[trigger] es[b]).id,
    decreases es.len() - i,
{
    if i < es.len() {
        lemma_no_fault_unique(es, i + 1);
        assert(crate::store::layers::entry_fault(es, i) is None);
    }
}

impl Side {
    /// Checks a parsed library file as the user's own and reduces it to a
    /// side of a merge.
    pub fn of(library: Library) -> (r: Result<Side, LoadError>)
        ensures
            match r {
                Ok(side) => {
                    &&& library_fault(library.version, entry_views(library.commands@)) is None
                    &&& side@.entries == stamped_all(entry_views(library.commands@), Layer::User)
                    &&& side@.disabled == dedup(string_views(library.disabled@))
                    &&& side@.wf()
                },
                Err(e) => library_fault(library.version, entry_views(library.commands@))
                    == Some(e@),
            },
    {
        let ghost es = entry_views(library.commands@);
        let ghost ds = string_views(library.disabled@);
        let checked = match stamped(library, Layer::User) {
            Ok(l) => l,
            Err(e) => return Err(e),
        };
        proof {
            lemma_no_fault_unique(es, 0);
            lemma_dedup(ds);
        }
        let side = Side { entries: checked.commands, disabled: dedup_strings(checked.disabled) };
        assert forall|i: int, j: int| 0 <= i < j < side@.entries.len() implies (
        #[trigger] side@.entries[i]).id != (#[trigger] side@.entries[j]).id by {
            assert(side@.entries[i].id == es[i].id);
            assert(side@.entries[j].id == es[j].id);
        }
        Ok(side)
    }
}


// ---------------------------------------------------------------------------
// Counting changes
// ---------------------------------------------------------------------------

/// The entry of `es` declared as `id`.
pub open spec fn entry_of(es: Seq<EntryView>, id: Seq<char>) -> Option<EntryView>
    decreases es.len(),
{
    if es.len() == 0 {
        None
    } else if es[0].id == id {
        Some(es[0])
    } else {
        entry_of(es.drop_first(), id)
    }
}

/// How many entries of `xs` are not found unchanged among `others`.
pub open spec fn count_differs(xs: Seq<EntryView>, others: Seq<EntryView>) -> nat
    decreases xs.len(),
{
    if xs.len() == 0 {
        0
    } else {
        count_differs(xs.drop_last(), others) + if entry_of(others, xs.last().id) == Some(
            xs.last(),
        ) {
            0nat
        } else {
            1nat
        }
    }
}

/// How many entries of `ys` have an id that `xs` does not declare.
pub open spec fn count_new(ys: Seq<EntryView>, xs: Seq<EntryView>) -> nat
    decreases ys.len(),
{
    if ys.len() == 0 {
        0
    } else {
        count_new(ys.drop_last(), xs) + if entry_of(xs, ys.last().id) is None {
            1nat
        } else {
            0nat
        }
    }
}

/// How many of `ps` are not among `qs`.
pub open spec fn count_missing(ps: Seq<Seq<char>>, qs: Seq<Seq<char>>) -> nat
    decreases ps.len(),
{
    if ps.len() == 0 {
        0
    } else {
        count_missing(ps.drop_last(), qs) + if qs.contains(ps.last()) {
            0nat
        } else {
            1nat
        }
    }
}

/// How many entries and hidden patterns differ between two copies: the ids
/// either declares whose entries differ, and the patterns only one hides.
pub open spec fn changes(from: SideView, to: SideView) -> nat {
    count_differs(from.entries, to.entries) + count_new(to.entries, from.entries) + count_missing(
        from.disabled,
        to.disabled,
    ) + count_missing(to.disabled, from.disabled)
}

proof fn lemma_counts_bounded(xs: Seq<EntryView>, ys: Seq<EntryView>, ps: Seq<Seq<char>>, qs: Seq<Seq<char>>)
    ensures
        count_differs(xs, ys) <= xs.len(),
        count_new(xs, ys) <= xs.len(),
        count_missing(ps, qs) <= ps.len(),
    decreases xs.len() + ps.len(),
{
    if xs.len() > 0 {
        lemma_counts_bounded(xs.drop_last(), ys, ps, qs);
    }
    if ps.len() > 0 {
        lemma_counts_bounded(xs, ys, ps.drop_last(), qs);
    }
}

/// Where among `es` the entry declared as `id` is.
fn find(es: &Vec<Entry>, id: &String) -> (r: Option<usize>)
    ensures
        match r {
            Some(k) => k < es@.len() && entry_of(entry_views(es@), id@) == Some(es@[k as int]@),
            None => entry_of(entry_views(es@), id@) is None,
        },
{
    let ghost v = entry_views(es@);
    let mut i: usize = 0;
    assert(v.skip(0) =~= v);
    while i < es.len()
        invariant
            i <= es@.len(),
            v == entry_views(es@),
            entry_of(v.skip(i as int), id@) == entry_of(v, id@),
        decreases es@.len() - i,
    {
        assert(v.skip(i as int)[0] == es@[i as int]@);
        assert(v.skip(i as int).drop_first() =~= v.skip(i + 1));
        if es[i].id == *id {
            return Some(i);
        }
        i += 1;
    }
    None
}

fn differs_count(xs: &Vec<Entry>, others: &Vec<Entry>) -> (r: usize)
    ensures
        r == count_differs(entry_views(xs@), entry_views(others@)),
{
    let ghost v = entry_views(xs@);
    let mut n: usize = 0;
    let mut i: usize = 0;
    while i < xs.len()
        invariant
            i <= xs@.len(),
            v == entry_views(xs@),
            n == count_differs(v.take(i as int), entry_views(others@)),
            n <= i,
        decreases xs@.len() - i,
    {
        assert(v.take(i + 1).drop_last() =~= v.take(i as int));
        assert(v.take(i + 1).last() == xs@[i as int]@);
        let same = match find(others, &xs[i].id) {
            Some(k) => others[k].same_as(&xs[i]),
            None => false,
        };
        if !same {
            n += 1;
        }
        i += 1;
    }
    assert(v.take(i as int) =~= v);
    n
}

fn new_count(ys: &Vec<Entry>, xs: &Vec<Entry>) -> (r: usize)
    ensures
        r == count_new(entry_views(ys@), entry_views(xs@)),
{
    let ghost v = entry_views(ys@);
    let mut n: usize = 0;
    let mut i: usize = 0;
    while i < ys.len()
        invariant
            i <= ys@.len(),
            v == entry_views(ys@),
            n == count_new(v.take(i as int), entry_views(xs@)),
            n <= i,
        decreases ys@.len() - i,
    {
        assert(v.take(i + 1).drop_last() =~= v.take(i as int));
        assert(v.take(i + 1).last() == ys@[i as int]@);
        if find(xs, &ys[i].id).is_none() {
            n += 1;
        }
        i += 1;
    }
    assert(v.take(i as int) =~= v);
    n
}

fn missing_count(ps: &Vec<String>, qs: &Vec<String>) -> (r: usize)
    ensures
        r == count_missing(string_views(ps@), string_views(qs@)),
{
    let ghost v = string_views(ps@);
    let mut n: usize = 0;
    let mut i: usize = 0;
    while i < ps.len()
        invariant
            i <= ps@.len(),
            v == string_views(ps@),
            n == count_missing(v.take(i as int), string_views(qs@)),
            n <= i,
        decreases ps@.len() - i,
    {
        assert(v.take(i + 1).drop_last() =~= v.take(i as int));
        assert(v.take(i + 1).last() == ps@[i as int]@);
        if !crate::params::list_has(qs, &ps[i]) {
            n += 1;
        }
        i += 1;
    }
    assert(v.take(i as int) =~= v);
    n
}

/// Whether the sizes of three copies leave room to count their changes.
pub open spec fn fits(a: SideView, b: SideView, c: SideView) -> bool {
    2 * (a.entries.len() + b.entries.len() + c.entries.len() + a.disabled.len()
        + b.disabled.len() + c.disabled.len()) + 1 < usize::MAX
}

/// How many entries and hidden patterns differ between two copies.
fn changed(from: &Side, to: &Side) -> (r: usize)
    requires
        from@.entries.len() + to@.entries.len() + from@.disabled.len() + to@.disabled.len()
            <= usize::MAX,
    ensures
        r == changes(from@, to@),
{
    let a = differs_count(&from.entries, &to.entries);
    let b = new_count(&to.entries, &from.entries);
    let c = missing_count(&from.disabled, &to.disabled);
    let d = missing_count(&to.disabled, &from.disabled);
    proof {
        lemma_counts_bounded(from@.entries, to@.entries, from@.disabled, to@.disabled);
        lemma_counts_bounded(to@.entries, from@.entries, to@.disabled, from@.disabled);
    }
    a + b + c + d
}


// ---------------------------------------------------------------------------
// Deciding what to take from the other side
// ---------------------------------------------------------------------------

/// One change to make to this machine's library.
#[derive(Debug, Clone, PartialEq, Eq)]
pub enum Step {
    /// Write the other machine's version of the entry with this id.
    Take(String),
    /// Write the other machine's version of the entry with the first id, and
    /// keep this machine's version under the second.
    KeepBoth(String, String),
    /// Remove the entry with this id.
    Drop(String),
    /// Hide this pattern.
    Hide(String),
    /// Stop hiding this pattern.
    Unhide(String),
}

pub enum StepView {
    Take(Seq<char>),
    KeepBoth(Seq<char>, Seq<char>),
    Drop(Seq<char>),
    Hide(Seq<char>),
    Unhide(Seq<char>),
}

impl View for Step {
    type V = StepView;

    open spec fn view(&self) -> StepView {
        match self {
            Step::Take(id) => StepView::Take(id@),
            Step::KeepBoth(id, copy) => StepView::KeepBoth(id@, copy@),
            Step::Drop(id) => StepView::Drop(id@),
            Step::Hide(p) => StepView::Hide(p@),
            Step::Unhide(p) => StepView::Unhide(p@),
        }
    }
}

pub open spec fn step_views(v: Seq<Step>) -> Seq<StepView> {
    v.map_values(|s: Step| s@)
}

/// The first number from `n` on that, written after `stem`, names no id in
/// `taken`.
pub open spec fn free_number(stem: Seq<char>, taken: Seq<Seq<char>>, n: nat) -> nat
    decreases taken.len() + 3 - n,
{
    if n > taken.len() + 2 {
        n
    } else if !taken.contains(numbered(stem, n)) {
        n
    } else {
        free_number(stem, taken, n + 1)
    }
}

/// The first of `id-2`, `id-3` and so on that nothing in `taken` is using.
pub open spec fn unused_id(id: Seq<char>, taken: Seq<Seq<char>>) -> Seq<char> {
    numbered(id, free_number(id, taken, 2))
}

/// What to do about the entry `id`, given the library as last synced, this
/// machine's and the other's, and the ids already in use.
///
/// Nothing when the two agree or only this side changed it. Otherwise the
/// other side's version is taken, unless this side changed it too: then the
/// other's keeps the id and this side's is kept under a new one. An entry
/// removed there is removed here only if it is untouched here.
pub open spec fn entry_step(
    b: SideView,
    l: SideView,
    r: SideView,
    id: Seq<char>,
    taken: Seq<Seq<char>>,
) -> Option<StepView> {
    let was = entry_of(b.entries, id);
    let mine = entry_of(l.entries, id);
    let other = entry_of(r.entries, id);
    if mine == other || other == was {
        None
    } else if other is Some {
        if mine is None || mine == was {
            Some(StepView::Take(id))
        } else {
            Some(StepView::KeepBoth(id, unused_id(id, taken)))
        }
    } else if mine == was {
        Some(StepView::Drop(id))
    } else {
        None
    }
}

/// The ids in use once `step` is made.
pub open spec fn taken_after(taken: Seq<Seq<char>>, step: Option<StepView>) -> Seq<Seq<char>> {
    match step {
        Some(StepView::KeepBoth(_, copy)) => taken.push(copy),
        _ => taken,
    }
}

pub open spec fn opt_seq(step: Option<StepView>) -> Seq<StepView> {
    match step {
        Some(s) => seq![s],
        None => seq![],
    }
}

/// The steps for the entries `ids`, in order, starting with `taken` in use.
pub open spec fn entry_steps(
    b: SideView,
    l: SideView,
    r: SideView,
    ids: Seq<Seq<char>>,
    taken: Seq<Seq<char>>,
) -> Seq<StepView>
    decreases ids.len(),
{
    if ids.len() == 0 {
        seq![]
    } else {
        let step = entry_step(b, l, r, ids[0], taken);
        opt_seq(step) + entry_steps(b, l, r, ids.drop_first(), taken_after(taken, step))
    }
}

/// What to do about the pattern `p`: hide or unhide it when only the other
/// side changed whether it is hidden.
pub open spec fn pattern_step(b: SideView, l: SideView, r: SideView, p: Seq<char>) -> Option<StepView> {
    let was = b.disabled.contains(p);
    let mine = l.disabled.contains(p);
    let other = r.disabled.contains(p);
    if mine == other || other == was {
        None
    } else if other {
        Some(StepView::Hide(p))
    } else {
        Some(StepView::Unhide(p))
    }
}

pub open spec fn pattern_steps(b: SideView, l: SideView, r: SideView, ps: Seq<Seq<char>>) -> Seq<StepView>
    decreases ps.len(),
{
    if ps.len() == 0 {
        seq![]
    } else {
        opt_seq(pattern_step(b, l, r, ps[0])) + pattern_steps(b, l, r, ps.drop_first())
    }
}

/// The ids of `es`, in order.
pub open spec fn id_list(es: Seq<EntryView>) -> Seq<Seq<char>> {
    es.map_values(|e: EntryView| e.id)
}

/// `s` with `x` put in order, unless it is there already.
pub open spec fn insert_sorted(s: Seq<Seq<char>>, x: Seq<char>) -> Seq<Seq<char>>
    decreases s.len(),
{
    if s.len() == 0 {
        seq![x]
    } else if s[0] == x {
        s
    } else if id_lt(x, s[0]) {
        seq![x] + s
    } else {
        seq![s[0]] + insert_sorted(s.drop_first(), x)
    }
}

/// The distinct elements of `s` in order.
pub open spec fn sorted_set(s: Seq<Seq<char>>) -> Seq<Seq<char>>
    decreases s.len(),
{
    if s.len() == 0 {
        seq![]
    } else {
        insert_sorted(sorted_set(s.drop_last()), s.last())
    }
}

/// The steps that bring the other side's changes into this machine's
/// library: entries first, in the order the other side declares them and then
/// the order this side and the last synced copy do, then hidden patterns in
/// order.
pub open spec fn splice_steps(b: SideView, l: SideView, r: SideView) -> Seq<StepView> {
    entry_steps(
        b,
        l,
        r,
        with_new(id_list(r.entries), id_list(l.entries) + id_list(b.entries)),
        id_list(l.entries) + id_list(r.entries),
    ) + pattern_steps(b, l, r, sorted_set(b.disabled + l.disabled + r.disabled))
}


/// Whether the elements of `s` strictly increase.
pub open spec fn sorted_strictly(s: Seq<Seq<char>>) -> bool {
    forall|i: int, j: int| 0 <= i < j < s.len() ==> id_lt(#[trigger] s[i], #[trigger] s[j])
}

proof fn lemma_insert_sorted(s: Seq<Seq<char>>, x: Seq<char>, pos: int)
    requires
        sorted_strictly(s),
        0 <= pos <= s.len(),
        forall|k: int| 0 <= k < pos ==> id_lt(#[trigger] s[k], x),
        pos < s.len() ==> !id_lt(s[pos], x),
    ensures
        insert_sorted(s, x) == if pos < s.len() && s[pos] == x {
            s
        } else {
            s.insert(pos, x)
        },
        sorted_strictly(insert_sorted(s, x)),
    decreases s.len(),
{
    if s.len() == 0 {
        assert(s.insert(0, x) =~= seq![x]);
    } else if pos == 0 {
        lemma_id_lt_total(s[0], x);
        if s[0] != x {
            assert(id_lt(x, s[0]));
            assert(s.insert(0, x) =~= seq![x] + s);
            let t = seq![x] + s;
            assert forall|i: int, j: int| 0 <= i < j < t.len() implies id_lt(
                #[trigger] t[i],
                #[trigger] t[j],
            ) by {
                if i == 0 {
                    if j > 1 {
                        assert(id_lt(s[0], s[j - 1]));
                        lemma_id_lt_transitive(x, s[0], s[j - 1]);
                    }
                } else {
                    assert(t[i] == s[i - 1] && t[j] == s[j - 1]);
                }
            }
        }
    } else {
        let u = s.drop_first();
        assert forall|i: int, j: int| 0 <= i < j < u.len() implies id_lt(
            #[trigger] u[i],
            #[trigger] u[j],
        ) by {
            assert(u[i] == s[i + 1] && u[j] == s[j + 1]);
        }
        assert forall|k: int| 0 <= k < pos - 1 implies id_lt(#[trigger] u[k], x) by {
            assert(u[k] == s[k + 1]);
        }
        lemma_insert_sorted(u, x, pos - 1);
        assert(id_lt(s[0], x));
        lemma_id_lt_irreflexive(x);
        assert(s[0] != x);
        lemma_id_lt_asymmetric(s[0], x);
        let rest = insert_sorted(u, x);
        if pos < s.len() && s[pos] == x {
            assert(u[pos - 1] == s[pos]);
            assert(seq![s[0]] + u =~= s);
        } else {
            assert(seq![s[0]] + u.insert(pos - 1, x) =~= s.insert(pos, x));
        }
        let t = seq![s[0]] + rest;
        // Every element of what follows s[0] is above it.
        assert forall|j: int| 0 <= j < rest.len() implies id_lt(s[0], #[trigger] rest[j]) by {
            if pos < s.len() && s[pos] == x {
                assert(rest[j] == u[j]);
                assert(id_lt(s[0], s[j + 1]));
            } else {
                let ins = u.insert(pos - 1, x);
                assert(rest[j] == ins[j]);
                if j < pos - 1 {
                    assert(ins[j] == u[j]);
                    assert(id_lt(s[0], s[j + 1]));
                } else if j == pos - 1 {
                } else {
                    assert(ins[j] == u[j - 1]);
                    assert(id_lt(s[0], s[j]));
                }
            }
        }
        assert forall|i: int, j: int| 0 <= i < j < t.len() implies id_lt(
            #[trigger] t[i],
            #[trigger] t[j],
        ) by {
            if i == 0 {
                assert(t[j] == rest[j - 1]);
            } else {
                assert(t[i] == rest[i - 1] && t[j] == rest[j - 1]);
            }
        }
    }
}

/// Puts `x` in order among the strictly increasing `v`, unless it is there.
fn insert_in_order(v: &mut Vec<String>, x: String)
    requires
        sorted_strictly(string_views(old(v)@)),
    ensures
        string_views(final(v)@) == insert_sorted(string_views(old(v)@), x@),
        sorted_strictly(string_views(final(v)@)),
{
    let ghost s = string_views(v@);
    let mut pos: usize = 0;
    while pos < v.len() && id_before(v[pos].as_str(), x.as_str())
        invariant
            pos <= v@.len(),
            s == string_views(v@),
            forall|k: int| 0 <= k < pos ==> id_lt(#[trigger] s[k], x@),
        decreases v@.len() - pos,
    {
        pos += 1;
    }
    proof {
        lemma_insert_sorted(s, x@, pos as int);
    }
    if pos < v.len() && v[pos] == x {
        return;
    }
    let ghost xv = x@;
    v.insert(pos, x);
    assert(string_views(v@) =~= s.insert(pos as int, xv));
}

/// The distinct strings of `v`, in order.
fn sorted_strings(v: &Vec<String>) -> (r: Vec<String>)
    ensures
        string_views(r@) == sorted_set(string_views(v@)),
{
    let ghost s = string_views(v@);
    let mut out: Vec<String> = Vec::new();
    let mut i: usize = 0;
    while i < v.len()
        invariant
            i <= v@.len(),
            s == string_views(v@),
            string_views(out@) == sorted_set(s.take(i as int)),
            sorted_strictly(string_views(out@)),
        decreases v@.len() - i,
    {
        assert(s.take(i + 1).drop_last() =~= s.take(i as int));
        assert(s.take(i + 1).last() == v@[i as int]@);
        insert_in_order(&mut out, v[i].clone());
        i += 1;
    }
    assert(s.take(i as int) =~= s);
    out
}

/// The ids of `es`, in order.
fn ids_of(es: &Vec<Entry>) -> (r: Vec<String>)
    ensures
        string_views(r@) == id_list(entry_views(es@)),
{
    let mut out: Vec<String> = Vec::new();
    let mut i: usize = 0;
    while i < es.len()
        invariant
            i <= es@.len(),
            string_views(out@) == id_list(entry_views(es@)).take(i as int),
        decreases es@.len() - i,
    {
        let ghost before = out@;
        out.push(es[i].id.clone());
        assert(string_views(out@) =~= string_views(before).push(es@[i as int]@.id));
        assert(id_list(entry_views(es@)).take(i + 1) =~= id_list(entry_views(es@)).take(
            i as int,
        ).push(es@[i as int]@.id));
        i += 1;
    }
    assert(id_list(entry_views(es@)).take(i as int) =~= id_list(entry_views(es@)));
    out
}

/// `first` followed by each of `more` not already present.
fn with_new_strings(first: Vec<String>, more: &Vec<String>) -> (r: Vec<String>)
    ensures
        string_views(r@) == with_new(string_views(first@), string_views(more@)),
{
    let ghost m = string_views(more@);
    let ghost start = string_views(first@);
    let mut out = first;
    let mut i: usize = 0;
    while i < more.len()
        invariant
            i <= more@.len(),
            m == string_views(more@),
            string_views(out@) == with_new(start, m.take(i as int)),
        decreases more@.len() - i,
    {
        assert(m.take(i + 1).drop_last() =~= m.take(i as int));
        assert(m.take(i + 1).last() == more@[i as int]@);
        if !crate::params::list_has(&out, &more[i]) {
            let ghost before = out@;
            out.push(more[i].clone());
            assert(string_views(out@) =~= string_views(before).push(more@[i as int]@));
        }
        i += 1;
    }
    assert(m.take(i as int) =~= m);
    out
}

/// The first of `id-2`, `id-3` and so on that nothing in `taken` is using.
fn unused(id: &String, taken: &Vec<String>) -> (r: String)
    ensures
        r@ == unused_id(id@, string_views(taken@)),
{
    let ghost t = string_views(taken@);
    let stem = crate::text::chars_of(id.as_str());
    let mut n: u128 = 2;
    while n <= (taken.len() as u128) + 2
        invariant
            2 <= n,
            t == string_views(taken@),
            stem@ == id@,
            free_number(id@, t, n as nat) == free_number(id@, t, 2),
            forall|k: nat| 2 <= k < n ==> t.contains(#[trigger] numbered(stem@, k)),
        decreases (taken@.len() + 3) - n,
    {
        let mut c = crate::text::copy(&stem);
        c.push('-');
        crate::text::extend(&mut c, &crate::text::decimal(n));
        assert(c@ =~= numbered(stem@, n as nat));
        let candidate = crate::text::string_of(&c);
        if !crate::params::list_has(taken, &candidate) {
            return candidate;
        }
        proof {
            lemma_pigeonhole(stem@, t, n as nat);
        }
        n += 1;
    }
    proof {
        lemma_pigeonhole(stem@, t, (n - 1) as nat);
    }
    crate::text::owned(id.as_str())
}


/// The entry of `es` declared as `id`, if there is one.
fn entry_in<'a>(es: &'a Vec<Entry>, id: &String) -> (r: Option<&'a Entry>)
    ensures
        match r {
            Some(e) => entry_of(entry_views(es@), id@) == Some(e@),
            None => entry_of(entry_views(es@), id@) is None,
        },
{
    match find(es, id) {
        Some(k) => Some(&es[k]),
        None => None,
    }
}

pub open spec fn slot_view(e: Option<&Entry>) -> Option<EntryView> {
    match e {
        Some(e) => Some(e@),
        None => None,
    }
}

fn same_slot(a: Option<&Entry>, b: Option<&Entry>) -> (r: bool)
    ensures
        r == (slot_view(a) == slot_view(b)),
{
    match (a, b) {
        (Some(x), Some(y)) => x.same_as(y),
        (None, None) => true,
        _ => false,
    }
}

fn step_for_entry(base: &Side, local: &Side, remote: &Side, id: &String, taken: &Vec<String>) -> (r:
    Option<Step>)
    ensures
        match r {
            Some(step) => entry_step(base@, local@, remote@, id@, string_views(taken@)) == Some(
                step@,
            ),
            None => entry_step(base@, local@, remote@, id@, string_views(taken@)) is None,
        },
{
    let was = entry_in(&base.entries, id);
    let mine = entry_in(&local.entries, id);
    let other = entry_in(&remote.entries, id);
    if same_slot(mine, other) || same_slot(other, was) {
        return None;
    }
    if other.is_some() {
        if mine.is_none() || same_slot(mine, was) {
            Some(Step::Take(id.clone()))
        } else {
            Some(Step::KeepBoth(id.clone(), unused(id, taken)))
        }
    } else if same_slot(mine, was) {
        Some(Step::Drop(id.clone()))
    } else {
        None
    }
}

fn step_for_pattern(base: &Side, local: &Side, remote: &Side, p: &String) -> (r: Option<Step>)
    ensures
        match r {
            Some(step) => pattern_step(base@, local@, remote@, p@) == Some(step@),
            None => pattern_step(base@, local@, remote@, p@) is None,
        },
{
    let was = crate::params::list_has(&base.disabled, p);
    let mine = crate::params::list_has(&local.disabled, p);
    let other = crate::params::list_has(&remote.disabled, p);
    if mine == other || other == was {
        None
    } else if other {
        Some(Step::Hide(p.clone()))
    } else {
        Some(Step::Unhide(p.clone()))
    }
}

/// The steps that bring the other side's changes into this machine's library.
fn splice(base: &Side, local: &Side, remote: &Side) -> (r: Vec<Step>)
    ensures
        step_views(r@) == splice_steps(base@, local@, remote@),
{
    let ghost (b, l, rv) = (base@, local@, remote@);
    let mut more = ids_of(&local.entries);
    let base_ids = ids_of(&base.entries);
    let ghost lb = string_views(more@) + string_views(base_ids@);
    let mut k: usize = 0;
    let ghost lstart = string_views(more@);
    while k < base_ids.len()
        invariant
            k <= base_ids@.len(),
            string_views(more@) == lstart + string_views(base_ids@).take(k as int),
        decreases base_ids@.len() - k,
    {
        let ghost before = more@;
        more.push(base_ids[k].clone());
        assert(string_views(more@) =~= string_views(before).push(base_ids@[k as int]@));
        assert(string_views(base_ids@).take(k + 1) =~= string_views(base_ids@).take(k as int).push(
            base_ids@[k as int]@,
        ));
        k += 1;
    }
    assert(string_views(base_ids@).take(k as int) =~= string_views(base_ids@));
    let order = with_new_strings(ids_of(&remote.entries), &more);
    let ghost ov = string_views(order@);
    let mut taken = ids_of(&local.entries);
    let remote_ids = ids_of(&remote.entries);
    let mut j: usize = 0;
    let ghost tstart = string_views(taken@);
    while j < remote_ids.len()
        invariant
            j <= remote_ids@.len(),
            string_views(taken@) == tstart + string_views(remote_ids@).take(j as int),
        decreases remote_ids@.len() - j,
    {
        let ghost before = taken@;
        taken.push(remote_ids[j].clone());
        assert(string_views(taken@) =~= string_views(before).push(remote_ids@[j as int]@));
        assert(string_views(remote_ids@).take(j + 1) =~= string_views(remote_ids@).take(
            j as int,
        ).push(remote_ids@[j as int]@));
        j += 1;
    }
    assert(string_views(remote_ids@).take(j as int) =~= string_views(remote_ids@));
    let ghost total = entry_steps(b, l, rv, ov, string_views(taken@));
    let mut steps: Vec<Step> = Vec::new();
    let mut i: usize = 0;
    assert(ov.skip(0) =~= ov);
    while i < order.len()
        invariant
            i <= order@.len(),
            ov == string_views(order@),
            b == base@ && l == local@ && rv == remote@,
            step_views(steps@) + entry_steps(b, l, rv, ov.skip(i as int), string_views(taken@))
                == total,
        decreases order@.len() - i,
    {
        let ghost rest = ov.skip(i as int);
        assert(rest[0] == order@[i as int]@);
        assert(rest.drop_first() =~= ov.skip(i + 1));
        let ghost old_taken = string_views(taken@);
        let step = step_for_entry(base, local, remote, &order[i], &taken);
        let ghost sv = entry_step(b, l, rv, order@[i as int]@, old_taken);
        let ghost before = step_views(steps@);
        match step {
            Some(s) => {
                if let Step::KeepBoth(_, copy) = &s {
                    let ghost tb = taken@;
                    taken.push(copy.clone());
                    assert(string_views(taken@) =~= string_views(tb).push(copy@));
                }
                let ghost s_view = s@;
                steps.push(s);
                assert(step_views(steps@) =~= before.push(s_view));
                assert(before.push(s_view) + entry_steps(b, l, rv, ov.skip(i + 1), string_views(taken@))
                    =~= before + (opt_seq(sv) + entry_steps(b, l, rv, ov.skip(i + 1), taken_after(old_taken, sv))));
            },
            None => {
                assert(before + entry_steps(b, l, rv, ov.skip(i + 1), string_views(taken@)) =~= before
                    + (opt_seq(sv) + entry_steps(b, l, rv, ov.skip(i + 1), taken_after(old_taken, sv))));
            },
        }
        i += 1;
    }
    assert(ov.skip(i as int) =~= Seq::<Seq<char>>::empty());
    assert(step_views(steps@) =~= total);
    // Hidden patterns, in order.
    let mut all_patterns = crate::model::copy_strings(&base.disabled);
    let ghost pstart = string_views(all_patterns@);
    let mut m: usize = 0;
    while m < local.disabled.len()
        invariant
            m <= local.disabled@.len(),
            string_views(all_patterns@) == pstart + string_views(local.disabled@).take(m as int),
        decreases local.disabled@.len() - m,
    {
        let ghost before = all_patterns@;
        all_patterns.push(local.disabled[m].clone());
        assert(string_views(all_patterns@) =~= string_views(before).push(local.disabled@[m as int]@));
        assert(string_views(local.disabled@).take(m + 1) =~= string_views(local.disabled@).take(
            m as int,
        ).push(local.disabled@[m as int]@));
        m += 1;
    }
    assert(string_views(local.disabled@).take(m as int) =~= string_views(local.disabled@));
    let ghost pmid = string_views(all_patterns@);
    let mut q: usize = 0;
    while q < remote.disabled.len()
        invariant
            q <= remote.disabled@.len(),
            string_views(all_patterns@) == pmid + string_views(remote.disabled@).take(q as int),
        decreases remote.disabled@.len() - q,
    {
        let ghost before = all_patterns@;
        all_patterns.push(remote.disabled[q].clone());
        assert(string_views(all_patterns@) =~= string_views(before).push(remote.disabled@[q as int]@));
        assert(string_views(remote.disabled@).take(q + 1) =~= string_views(remote.disabled@).take(
            q as int,
        ).push(remote.disabled@[q as int]@));
        q += 1;
    }
    assert(string_views(remote.disabled@).take(q as int) =~= string_views(remote.disabled@));
    let patterns = sorted_strings(&all_patterns);
    let ghost pv = string_views(patterns@);
    let ghost head = step_views(steps@);
    let mut t: usize = 0;
    assert(pv.skip(0) =~= pv);
    while t < patterns.len()
        invariant
            t <= patterns@.len(),
            pv == string_views(patterns@),
            b == base@ && l == local@ && rv == remote@,
            step_views(steps@) + pattern_steps(b, l, rv, pv.skip(t as int)) == head
                + pattern_steps(b, l, rv, pv),
        decreases patterns@.len() - t,
    {
        let ghost rest = pv.skip(t as int);
        assert(rest[0] == patterns@[t as int]@);
        assert(rest.drop_first() =~= pv.skip(t + 1));
        let ghost before = step_views(steps@);
        let ghost sv = pattern_step(b, l, rv, patterns@[t as int]@);
        match step_for_pattern(base, local, remote, &patterns[t]) {
            Some(s) => {
                let ghost s_view = s@;
                steps.push(s);
                assert(step_views(steps@) =~= before.push(s_view));
                assert(before.push(s_view) + pattern_steps(b, l, rv, pv.skip(t + 1)) =~= before
                    + (opt_seq(sv) + pattern_steps(b, l, rv, pv.skip(t + 1))));
            },
            None => {
                assert(before + pattern_steps(b, l, rv, pv.skip(t + 1)) =~= before + (opt_seq(sv)
                    + pattern_steps(b, l, rv, pv.skip(t + 1))));
            },
        }
        t += 1;
    }
    assert(pv.skip(t as int) =~= Seq::<Seq<char>>::empty());
    assert(step_views(steps@) =~= head + pattern_steps(b, l, rv, pv));
    steps
}


// ---------------------------------------------------------------------------
// The plan
// ---------------------------------------------------------------------------

/// Which text a merge leaves behind.
#[derive(Debug, Clone, PartialEq, Eq)]
pub enum Outcome {
    /// This machine's text, as it is.
    Ours,
    /// The other side's text, as it is.
    Theirs,
    /// This machine's text with these steps made to it.
    Spliced(Vec<Step>),
}

pub enum OutcomeView {
    Ours,
    Theirs,
    Spliced(Seq<StepView>),
}

impl View for Outcome {
    type V = OutcomeView;

    open spec fn view(&self) -> OutcomeView {
        match self {
            Outcome::Ours => OutcomeView::Ours,
            Outcome::Theirs => OutcomeView::Theirs,
            Outcome::Spliced(steps) => OutcomeView::Spliced(step_views(steps@)),
        }
    }
}

/// What a merge is to do, and how much it moves each way.
#[derive(Debug)]
pub struct Plan {
    /// Changes taken from other machines.
    pub received: usize,
    /// Changes this machine had made since it last synced.
    pub sent: usize,
    pub outcome: Outcome,
}

pub struct PlanView {
    pub received: nat,
    pub sent: nat,
    pub outcome: OutcomeView,
}

impl View for Plan {
    type V = PlanView;

    open spec fn view(&self) -> PlanView {
        PlanView { received: self.received as nat, sent: self.sent as nat, outcome: self.outcome@ }
    }
}

pub open spec fn empty_side() -> SideView {
    SideView { entries: seq![], disabled: seq![] }
}

/// How `ours` and `theirs`, both descended from `base`, combine. `theirs` is
/// nothing when the repository holds no library yet.
///
/// When only one side changed, its text is taken whole, so nothing about how
/// either file is written changes for no reason. Only when both changed is the
/// other side's work spliced into this machine's text, entry by entry, which
/// leaves this machine's comments and ordering where they were.
pub open spec fn plan_of(base: SideView, ours: SideView, theirs: Option<SideView>) -> PlanView {
    let sent = changes(base, ours);
    match theirs {
        None => PlanView { received: 0, sent, outcome: OutcomeView::Ours },
        Some(theirs) => {
            let incoming = changes(base, theirs);
            if incoming == 0 {
                PlanView { received: 0, sent, outcome: OutcomeView::Ours }
            } else if sent == 0 {
                PlanView { received: incoming, sent: 0, outcome: OutcomeView::Theirs }
            } else {
                let steps = splice_steps(base, ours, theirs);
                PlanView { received: steps.len(), sent, outcome: OutcomeView::Spliced(steps) }
            }
        },
    }
}

pub open spec fn opt_side(s: Option<&Side>) -> Option<SideView> {
    match s {
        Some(s) => Some(s@),
        None => None,
    }
}

/// Decides how this machine's library and the synced one combine.
///
/// `base` is the library as it was the last time this machine synced, empty
/// when it never has, and `theirs` is nothing when the repository holds no
/// library yet.
///
/// When both sides changed the same entry, the repository's version keeps the
/// id and this machine's is added under a new one. Deciding it that way on
/// every machine means they agree after one round instead of passing their
/// differences back and forth.
pub fn decide(base: &Side, ours: &Side, theirs: Option<&Side>) -> (r: Plan)
    requires
        fits(
            base@,
            ours@,
            match theirs {
                Some(t) => t@,
                None => empty_side(),
            },
        ),
    ensures
        r@ == plan_of(base@, ours@, opt_side(theirs)),
{
    let sent = changed(base, ours);
    let theirs = match theirs {
        None => return Plan { received: 0, sent, outcome: Outcome::Ours },
        Some(t) => t,
    };
    let incoming = changed(base, theirs);
    if incoming == 0 {
        return Plan { received: 0, sent, outcome: Outcome::Ours };
    }
    if sent == 0 {
        return Plan { received: incoming, sent: 0, outcome: Outcome::Theirs };
    }
    let steps = splice(base, ours, theirs);
    Plan { received: steps.len(), sent, outcome: Outcome::Spliced(steps) }
}

/// The entries that were changed on both sides: the id that holds the
/// version that reached the repository first, and the one this machine's
/// version is kept under.
pub open spec fn kept_pairs(steps: Seq<StepView>) -> Seq<(Seq<char>, Seq<char>)>
    decreases steps.len(),
{
    if steps.len() == 0 {
        seq![]
    } else {
        let rest = kept_pairs(steps.drop_last());
        match steps.last() {
            StepView::KeepBoth(id, copy) => rest.push((id, copy)),
            _ => rest,
        }
    }
}

pub open spec fn pair_views(v: Seq<(String, String)>) -> Seq<(Seq<char>, Seq<char>)> {
    v.map_values(|p: (String, String)| (p.0@, p.1@))
}

impl Plan {
    /// The entries this plan keeps twice, as pairs of ids.
    pub fn kept_both(&self) -> (r: Vec<(String, String)>)
        ensures
            pair_views(r@) == match self@.outcome {
                OutcomeView::Spliced(steps) => kept_pairs(steps),
                _ => Seq::<(Seq<char>, Seq<char>)>::empty(),
            },
    {
        let mut out: Vec<(String, String)> = Vec::new();
        if let Outcome::Spliced(steps) = &self.outcome {
            let ghost sv = step_views(steps@);
            let mut i: usize = 0;
            while i < steps.len()
                invariant
                    i <= steps@.len(),
                    sv == step_views(steps@),
                    self@.outcome == OutcomeView::Spliced(sv),
                    pair_views(out@) == kept_pairs(sv.take(i as int)),
                decreases steps@.len() - i,
            {
                assert(sv.take(i + 1).drop_last() =~= sv.take(i as int));
                assert(sv.take(i + 1).last() == steps@[i as int]@);
                if let Step::KeepBoth(id, copy) = &steps[i] {
                    let ghost before = out@;
                    out.push((id.clone(), copy.clone()));
                    assert(pair_views(out@) =~= pair_views(before).push((id@, copy@)));
                }
                i += 1;
            }
            assert(sv.take(i as int) =~= sv);
        } else {
            assert(pair_views(out@) =~= Seq::<(Seq<char>, Seq<char>)>::empty());
        }
        out
    }
}


// ---------------------------------------------------------------------------
// Making the steps
// ---------------------------------------------------------------------------

/// Whether every entry the steps write is there to be written: the other
/// side's for each id taken or kept twice, and this side's for each id kept
/// twice.
pub open spec fn backed(steps: Seq<StepView>, l: SideView, r: SideView) -> bool {
    forall|k: int|
        0 <= k < steps.len() ==> match #[trigger] steps[k] {
            StepView::Take(id) => entry_of(r.entries, id) is Some,
            StepView::KeepBoth(id, _) => entry_of(r.entries, id) is Some && entry_of(
                l.entries,
                id,
            ) is Some,
            _ => true,
        }
}

proof fn lemma_backed_add(a: Seq<StepView>, c: Seq<StepView>, l: SideView, r: SideView)
    requires
        backed(a, l, r),
        backed(c, l, r),
    ensures
        backed(a + c, l, r),
{
    assert forall|k: int| 0 <= k < (a + c).len() implies match #[trigger] (a + c)[k] {
        StepView::Take(id) => entry_of(r.entries, id) is Some,
        StepView::KeepBoth(id, _) => entry_of(r.entries, id) is Some && entry_of(l.entries, id) is Some,
        _ => true,
    } by {
        if k < a.len() {
            assert((a + c)[k] == a[k]);
        } else {
            assert((a + c)[k] == c[k - a.len()]);
        }
    }
}

proof fn lemma_entry_steps_backed(
    b: SideView,
    l: SideView,
    r: SideView,
    ids: Seq<Seq<char>>,
    taken: Seq<Seq<char>>,
)
    ensures
        backed(entry_steps(b, l, r, ids, taken), l, r),
    decreases ids.len(),
{
    if ids.len() > 0 {
        let step = entry_step(b, l, r, ids[0], taken);
        lemma_entry_steps_backed(b, l, r, ids.drop_first(), taken_after(taken, step));
        assert(backed(opt_seq(step), l, r));
        lemma_backed_add(opt_seq(step), entry_steps(b, l, r, ids.drop_first(), taken_after(taken, step)), l, r);
    }
}

proof fn lemma_pattern_steps_backed(b: SideView, l: SideView, r: SideView, ps: Seq<Seq<char>>)
    ensures
        backed(pattern_steps(b, l, r, ps), l, r),
    decreases ps.len(),
{
    if ps.len() > 0 {
        lemma_pattern_steps_backed(b, l, r, ps.drop_first());
        let step = pattern_step(b, l, r, ps[0]);
        assert(backed(opt_seq(step), l, r));
        lemma_backed_add(opt_seq(step), pattern_steps(b, l, r, ps.drop_first()), l, r);
    }
}

/// The steps of a splice only write entries that are there.
pub proof fn lemma_splice_backed(b: SideView, l: SideView, r: SideView)
    ensures
        backed(splice_steps(b, l, r), l, r),
{
    lemma_entry_steps_backed(
        b,
        l,
        r,
        with_new(id_list(r.entries), id_list(l.entries) + id_list(b.entries)),
        id_list(l.entries) + id_list(r.entries),
    );
    lemma_pattern_steps_backed(b, l, r, sorted_set(b.disabled + l.disabled + r.disabled));
    lemma_backed_add(
        entry_steps(
            b,
            l,
            r,
            with_new(id_list(r.entries), id_list(l.entries) + id_list(b.entries)),
            id_list(l.entries) + id_list(r.entries),
        ),
        pattern_steps(b, l, r, sorted_set(b.disabled + l.disabled + r.disabled)),
        l,
        r,
    );
}

/// `e` written under the id `id`.
pub open spec fn renamed(e: NewEntryView, id: Seq<char>) -> NewEntryView {
    NewEntryView {
        id: id,
        cmd: e.cmd,
        desc: e.desc,
        tags: e.tags,
        params: e.params,
        danger: e.danger,
    }
}

/// The entries the steps write, in the order they write them.
pub open spec fn written_for(steps: Seq<StepView>, l: SideView, r: SideView) -> Seq<NewEntryView>
    decreases steps.len(),
{
    if steps.len() == 0 {
        seq![]
    } else {
        let rest = written_for(steps.drop_first(), l, r);
        match steps[0] {
            StepView::Take(id) => seq![written_view(entry_of(r.entries, id)->Some_0)] + rest,
            StepView::KeepBoth(id, copy) => seq![
                written_view(entry_of(r.entries, id)->Some_0),
                renamed(written_view(entry_of(l.entries, id)->Some_0), copy),
            ] + rest,
            _ => rest,
        }
    }
}

pub open spec fn new_entry_views(v: Seq<NewEntry>) -> Seq<NewEntryView> {
    v.map_values(|e: NewEntry| e@)
}

/// The entries `steps` write, for the caller to render as YAML and hand to
/// `apply` in the same order.
pub fn writes(steps: &Vec<Step>, ours: &Side, theirs: &Side) -> (r: Vec<NewEntry>)
    requires
        backed(step_views(steps@), ours@, theirs@),
    ensures
        new_entry_views(r@) == written_for(step_views(steps@), ours@, theirs@),
{
    let ghost sv = step_views(steps@);
    let ghost (l, rv) = (ours@, theirs@);
    let mut out: Vec<NewEntry> = Vec::new();
    let mut i: usize = 0;
    assert(sv.skip(0) =~= sv);
    while i < steps.len()
        invariant
            i <= steps@.len(),
            sv == step_views(steps@),
            l == ours@ && rv == theirs@,
            backed(sv, l, rv),
            new_entry_views(out@) + written_for(sv.skip(i as int), l, rv) == written_for(sv, l, rv),
        decreases steps@.len() - i,
    {
        let ghost rest = sv.skip(i as int);
        assert(rest[0] == steps@[i as int]@);
        assert(rest.drop_first() =~= sv.skip(i + 1));
        assert(sv[i as int] == steps@[i as int]@);
        let ghost before = new_entry_views(out@);
        match &steps[i] {
            Step::Take(id) => {
                let e = entry_in(&theirs.entries, id);
                let n = NewEntry::from_entry(e.unwrap());
                let ghost nv = n@;
                out.push(n);
                assert(new_entry_views(out@) =~= before.push(nv));
                assert(before.push(nv) + written_for(sv.skip(i + 1), l, rv) =~= before + (seq![nv]
                    + written_for(sv.skip(i + 1), l, rv)));
            },
            Step::KeepBoth(id, copy) => {
                let theirs_entry = entry_in(&theirs.entries, id);
                let n = NewEntry::from_entry(theirs_entry.unwrap());
                let ours_entry = entry_in(&ours.entries, id);
                let mut m = NewEntry::from_entry(ours_entry.unwrap());
                m.id = copy.clone();
                let ghost (nv, mv) = (n@, m@);
                out.push(n);
                out.push(m);
                assert(new_entry_views(out@) =~= before.push(nv).push(mv));
                assert(before.push(nv).push(mv) + written_for(sv.skip(i + 1), l, rv) =~= before + (
                seq![nv, mv] + written_for(sv.skip(i + 1), l, rv)));
            },
            _ => {},
        }
        i += 1;
    }
    assert(sv.skip(i as int) =~= Seq::<StepView>::empty());
    assert(new_entry_views(out@) =~= written_for(sv, l, rv));
    out
}

/// How many rendered entries the steps take.
pub open spec fn body_count(steps: Seq<StepView>) -> nat
    decreases steps.len(),
{
    if steps.len() == 0 {
        0
    } else {
        body_count(steps.drop_first()) + match steps[0] {
            StepView::Take(_) => 1nat,
            StepView::KeepBoth(_, _) => 2nat,
            _ => 0nat,
        }
    }
}

/// `text` with the steps made to it, in order, taking the rendered entries
/// from `bodies` as they are needed; or the line that stopped a step.
pub open spec fn applied(text: Seq<char>, steps: Seq<StepView>, bodies: Seq<Seq<char>>) -> Result<
    Seq<char>,
    Seq<char>,
>
    decreases steps.len(),
{
    if steps.len() == 0 {
        Ok(text)
    } else {
        let rest = steps.drop_first();
        match steps[0] {
            StepView::Take(id) => match upserted_text(text, id, bodies[0]) {
                Ok((t, _)) => applied(t, rest, bodies.drop_first()),
                Err(l) => Err(l),
            },
            StepView::KeepBoth(id, _) => match upserted_text(text, id, bodies[0]) {
                Ok((t, _)) => match appended_text(t, bodies[1]) {
                    Ok(t2) => applied(t2, rest, bodies.skip(2)),
                    Err(l) => Err(l),
                },
                Err(l) => Err(l),
            },
            StepView::Drop(id) => applied(
                match removed_text(text, id) {
                    Some(t) => t,
                    None => text,
                },
                rest,
                bodies,
            ),
            StepView::Hide(p) => match disabled_text(text, p) {
                Ok(t) => applied(t, rest, bodies),
                Err(l) => Err(l),
            },
            StepView::Unhide(p) => applied(enabled_text(text, p), rest, bodies),
        }
    }
}

/// This machine's text with the steps made to it, each entry written from
/// `bodies`, the entries of `writes` rendered as YAML in the same order.
///
/// Whatever goes wrong splicing, the caller must not push the result unless
/// it loads.
pub fn apply(text: &str, steps: &Vec<Step>, bodies: &Vec<String>) -> (r: Result<String, EditError>)
    requires
        bodies@.len() == body_count(step_views(steps@)),
    ensures
        match r {
            Ok(t) => applied(text@, step_views(steps@), string_views(bodies@)) == Ok::<
                Seq<char>,
                Seq<char>,
            >(t@),
            Err(EditError::OneLine(l)) => applied(text@, step_views(steps@), string_views(bodies@))
                == Err::<Seq<char>, Seq<char>>(l@),
        },
{
    let ghost sv = step_views(steps@);
    let ghost bv = string_views(bodies@);
    let ghost whole = applied(text@, sv, bv);
    let mut current = crate::text::owned(text);
    let mut i: usize = 0;
    let mut used: usize = 0;
    let nb = bodies.len();
    assert(sv.skip(0) =~= sv);
    assert(bv.skip(0) =~= bv);
    while i < steps.len()
        invariant
            i <= steps@.len(),
            used <= bodies@.len(),
            nb == bodies@.len(),
            sv == step_views(steps@),
            bv == string_views(bodies@),
            bodies@.len() - used == body_count(sv.skip(i as int)),
            whole == applied(text@, sv, bv),
            applied(current@, sv.skip(i as int), bv.skip(used as int)) == whole,
        decreases steps@.len() - i,
    {
        let ghost rest = sv.skip(i as int);
        assert(rest[0] == steps@[i as int]@);
        assert(rest.drop_first() =~= sv.skip(i + 1));
        let ghost bs = bv.skip(used as int);
        assert(body_count(rest) == body_count(rest.drop_first()) + match rest[0] {
            StepView::Take(_) => 1nat,
            StepView::KeepBoth(_, _) => 2nat,
            _ => 0nat,
        });
        match &steps[i] {
            Step::Take(id) => {
                assert(steps@[i as int]@ == StepView::Take(id@));
                assert(bodies@.len() - used >= 1);
                assert(bs[0] == bodies@[used as int]@);
                assert(bs.drop_first() =~= bv.skip(used + 1));
                match upserted(current.as_str(), id.as_str(), bodies[used].as_str()) {
                    Ok((t, _)) => {
                        current = t;
                    },
                    Err(e) => return Err(e),
                }
                used += 1;
            },
            Step::KeepBoth(id, copy) => {
                assert(steps@[i as int]@ == StepView::KeepBoth(id@, copy@));
                assert(bodies@.len() - used >= 2);
                assert(bs[0] == bodies@[used as int]@);
                assert(bs[1] == bodies@[used + 1]@);
                assert(bs.skip(2) =~= bv.skip(used + 2));
                match upserted(current.as_str(), id.as_str(), bodies[used].as_str()) {
                    Ok((t, _)) => {
                        current = t;
                    },
                    Err(e) => return Err(e),
                }
                match appended(current.as_str(), bodies[used + 1].as_str()) {
                    Ok(t) => {
                        current = t;
                    },
                    Err(e) => return Err(e),
                }
                used += 2;
            },
            Step::Drop(id) => {
                match removed(current.as_str(), id.as_str()) {
                    Some(t) => {
                        current = t;
                    },
                    None => {},
                }
            },
            Step::Hide(p) => {
                match with_disabled(current.as_str(), p.as_str()) {
                    Ok(t) => {
                        current = t;
                    },
                    Err(e) => return Err(e),
                }
            },
            Step::Unhide(p) => {
                current = with_enabled(current.as_str(), p.as_str());
            },
        }
        i += 1;
    }
    assert(sv.skip(i as int) =~= Seq::<StepView>::empty());
    Ok(current)
}


// ---------------------------------------------------------------------------
// What always holds of a merge
// ---------------------------------------------------------------------------

proof fn lemma_entry_of_unique(es: Seq<EntryView>, k: int)
    requires
        unique_ids(es),
        0 <= k < es.len(),
    ensures
        entry_of(es, es[k].id) == Some(es[k]),
    decreases k,
{
    if k > 0 {
        let u = es.drop_first();
        assert(es[0].id != es[k].id);
        assert forall|i: int, j: int| 0 <= i < j < u.len() implies (#[trigger] u[i]).id != (
        #[trigger] u[j]).id by {
            assert(u[i] == es[i + 1] && u[j] == es[j + 1]);
        }
        lemma_entry_of_unique(u, k - 1);
        assert(u[k - 1] == es[k]);
    }
}

proof fn lemma_no_missing(ps: Seq<Seq<char>>, n: int)
    requires
        0 <= n <= ps.len(),
    ensures
        count_missing(ps.take(n), ps) == 0,
    decreases n,
{
    if n > 0 {
        lemma_no_missing(ps, n - 1);
        assert(ps.take(n).drop_last() =~= ps.take(n - 1));
        assert(ps.take(n).last() == ps[n - 1]);
        assert(ps.contains(ps[n - 1]));
    }
}

proof fn lemma_no_differs(xs: Seq<EntryView>, n: int)
    requires
        unique_ids(xs),
        0 <= n <= xs.len(),
    ensures
        count_differs(xs.take(n), xs) == 0,
        count_new(xs.take(n), xs) == 0,
    decreases n,
{
    if n > 0 {
        lemma_no_differs(xs, n - 1);
        assert(xs.take(n).drop_last() =~= xs.take(n - 1));
        lemma_entry_of_unique(xs, n - 1);
        assert(xs.take(n).last() == xs[n - 1]);
    }
}

/// A copy compared with itself has no changes.
pub proof fn lemma_changes_self(s: SideView)
    requires
        s.wf(),
    ensures
        changes(s, s) == 0,
{
    lemma_no_differs(s.entries, s.entries.len() as int);
    lemma_no_missing(s.disabled, s.disabled.len() as int);
    assert(s.entries.take(s.entries.len() as int) =~= s.entries);
    assert(s.disabled.take(s.disabled.len() as int) =~= s.disabled);
}

/// When nothing changed anywhere there is nothing to do: this machine's text
/// stands and nothing moves either way.
pub proof fn lemma_nothing_changed(s: SideView)
    requires
        s.wf(),
    ensures
        plan_of(s, s, Some(s)) == (PlanView { received: 0, sent: 0, outcome: OutcomeView::Ours }),
{
    lemma_changes_self(s);
}

/// A machine with no changes of its own since it last synced takes the
/// repository's copy whole, so a conflict settles after one round: the
/// machine that pushed first never splices, and never keeps an entry twice.
pub proof fn lemma_unchanged_side_takes_theirs(base: SideView, theirs: SideView)
    requires
        base.wf(),
    ensures
        plan_of(base, base, Some(theirs)).sent == 0,
        !(plan_of(base, base, Some(theirs)).outcome is Spliced),
        changes(base, theirs) > 0 ==> plan_of(base, base, Some(theirs)).outcome == OutcomeView::Theirs,
{
    lemma_changes_self(base);
}

/// Whether the entry `id` was changed differently on both sides since they
/// last agreed.
pub open spec fn conflict(b: SideView, l: SideView, r: SideView, id: Seq<char>) -> bool {
    let was = entry_of(b.entries, id);
    let mine = entry_of(l.entries, id);
    let other = entry_of(r.entries, id);
    &&& mine is Some
    &&& other is Some
    &&& mine != was
    &&& other != was
    &&& mine != other
}

/// Whether each entry kept twice by `steps` is a real conflict.
pub open spec fn only_real_conflicts(steps: Seq<StepView>, b: SideView, l: SideView, r: SideView) -> bool {
    forall|k: int|
        0 <= k < steps.len() ==> match #[trigger] steps[k] {
            StepView::KeepBoth(id, _) => conflict(b, l, r, id),
            _ => true,
        }
}

proof fn lemma_conflicts_add(a: Seq<StepView>, c: Seq<StepView>, b: SideView, l: SideView, r: SideView)
    requires
        only_real_conflicts(a, b, l, r),
        only_real_conflicts(c, b, l, r),
    ensures
        only_real_conflicts(a + c, b, l, r),
{
    assert forall|k: int| 0 <= k < (a + c).len() implies match #[trigger] (a + c)[k] {
        StepView::KeepBoth(id, _) => conflict(b, l, r, id),
        _ => true,
    } by {
        if k < a.len() {
            assert((a + c)[k] == a[k]);
        } else {
            assert((a + c)[k] == c[k - a.len()]);
        }
    }
}

proof fn lemma_entry_steps_conflicts(
    b: SideView,
    l: SideView,
    r: SideView,
    ids: Seq<Seq<char>>,
    taken: Seq<Seq<char>>,
)
    ensures
        only_real_conflicts(entry_steps(b, l, r, ids, taken), b, l, r),
    decreases ids.len(),
{
    if ids.len() > 0 {
        let step = entry_step(b, l, r, ids[0], taken);
        lemma_entry_steps_conflicts(b, l, r, ids.drop_first(), taken_after(taken, step));
        assert(only_real_conflicts(opt_seq(step), b, l, r));
        lemma_conflicts_add(
            opt_seq(step),
            entry_steps(b, l, r, ids.drop_first(), taken_after(taken, step)),
            b,
            l,
            r,
        );
    }
}

proof fn lemma_pattern_steps_conflicts(b: SideView, l: SideView, r: SideView, ps: Seq<Seq<char>>)
    ensures
        only_real_conflicts(pattern_steps(b, l, r, ps), b, l, r),
    decreases ps.len(),
{
    if ps.len() > 0 {
        lemma_pattern_steps_conflicts(b, l, r, ps.drop_first());
        let step = pattern_step(b, l, r, ps[0]);
        assert(only_real_conflicts(opt_seq(step), b, l, r));
        lemma_conflicts_add(opt_seq(step), pattern_steps(b, l, r, ps.drop_first()), b, l, r);
    }
}

/// The only real conflict is one entry changed differently in two places: a
/// splice keeps an entry twice only when both sides changed it, each in its
/// own way.
pub proof fn lemma_only_real_conflicts(b: SideView, l: SideView, r: SideView)
    ensures
        only_real_conflicts(splice_steps(b, l, r), b, l, r),
{
    let ids = with_new(id_list(r.entries), id_list(l.entries) + id_list(b.entries));
    let taken = id_list(l.entries) + id_list(r.entries);
    let ps = sorted_set(b.disabled + l.disabled + r.disabled);
    lemma_entry_steps_conflicts(b, l, r, ids, taken);
    lemma_pattern_steps_conflicts(b, l, r, ps);
    lemma_conflicts_add(entry_steps(b, l, r, ids, taken), pattern_steps(b, l, r, ps), b, l, r);
}

// ---------------------------------------------------------------------------
// The result
// ---------------------------------------------------------------------------

/// The outcome of combining this machine's library with the synced one.
#[derive(Debug)]
pub struct Merged {
    /// The library as it should now be, on this machine and in the repository.
    pub text: String,
    /// Changes taken from other machines.
    pub received: usize,
    /// Changes this machine had made since it last synced.
    pub sent: usize,
    /// Entries that were changed on both sides. The first id holds the
    /// version that reached the repository first, and the second holds this
    /// machine's version, kept under a new id rather than lost.
    pub kept_both: Vec<(String, String)>,
}

/// The text a plan leaves, or the line that stopped a splice: this machine's
/// text, the other side's, or this machine's with the steps made to it.
pub open spec fn merged_text(
    plan: PlanView,
    ours: Seq<char>,
    theirs: Option<Seq<char>>,
    bodies: Seq<Seq<char>>,
) -> Result<Seq<char>, Seq<char>> {
    match plan.outcome {
        OutcomeView::Ours => Ok(ours),
        OutcomeView::Theirs => Ok(theirs.unwrap()),
        OutcomeView::Spliced(steps) => applied(ours, steps, bodies),
    }
}

pub open spec fn opt_text(t: Option<&str>) -> Option<Seq<char>> {
    match t {
        Some(t) => Some(t@),
        None => None,
    }
}

/// Carries out a plan of `decide` on the texts it was decided from:
/// `bodies` are the entries of `writes` rendered as YAML, in order, when the
/// plan splices.
///
/// Whatever comes out, the caller must not push the text unless it loads.
pub fn merged(plan: &Plan, ours: &str, theirs: Option<&str>, bodies: &Vec<String>) -> (r: Result<
    Merged,
    EditError,
>)
    requires
        plan@.outcome is Theirs ==> theirs is Some,
        plan@.outcome matches OutcomeView::Spliced(steps) ==> bodies@.len() == body_count(steps),
    ensures
        match r {
            Ok(m) => {
                &&& merged_text(plan@, ours@, opt_text(theirs), string_views(bodies@)) == Ok::<
                    Seq<char>,
                    Seq<char>,
                >(m.text@)
                &&& m.received == plan@.received
                &&& m.sent == plan@.sent
                &&& pair_views(m.kept_both@) == match plan@.outcome {
                    OutcomeView::Spliced(steps) => kept_pairs(steps),
                    _ => Seq::<(Seq<char>, Seq<char>)>::empty(),
                }
            },
            Err(EditError::OneLine(l)) => merged_text(
                plan@,
                ours@,
                opt_text(theirs),
                string_views(bodies@),
            ) == Err::<Seq<char>, Seq<char>>(l@),
        },
{
    let text = match &plan.outcome {
        Outcome::Ours => crate::text::owned(ours),
        Outcome::Theirs => crate::text::owned(theirs.unwrap()),
        Outcome::Spliced(steps) => match apply(ours, steps, bodies) {
            Ok(t) => t,
            Err(e) => return Err(e),
        },
    };
    Ok(Merged { text, received: plan.received, sent: plan.sent, kept_both: plan.kept_both() })
}


/// When only one side changed, a merge takes that side's text whole. With
/// nothing new in the repository this machine's text stands and nothing is
/// received; with nothing changed here the repository's text is taken and
/// everything it changed is received. Either way nothing is spliced, so no
/// entry is kept twice, and what is sent is what changed here.
pub proof fn lemma_one_side_changed(
    base: SideView,
    ours: SideView,
    theirs: Option<SideView>,
    ours_text: Seq<char>,
    theirs_text: Option<Seq<char>>,
    bodies: Seq<Seq<char>>,
)
    requires
        theirs is Some <==> theirs_text is Some,
    ensures
        plan_of(base, ours, theirs).sent == changes(base, ours),
        (theirs is None || changes(base, theirs.unwrap()) == 0) ==> {
            &&& merged_text(plan_of(base, ours, theirs), ours_text, theirs_text, bodies) == Ok::<
                Seq<char>,
                Seq<char>,
            >(ours_text)
            &&& plan_of(base, ours, theirs).received == 0
            &&& !(plan_of(base, ours, theirs).outcome is Spliced)
        },
        (theirs is Some && changes(base, theirs.unwrap()) > 0 && changes(base, ours) == 0) ==> {
            &&& merged_text(plan_of(base, ours, theirs), ours_text, theirs_text, bodies) == Ok::<
                Seq<char>,
                Seq<char>,
            >(theirs_text.unwrap())
            &&& plan_of(base, ours, theirs).received == changes(base, theirs.unwrap())
            &&& !(plan_of(base, ours, theirs).outcome is Spliced)
        },
{
}


proof fn lemma_free_number(stem: Seq<char>, taken: Seq<Seq<char>>, n: nat)
    requires
        n >= 2,
        forall|k: nat| 2 <= k < n ==> taken.contains(#[trigger] numbered(stem, k)),
    ensures
        free_number(stem, taken, n) >= n,
        !taken.contains(numbered(stem, free_number(stem, taken, n))),
        forall|k: nat|
            2 <= k < free_number(stem, taken, n) ==> taken.contains(#[trigger] numbered(stem, k)),
    decreases taken.len() + 3 - n,
{
    if n > taken.len() + 2 {
        lemma_pigeonhole(stem, taken, (n - 1) as nat);
    } else if taken.contains(numbered(stem, n)) {
        lemma_free_number(stem, taken, n + 1);
    }
}

/// The copy an entry changed on both sides is kept under is `id-n` for the
/// least `n` from 2 on that nothing in use already names.
pub proof fn lemma_unused_id(id: Seq<char>, taken: Seq<Seq<char>>)
    ensures
        exists|n: nat|
            {
                &&& n >= 2
                &&& unused_id(id, taken) == #[trigger] numbered(id, n)
                &&& !taken.contains(numbered(id, n))
                &&& forall|k: nat| 2 <= k < n ==> taken.contains(#[trigger] numbered(id, k))
            },
{
    lemma_free_number(id, taken, 2);
    let n = free_number(id, taken, 2);
    assert(unused_id(id, taken) == numbered(id, n));
}


/// What a merge does about an entry that this machine changed since the last
/// sync, counting one added here as changed: it is never overwritten or
/// removed. When the other machine changed it too, differently, both are
/// kept: the other machine's version under the id and this machine's under a
/// copy `id-n`, for the least `n` from 2 on that nothing in use names. When
/// the other machine left it alone, nothing is done and this machine's
/// version stands.
pub proof fn lemma_changed_here_is_kept(
    b: SideView,
    l: SideView,
    r: SideView,
    id: Seq<char>,
    taken: Seq<Seq<char>>,
)
    requires
        entry_of(l.entries, id) is Some,
        entry_of(l.entries, id) != entry_of(b.entries, id),
    ensures
        !(entry_step(b, l, r, id, taken) matches Some(StepView::Take(_))),
        !(entry_step(b, l, r, id, taken) matches Some(StepView::Drop(_))),
        entry_of(r.entries, id) is Some && entry_of(r.entries, id) != entry_of(l.entries, id)
            && entry_of(r.entries, id) != entry_of(b.entries, id) ==> exists|n: nat|
            {
                &&& n >= 2
                &&& entry_step(b, l, r, id, taken) == Some(
                    StepView::KeepBoth(id, #[trigger] numbered(id, n)),
                )
                &&& !taken.contains(numbered(id, n))
                &&& forall|k: nat| 2 <= k < n ==> taken.contains(#[trigger] numbered(id, k))
            },
        entry_of(r.entries, id) == entry_of(b.entries, id) ==> entry_step(b, l, r, id, taken) is None,
{
    lemma_unused_id(id, taken);
}

} // verus!
