//! What the command line decides: which entry an edit or a removal is about,
//! what an edited or saved entry holds, which entries a search finds, and how
//! entries are listed.
//!
//! Reading and writing the library, and printing, are left to the caller.

use vstd::prelude::*;

use crate::model::{body_for, entry_views, CommandBody, Entry, EntryView, Layer, ShellFamily};
use crate::params::{distinct_names, opt_view, placeholders, string_views};
use crate::store::definitions::{
    add_new, clean_tags, derived_tags, merge_tags, parse_tags, purpose_parts, split_purpose, suggest_id, suggests,
    with_new, NewEntry, NewEntryView,
};
use crate::search::{candidate_views, fold, folded, rank_at, ranking, score_views, Candidate, Ranker, Standing};
use crate::text::{
    append_str, chars_of, concat, contains, joined_with, owned, split_on, split_words, trim, views, words,
};
use crate::tui::app::{edited_body, first_with_id, joined_by, join_strings, param_desc, rewritten};

verus! {

broadcast use vstd::string::group_string_axioms;

/// Why the command line refuses an edit or a removal.
#[derive(Debug, Clone, PartialEq, Eq)]
pub enum Refusal {
    /// An edit that names no field to change.
    NothingToChange,
    /// No loaded entry has this id.
    NoSuchId(String),
}

impl Refusal {
    /// What the command line says when it refuses.
    pub fn message(&self) -> (r: String)
        ensures
            r@ == match self {
                Refusal::NothingToChange => "nothing to change, pass at least one of --cmd, --desc or --tags"@,
                Refusal::NoSuchId(id) => "no command with the id "@ + id@,
            },
    {
        match self {
            Refusal::NothingToChange => owned("nothing to change, pass at least one of --cmd, --desc or --tags"),
            Refusal::NoSuchId(id) => concat("no command with the id ", id.as_str()),
        }
    }
}

/// Where the first entry with id `id` is among `entries`.
pub fn find(entries: &Vec<Entry>, id: &str) -> (r: Option<usize>)
    ensures
        match r {
            Some(k) => k < entries@.len() && first_with_id(entry_views(entries@), id@) == Some(
                entries@[k as int]@,
            ),
            None => first_with_id(entry_views(entries@), id@) is None,
        },
{
    let ghost es = entry_views(entries@);
    let mut i: usize = 0;
    assert(es.skip(0) =~= es);
    while i < entries.len()
        invariant
            i <= entries@.len(),
            es == entry_views(entries@),
            first_with_id(es.skip(i as int), id@) == first_with_id(es, id@),
        decreases entries@.len() - i,
    {
        assert(es.skip(i as int).drop_first() =~= es.skip(i + 1));
        assert(es.skip(i as int)[0] == entries@[i as int]@);
        if crate::text::same_str(entries[i].id.as_str(), id) {
            return Some(i);
        }
        i += 1;
    }
    None
}

/// What an edit writes over `e`: the fields given replace those of `e`, and
/// every other field stays as it was. Only the command for this shell is
/// replaced; the others were never named and are none of the edit's
/// business.
pub open spec fn edit_of(
    e: EntryView,
    family: ShellFamily,
    cmd: Option<Seq<char>>,
    desc: Option<Seq<char>>,
    tags: Option<Seq<char>>,
) -> NewEntryView {
    NewEntryView {
        id: e.id,
        cmd: match cmd {
            Some(c) => edited_body(e.cmd, family, c),
            None => e.cmd,
        },
        desc: match desc {
            Some(d) => d,
            None => e.desc,
        },
        tags: match tags {
            Some(t) => clean_tags(split_on(t, ',')),
            None => e.tags,
        },
        params: e.params,
        danger: e.danger,
    }
}

/// Applies the given changes to entry `id`, leaving every other field alone.
///
/// An edit that changes nothing is refused, and so is one of an id no entry
/// has, rather than creating it. A builtin is written to the user's library
/// under its own id, which the loader turns into an override.
pub fn edit(
    entries: &Vec<Entry>,
    id: &str,
    family: ShellFamily,
    cmd: Option<String>,
    desc: Option<String>,
    tags: Option<String>,
) -> (r: Result<NewEntry, Refusal>)
    ensures
        cmd is None && desc is None && tags is None ==> r == Err::<NewEntry, Refusal>(
            Refusal::NothingToChange,
        ),
        !(cmd is None && desc is None && tags is None) ==> match first_with_id(
            entry_views(entries@),
            id@,
        ) {
            None => r matches Err(Refusal::NoSuchId(i)) && i@ == id@,
            Some(e) => r matches Ok(n) && n@ == edit_of(e, family, opt_view(cmd), opt_view(desc), opt_view(tags)),
        },
{
    if cmd.is_none() && desc.is_none() && tags.is_none() {
        return Err(Refusal::NothingToChange);
    }
    let k = match find(entries, id) {
        Some(k) => k,
        None => {
            return Err(Refusal::NoSuchId(owned(id)));
        },
    };
    let entry = &entries[k];
    let body = match cmd {
        None => entry.cmd.copied(),
        Some(c) => rewritten(&entry.cmd, family, c),
    };
    let desc = match desc {
        Some(d) => d,
        None => entry.desc.clone(),
    };
    let tags = match tags {
        Some(t) => parse_tags(t.as_str()),
        None => crate::model::copy_strings(&entry.tags),
    };
    Ok(NewEntry {
        id: entry.id.clone(),
        cmd: body,
        desc,
        tags,
        params: crate::model::copy_params(&entry.params),
        danger: entry.danger,
    })
}

/// What saving `command` from the command line writes, under an id not in
/// `taken`. `purpose` says what the command is for: any word in it written
/// as `#tag` becomes a tag, and the rest is the description. The tags given
/// with `--tags` follow those, then the program and its subcommands.
pub fn new_entry(command: String, purpose: String, tags: Option<String>, taken: &Vec<String>) -> (r: NewEntry)
    ensures
        suggests(command@, string_views(taken@), r@.id),
        r@ == (NewEntryView {
            id: r@.id,
            cmd: crate::model::BodyView::Shared(command@),
            desc: joined_with(purpose_parts(words(purpose@)).0, ' '),
            tags: with_new(
                with_new(
                    purpose_parts(words(purpose@)).1,
                    clean_tags(
                        split_on(
                            match tags {
                                Some(t) => t@,
                                None => seq![],
                            },
                            ',',
                        ),
                    ),
                ),
                derived_tags(command@),
            ),
            params: seq![],
            danger: false,
        }),
{
    let id = suggest_id(command.as_str(), taken);
    let text = match tags {
        Some(t) => t,
        None => String::new(),
    };
    let (desc, hashtags) = split_purpose(purpose.as_str());
    let given = add_new(hashtags, &parse_tags(text.as_str()));
    let tags = merge_tags(given, command.as_str());
    let r = NewEntry { id, cmd: CommandBody::Shared(command), desc, tags, params: Vec::new(), danger: false };
    assert(crate::model::param_views(r.params@) =~= seq![]);
    r
}

/// Which entry a removal is about, and whether it is the user's own: a
/// builtin lives inside the binary and cannot be deleted, so it is listed as
/// disabled instead.
pub fn removal(entries: &Vec<Entry>, id: &str) -> (r: Result<bool, Refusal>)
    ensures
        match first_with_id(entry_views(entries@), id@) {
            None => r matches Err(Refusal::NoSuchId(i)) && i@ == id@,
            Some(e) => r == Ok::<bool, Refusal>(e.layer == Layer::User),
        },
{
    match find(entries, id) {
        Some(k) => Ok(entries[k].layer == Layer::User),
        None => Err(Refusal::NoSuchId(owned(id))),
    }
}

/// The line listing placeholder `name` of `e`.
pub open spec fn placeholder_line(e: EntryView, name: Seq<char>) -> Seq<char> {
    "    <"@ + name + ">  "@ + match param_desc(e.params, name) {
        Some(d) => d,
        None => "no description"@,
    } + "\n"@
}

/// The lines listing the placeholders `names` of `e`.
pub open spec fn placeholder_lines(e: EntryView, names: Seq<Seq<char>>) -> Seq<char>
    decreases names.len(),
{
    if names.len() == 0 {
        seq![]
    } else {
        placeholder_lines(e, names.drop_last()) + placeholder_line(e, names.last())
    }
}

/// How an entry is listed, with `cmd` its command for the shell in use: its
/// id, marked when destructive; what it is for; the command; each
/// placeholder with its description; its tags when it has any; and a blank
/// line.
pub open spec fn listed(e: EntryView, cmd: Seq<char>) -> Seq<char> {
    e.id + (if e.danger {
        "  [destructive]"@
    } else {
        seq![]
    }) + "\n"@ + "  "@ + e.desc + "\n"@ + "  "@ + cmd + "\n"@ + placeholder_lines(
        e,
        distinct_names(placeholders(cmd)),
    ) + (if e.tags.len() > 0 {
        "  tags: "@ + joined_by(e.tags, ", "@) + "\n"@
    } else {
        seq![]
    }) + "\n"@
}

/// The text listing an entry that has a command for `family`.
pub fn listing(entry: &Entry, family: ShellFamily) -> (r: String)
    requires
        body_for(entry.cmd@, family) is Some,
    ensures
        r@ == listed(entry@, body_for(entry.cmd@, family).unwrap()),
{
    let cmd = entry.cmd_for(family).unwrap();
    let mut out = owned(entry.id.as_str());
    if entry.danger {
        append_str(&mut out, "  [destructive]");
    }
    append_str(&mut out, "\n  ");
    append_str(&mut out, entry.desc.as_str());
    append_str(&mut out, "\n  ");
    append_str(&mut out, cmd);
    append_str(&mut out, "\n");
    proof {
        reveal_strlit("\n  ");
        reveal_strlit("\n");
        reveal_strlit("  ");
    }
    let ghost head = out@;
    assert(head =~= entry@.id + (if entry@.danger {
        "  [destructive]"@
    } else {
        seq![]
    }) + "\n"@ + "  "@ + entry@.desc + "\n"@ + "  "@ + cmd@ + "\n"@);
    let names = crate::params::names(cmd);
    let ghost nv = distinct_names(placeholders(cmd@));
    let mut k: usize = 0;
    while k < names.len()
        invariant
            k <= names@.len(),
            string_views(names@) == nv,
            out@ == head + placeholder_lines(entry@, nv.take(k as int)),
        decreases names@.len() - k,
    {
        let name = names[k].as_str();
        assert(nv[k as int] == names@[k as int]@);
        assert(nv.take(k + 1).drop_last() =~= nv.take(k as int));
        append_str(&mut out, "    <");
        append_str(&mut out, name);
        append_str(&mut out, ">  ");
        match describe(&entry.params, name) {
            Some(d) => append_str(&mut out, d.as_str()),
            None => append_str(&mut out, "no description"),
        }
        append_str(&mut out, "\n");
        assert(out@ =~= head + placeholder_lines(entry@, nv.take(k + 1)));
        k += 1;
    }
    assert(nv.take(k as int) =~= nv);
    if entry.tags.len() > 0 {
        append_str(&mut out, "  tags: ");
        append_str(&mut out, join_strings(&entry.tags, ", ").as_str());
        append_str(&mut out, "\n");
    }
    append_str(&mut out, "\n");
    assert(out@ =~= listed(entry@, cmd@));
    out
}

/// The description given for placeholder `name` among `params`.
fn describe(params: &Vec<(String, crate::model::ParamSpec)>, name: &str) -> (r: Option<String>)
    ensures
        opt_view(r) == param_desc(crate::model::param_views(params@), name@),
{
    let ghost pv = crate::model::param_views(params@);
    let mut k: usize = 0;
    assert(pv.skip(0) =~= pv);
    while k < params.len()
        invariant
            k <= params@.len(),
            pv == crate::model::param_views(params@),
            param_desc(pv.skip(k as int), name@) == param_desc(pv, name@),
        decreases params@.len() - k,
    {
        assert(pv.skip(k as int).drop_first() =~= pv.skip(k + 1));
        assert(pv.skip(k as int)[0] == (params@[k as int].0@, params@[k as int].1@));
        if crate::text::same_str(params[k].0.as_str(), name) {
            return match &params[k].1.desc {
                Some(d) => Some(owned(d.as_str())),
                None => None,
            };
        }
        k += 1;
    }
    None
}

// ---------------------------------------------------------------------------
// Finding entries from the command line
// ---------------------------------------------------------------------------

/// Whether word `w` appears, ignoring case, in `cmd`, in the description of
/// `e` or in one of its tags.
pub open spec fn word_in(e: EntryView, cmd: Seq<char>, w: Seq<char>) -> bool {
    ||| contains(folded(cmd), folded(w))
    ||| contains(folded(e.desc), folded(w))
    ||| exists|t: int| 0 <= t < e.tags.len() && contains(folded(#[trigger] e.tags[t]), folded(w))
}

/// Whether a search for `query` finds `e`: it has a command for `family`, and
/// every word of the query appears somewhere in that command, the
/// description or the tags. Nothing is guessed, so a mistyped word finds
/// nothing. This containment rule is lore's own choice for searching from
/// the command line; the picker's fuzzy order only arranges what it finds.
pub open spec fn finds(e: EntryView, family: ShellFamily, query: Seq<char>) -> bool {
    match body_for(e.cmd, family) {
        Some(cmd) => forall|k: int| 0 <= k < words(query).len() ==> word_in(e, cmd, #[trigger] words(query)[k]),
        None => false,
    }
}

/// The positions among the first `n` of `es` that a search for `query`
/// finds, in order.
pub open spec fn found_upto(es: Seq<EntryView>, family: ShellFamily, query: Seq<char>, n: int) -> Seq<usize>
    decreases n,
{
    if n <= 0 {
        seq![]
    } else {
        let before = found_upto(es, family, query, n - 1);
        if finds(es[n - 1], family, query) {
            before.push((n - 1) as usize)
        } else {
            before
        }
    }
}

pub open spec fn found_in(es: Seq<EntryView>, family: ShellFamily, query: Seq<char>) -> Seq<usize> {
    found_upto(es, family, query, es.len() as int)
}

/// What the ordering is handed: each entry found with its command.
pub open spec fn found_candidates(es: Seq<EntryView>, family: ShellFamily, query: Seq<char>) -> Seq<(EntryView, Seq<char>)> {
    found_in(es, family, query).map_values(
        |i: usize| (es[i as int], body_for(es[i as int].cmd, family).unwrap()),
    )
}

/// The entries among the first `n` found, at positions `at`, that the
/// ordering leaves out because no single field matches the whole query.
pub open spec fn unranked_upto(
    at: Seq<usize>,
    cs: Seq<(EntryView, Seq<char>)>,
    scores: Seq<(Seq<char>, Standing)>,
    q: Seq<char>,
    n: int,
) -> Seq<usize>
    decreases n,
{
    if n <= 0 {
        seq![]
    } else {
        let before = unranked_upto(at, cs, scores, q, n - 1);
        if rank_at(cs, scores, q, n - 1) is None {
            before.push(at[n - 1])
        } else {
            before
        }
    }
}

/// The order a search lists what it found in, given `order`, the picker's
/// ranking of the entries found: first those it ranks, best first, then
/// those whose words are spread over several fields, in library order.
pub open spec fn found_order(
    es: Seq<EntryView>,
    family: ShellFamily,
    scores: Seq<(Seq<char>, Standing)>,
    query: Seq<char>,
    order: Seq<usize>,
) -> Seq<usize> {
    let at = found_in(es, family, query);
    let cs = found_candidates(es, family, query);
    order.map_values(|k: usize| at[k as int]) + unranked_upto(at, cs, scores, trim(query), cs.len() as int)
}

proof fn lemma_found(es: Seq<EntryView>, family: ShellFamily, query: Seq<char>, n: int)
    requires
        0 <= n <= es.len(),
        es.len() <= usize::MAX,
    ensures
        forall|k: int|
            0 <= k < found_upto(es, family, query, n).len() ==> (#[trigger] found_upto(es, family, query, n)[k]) < n
                && finds(es[found_upto(es, family, query, n)[k] as int], family, query),
        forall|i: int| 0 <= i < n && finds(es[i], family, query) ==> found_upto(es, family, query, n).contains(i as usize),
    decreases n,
{
    if n > 0 {
        lemma_found(es, family, query, n - 1);
        let before = found_upto(es, family, query, n - 1);
        let now = found_upto(es, family, query, n);
        if finds(es[n - 1], family, query) {
            assert(now == before.push((n - 1) as usize));
            assert(now[now.len() - 1] == (n - 1) as usize);
            assert forall|i: int| 0 <= i < n && finds(es[i], family, query) implies now.contains(i as usize) by {
                if i < n - 1 {
                    let j = choose|j: int| 0 <= j < before.len() && before[j] == i as usize;
                    assert(now[j] == i as usize);
                }
            }
        } else {
            assert(now == before);
        }
        assert forall|k: int| 0 <= k < now.len() implies (#[trigger] now[k]) < n && finds(es[now[k] as int], family, query) by {
            if k < before.len() {
                assert(now[k] == before[k]);
            }
        }
    }
}

/// Whether `w` appears in the command, description or tags, folded alike.
fn word_found(entry: &Entry, cmd: &str, w: &[char]) -> (r: bool)
    ensures
        r == word_in(entry@, cmd@, w@),
{
    let fw = fold(w);
    if crate::text::has(&fold(&chars_of(cmd)), &fw) {
        return true;
    }
    if crate::text::has(&fold(&chars_of(entry.desc.as_str())), &fw) {
        return true;
    }
    let ghost tags = entry@.tags;
    let mut t: usize = 0;
    while t < entry.tags.len()
        invariant
            t <= entry.tags@.len(),
            tags == entry@.tags,
            fw@ == folded(w@),
            forall|j: int| 0 <= j < t ==> !contains(folded(#[trigger] tags[j]), folded(w@)),
        decreases entry.tags@.len() - t,
    {
        assert(tags[t as int] == entry.tags@[t as int]@);
        if crate::text::has(&fold(&chars_of(entry.tags[t].as_str())), &fw) {
            return true;
        }
        t += 1;
    }
    false
}

/// Whether every one of `ws` appears in the command, description or tags.
fn all_found(entry: &Entry, cmd: &str, ws: &Vec<Vec<char>>) -> (r: bool)
    ensures
        r == forall|k: int| 0 <= k < ws@.len() ==> word_in(entry@, cmd@, #[trigger] views(ws@)[k]),
{
    let mut k: usize = 0;
    while k < ws.len()
        invariant
            k <= ws@.len(),
            forall|j: int| 0 <= j < k ==> word_in(entry@, cmd@, #[trigger] views(ws@)[j]),
        decreases ws@.len() - k,
    {
        assert(views(ws@)[k as int] == ws@[k as int]@);
        if !word_found(entry, cmd, &ws[k]) {
            return false;
        }
        k += 1;
    }
    true
}

/// What a search for `query` lists: every entry with a command for `family`
/// in which each word of the query appears, ignoring case, in the command,
/// the description or the tags. They come best first, the way the picker
/// orders them for the same query, with the entries no single field of
/// which matches the whole query after them, in library order.
pub fn found(
    ranker: &mut Ranker,
    entries: &Vec<Entry>,
    family: ShellFamily,
    scores: &[(String, Standing)],
    query: &str,
) -> (r: Vec<usize>)
    ensures
        exists|order: Seq<usize>|
            ranking(found_candidates(entry_views(entries@), family, query@), score_views(scores@), trim(query@), order)
                && r@ == found_order(entry_views(entries@), family, score_views(scores@), query@, order),
        forall|k: int|
            0 <= k < r@.len() ==> (#[trigger] r@[k]) < entries@.len() && finds(entries@[r@[k] as int]@, family, query@),
        forall|i: int|
            0 <= i < entries@.len() && finds(#[trigger] entries@[i]@, family, query@) ==> r@.contains(i as usize),
{
    let ghost es = entry_views(entries@);
    let ws = split_words(&chars_of(query));
    let mut at: Vec<usize> = Vec::new();
    let mut i: usize = 0;
    while i < entries.len()
        invariant
            i <= entries@.len(),
            es == entry_views(entries@),
            views(ws@) == words(query@),
            at@ == found_upto(es, family, query@, i as int),
        decreases entries@.len() - i,
    {
        assert(es[i as int] == entries@[i as int]@);
        match entries[i].cmd_for(family) {
            Some(cmd) => {
                if all_found(&entries[i], cmd, &ws) {
                    at.push(i);
                }
            },
            None => {},
        }
        i += 1;
    }
    proof {
        lemma_found(es, family, query@, es.len() as int);
    }
    let ghost cands = found_candidates(es, family, query@);
    let mut candidates: Vec<Candidate> = Vec::new();
    let mut k: usize = 0;
    while k < at.len()
        invariant
            k <= at@.len(),
            es == entry_views(entries@),
            at@ == found_in(es, family, query@),
            cands == found_candidates(es, family, query@),
            forall|j: int|
                0 <= j < at@.len() ==> (#[trigger] at@[j]) < es.len() && finds(es[at@[j] as int], family, query@),
            candidate_views(candidates@) == cands.take(k as int),
        decreases at@.len() - k,
    {
        let n = at[k];
        assert(es[n as int] == entries@[n as int]@);
        let entry = &entries[n];
        let cmd = entry.cmd_for(family).unwrap();
        let ghost before = candidates@;
        let c = Candidate { entry, cmd };
        candidates.push(c);
        assert(candidate_views(candidates@) =~= candidate_views(before).push((c.entry@, c.cmd@)));
        assert(cands.take(k + 1) =~= cands.take(k as int).push(cands[k as int]));
        k += 1;
    }
    assert(candidate_views(candidates@) =~= cands);
    let ranked = ranker.rank(&candidates, scores, query);
    let ghost sc = score_views(scores@);
    let ghost tq = trim(query@);
    let mut out: Vec<usize> = Vec::new();
    let mut j: usize = 0;
    while j < ranked.len()
        invariant
            j <= ranked@.len(),
            at@ == found_in(es, family, query@),
            cands.len() == at@.len(),
            ranking(cands, sc, tq, ranked@),
            out@ == ranked@.take(j as int).map_values(|m: usize| at@[m as int]),
        decreases ranked@.len() - j,
    {
        assert(ranked@[j as int] < cands.len());
        out.push(at[ranked[j]]);
        assert(ranked@.take(j + 1) =~= ranked@.take(j as int).push(ranked@[j as int]));
        assert(out@ =~= ranked@.take(j + 1).map_values(|m: usize| at@[m as int]));
        j += 1;
    }
    assert(ranked@.take(j as int) =~= ranked@);
    let ghost head = out@;
    let mut m: usize = 0;
    while m < at.len()
        invariant
            m <= at@.len(),
            at@ == found_in(es, family, query@),
            cands.len() == at@.len(),
            ranking(cands, sc, tq, ranked@),
            out@ == head + unranked_upto(at@, cands, sc, tq, m as int),
        decreases at@.len() - m,
    {
        if !lists(&ranked, m) {
            assert(!ranked@.contains(m));
            out.push(at[m]);
        } else {
            assert(rank_at(cands, sc, tq, m as int) is Some);
        }
        m += 1;
    }
    assert(out@ == found_order(es, family, sc, query@, ranked@));
    proof {
        assert forall|k: int| 0 <= k < out@.len() implies (#[trigger] out@[k]) < entries@.len() && finds(
            entries@[out@[k] as int]@,
            family,
            query@,
        ) by {
            lemma_unranked_in(at@, cands, sc, tq, at@.len() as int);
            if k < head.len() {
                assert(ranked@[k] < cands.len());
                assert(out@[k] == at@[ranked@[k] as int]);
            } else {
                let u = unranked_upto(at@, cands, sc, tq, at@.len() as int);
                assert(out@[k] == u[k - head.len()]);
                assert(at@.contains(u[k - head.len()]));
            }
            assert(es[out@[k] as int] == entries@[out@[k] as int]@);
        }
        assert forall|i: int| 0 <= i < entries@.len() && finds(#[trigger] entries@[i]@, family, query@) implies out@.contains(
            i as usize,
        ) by {
            assert(es[i] == entries@[i]@);
            assert(at@.contains(i as usize));
            let p = choose|p: int| 0 <= p < at@.len() && at@[p] == i as usize;
            if rank_at(cands, sc, tq, p) is Some {
                assert(ranked@.contains(p as usize));
                let x = choose|x: int| 0 <= x < ranked@.len() && ranked@[x] == p as usize;
                assert(out@[x] == i as usize);
            } else {
                lemma_unranked_has(at@, cands, sc, tq, at@.len() as int, p);
                let u = unranked_upto(at@, cands, sc, tq, at@.len() as int);
                let y = choose|y: int| 0 <= y < u.len() && u[y] == i as usize;
                assert(out@[head.len() + y] == i as usize);
            }
        }
    }
    out
}

/// Whether `v` holds `k`.
fn lists(v: &Vec<usize>, k: usize) -> (r: bool)
    ensures
        r == v@.contains(k),
{
    let mut i: usize = 0;
    while i < v.len()
        invariant
            i <= v@.len(),
            forall|j: int| 0 <= j < i ==> v@[j] != k,
        decreases v@.len() - i,
    {
        if v[i] == k {
            assert(v@[i as int] == k);
            return true;
        }
        i += 1;
    }
    false
}

/// How many matches a search prints unless asked for all of them, so that a
/// whole namespace never rolls past the prompt.
pub const FIND_PAGE: usize = 10;

/// How many of `total` matches a search prints: all of them when asked to
/// or when its output goes somewhere other than a terminal, else no more
/// than a page.
pub fn shown_count(total: usize, everything: bool) -> (r: usize)
    ensures
        r == if everything || total <= FIND_PAGE {
            total
        } else {
            FIND_PAGE
        },
{
    if everything || total <= FIND_PAGE {
        total
    } else {
        FIND_PAGE
    }
}

/// The line that says how many matches were left out, and how to see them.
pub open spec fn more_text(left: nat) -> Seq<char> {
    "... and "@ + crate::text::decimal_of(left) + " more, --all lists every one\n"@
}

/// The line that says `left` more matches were not printed.
pub fn more_line(left: usize) -> (r: String)
    ensures
        r@ == more_text(left as nat),
{
    let mut out = owned("... and ");
    crate::text::push_all(&mut out, &crate::text::decimal(left as u128));
    append_str(&mut out, " more, --all lists every one\n");
    out
}

/// `n` spaces.
pub open spec fn spaces(n: nat) -> Seq<char> {
    Seq::new(n, |i: int| ' ')
}

/// The longest id among the entries of `es` at `shown`.
pub open spec fn widest(es: Seq<EntryView>, shown: Seq<usize>) -> nat
    decreases shown.len(),
{
    if shown.len() == 0 {
        0
    } else {
        let rest = widest(es, shown.drop_last());
        let here = es[shown.last() as int].id.len();
        if here > rest {
            here
        } else {
            rest
        }
    }
}

/// How a search lists one entry it found: its id padded to `width`, its
/// command, and under the command what it is for.
pub open spec fn found_entry(e: EntryView, cmd: Seq<char>, width: nat) -> Seq<char> {
    e.id + spaces((width - e.id.len()) as nat) + cmd + "\n"@ + spaces(width) + e.desc + "\n"@
}

/// The entries of `es` at `shown`, listed as a search lists them with ids
/// padded to `width`.
pub open spec fn found_entries(es: Seq<EntryView>, family: ShellFamily, shown: Seq<usize>, width: nat) -> Seq<char>
    decreases shown.len(),
{
    if shown.len() == 0 {
        seq![]
    } else {
        let e = es[shown.last() as int];
        found_entries(es, family, shown.drop_last(), width) + found_entry(
            e,
            body_for(e.cmd, family).unwrap(),
            width,
        )
    }
}

/// What a search prints for the entries at `shown`: each id padded to two
/// columns past the longest, then its command, and under the command what
/// it is for.
pub open spec fn found_listing(es: Seq<EntryView>, family: ShellFamily, shown: Seq<usize>) -> Seq<char> {
    found_entries(es, family, shown, widest(es, shown) + 2)
}

proof fn lemma_widest(es: Seq<EntryView>, shown: Seq<usize>)
    ensures
        forall|k: int| 0 <= k < shown.len() ==> es[#[trigger] shown[k] as int].id.len() <= widest(es, shown),
    decreases shown.len(),
{
    if shown.len() > 0 {
        lemma_widest(es, shown.drop_last());
        assert forall|k: int| 0 <= k < shown.len() implies es[#[trigger] shown[k] as int].id.len() <= widest(es, shown) by {
            if k < shown.len() - 1 {
                assert(shown[k] == shown.drop_last()[k]);
            }
        }
    }
}

fn push_spaces(out: &mut String, n: usize)
    ensures
        final(out)@ == old(out)@ + spaces(n as nat),
{
    let ghost start = out@;
    let mut i: usize = 0;
    while i < n
        invariant
            i <= n,
            out@ == start + spaces(i as nat),
        decreases n - i,
    {
        crate::text::push_char(out, ' ');
        assert(spaces((i + 1) as nat) =~= spaces(i as nat).push(' '));
        i += 1;
    }
}

/// The listing a search prints for the entries at `shown`, best first.
pub fn found_lines(entries: &Vec<Entry>, family: ShellFamily, shown: &Vec<usize>) -> (r: String)
    requires
        forall|k: int|
            0 <= k < shown@.len() ==> (#[trigger] shown@[k]) < entries@.len() && body_for(
                entries@[shown@[k] as int]@.cmd,
                family,
            ) is Some,
        widest(entry_views(entries@), shown@) + 2 <= usize::MAX,
    ensures
        r@ == found_listing(entry_views(entries@), family, shown@),
{
    let ghost es = entry_views(entries@);
    let mut width: usize = 0;
    let mut i: usize = 0;
    while i < shown.len()
        invariant
            i <= shown@.len(),
            es == entry_views(entries@),
            forall|k: int| 0 <= k < shown@.len() ==> (#[trigger] shown@[k]) < entries@.len(),
            width == widest(es, shown@.take(i as int)),
        decreases shown@.len() - i,
    {
        assert(shown@.take(i + 1).drop_last() =~= shown@.take(i as int));
        assert(es[shown@[i as int] as int] == entries@[shown@[i as int] as int]@);
        let n = chars_of(entries[shown[i]].id.as_str()).len();
        if n > width {
            width = n;
        }
        i += 1;
    }
    assert(shown@.take(i as int) =~= shown@);
    proof {
        lemma_widest(es, shown@);
    }
    let column = width + 2;
    let mut out = String::new();
    let mut k: usize = 0;
    while k < shown.len()
        invariant
            k <= shown@.len(),
            es == entry_views(entries@),
            column == widest(es, shown@) + 2,
            forall|j: int|
                0 <= j < shown@.len() ==> (#[trigger] shown@[j]) < entries@.len() && body_for(
                    entries@[shown@[j] as int]@.cmd,
                    family,
                ) is Some && es[shown@[j] as int].id.len() <= widest(es, shown@),
            out@ == found_entries(es, family, shown@.take(k as int), column as nat),
        decreases shown@.len() - k,
    {
        let entry = &entries[shown[k]];
        assert(es[shown@[k as int] as int] == entry@);
        let cmd = entry.cmd_for(family).unwrap();
        let ghost before = out@;
        let n = chars_of(entry.id.as_str()).len();
        append_str(&mut out, entry.id.as_str());
        push_spaces(&mut out, column - n);
        append_str(&mut out, cmd);
        append_str(&mut out, "\n");
        push_spaces(&mut out, column);
        append_str(&mut out, entry.desc.as_str());
        append_str(&mut out, "\n");
        assert(shown@.take(k + 1).drop_last() =~= shown@.take(k as int));
        assert(out@ =~= before + found_entry(entry@, cmd@, column as nat));
        k += 1;
    }
    assert(shown@.take(k as int) =~= shown@);
    out
}

proof fn lemma_unranked_in(
    at: Seq<usize>,
    cs: Seq<(EntryView, Seq<char>)>,
    scores: Seq<(Seq<char>, Standing)>,
    q: Seq<char>,
    n: int,
)
    requires
        0 <= n <= at.len(),
    ensures
        forall|k: int| 0 <= k < unranked_upto(at, cs, scores, q, n).len() ==> at.contains(
            #[trigger] unranked_upto(at, cs, scores, q, n)[k],
        ),
    decreases n,
{
    if n > 0 {
        lemma_unranked_in(at, cs, scores, q, n - 1);
        let before = unranked_upto(at, cs, scores, q, n - 1);
        let now = unranked_upto(at, cs, scores, q, n);
        assert forall|k: int| 0 <= k < now.len() implies at.contains(#[trigger] now[k]) by {
            if k < before.len() {
                assert(now[k] == before[k]);
            } else {
                assert(now[k] == at[n - 1]);
            }
        }
    }
}

proof fn lemma_unranked_has(
    at: Seq<usize>,
    cs: Seq<(EntryView, Seq<char>)>,
    scores: Seq<(Seq<char>, Standing)>,
    q: Seq<char>,
    n: int,
    p: int,
)
    requires
        0 <= p < n <= at.len(),
        rank_at(cs, scores, q, p) is None,
    ensures
        unranked_upto(at, cs, scores, q, n).contains(at[p]),
    decreases n,
{
    let now = unranked_upto(at, cs, scores, q, n);
    if p == n - 1 {
        assert(now[now.len() - 1] == at[p]);
    } else {
        lemma_unranked_has(at, cs, scores, q, n - 1, p);
        let before = unranked_upto(at, cs, scores, q, n - 1);
        let y = choose|y: int| 0 <= y < before.len() && before[y] == at[p];
        assert(now[y] == at[p]);
    }
}

} // verus!
