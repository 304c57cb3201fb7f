//! Reading command definition files and merging them into one library, and
//! editing the user's own file one entry at a time.
//!
//! Layers are merged weakest first, so a later layer shadows an earlier one by
//! entry id. Any layer may also hide entries by glob pattern without redefining
//! them.

use vstd::prelude::*;

use crate::model::{copy_params, copy_strings, param_views, BodyView, CommandBody, Entry, EntryView, ParamSpec, ParamView};
use crate::params::{list_has, string_views};
use crate::text::{
    extend, is_ws, join_lines, joined, lines, skip_ws, split_lines, starts_with, begins_with,
    trim_start, trimmed_start, ws_from, lemma_skip_ws, lemma_joined_add, lemma_joined_push,
    lemma_views_push, lemma_views_take, clean_line, lemma_lines_joined, lemma_back_ws, back_ws,
    trim_end, decimal, decimal_of, lemma_decimal_injective, is_alnum, lower, is_ascii_alnum, to_lower,
};
use crate::text::{
    chars_of, copy, ends_with, strings_of, finishes_with, has_char, is_ascii_digit, is_ascii_lower, is_digit,
    is_lower, join_with, joined_with, lowercase, same, slice, split_char, split_on, split_words,
    string_of, trim, trimmed, unicode_lower, views, words,
};

verus! {

broadcast use vstd::string::group_string_axioms;

// ---------------------------------------------------------------------------
// Tags
// ---------------------------------------------------------------------------

/// The trimmed pieces of `pieces` that are not empty, in order.
pub open spec fn clean_tags(pieces: Seq<Seq<char>>) -> Seq<Seq<char>>
    decreases pieces.len(),
{
    if pieces.len() == 0 {
        seq![]
    } else {
        let before = clean_tags(pieces.drop_last());
        let t = trim(pieces.last());
        if t.len() == 0 {
            before
        } else {
            before.push(t)
        }
    }
}

/// Splits the comma separated tags a user typed into a clean list.
pub fn parse_tags(text: &str) -> (r: Vec<String>)
    ensures
        string_views(r@) == clean_tags(split_on(text@, ',')),
{
    let pieces = split_char(&chars_of(text), ',');
    let ghost ps = views(pieces@);
    let mut out: Vec<String> = Vec::new();
    let mut i: usize = 0;
    while i < pieces.len()
        invariant
            i <= pieces@.len(),
            ps == views(pieces@),
            string_views(out@) == clean_tags(ps.take(i as int)),
        decreases pieces@.len() - i,
    {
        assert(ps.take(i + 1).drop_last() =~= ps.take(i as int));
        let t = trimmed(&pieces[i]);
        if t.len() > 0 {
            let ghost before = out@;
            out.push(string_of(&t));
            assert(string_views(out@) =~= string_views(before).push(t@));
        }
        i += 1;
    }
    assert(ps.take(i as int) =~= ps);
    out
}

/// Whether `list` holds `s`.
pub fn holds(list: &Vec<Vec<char>>, s: &[char]) -> (r: bool)
    ensures
        r == views(list@).contains(s@),
{
    let mut i: usize = 0;
    while i < list.len()
        invariant
            i <= list@.len(),
            forall|k: int| 0 <= k < i ==> list@[k]@ != s@,
        decreases list@.len() - i,
    {
        if same(&list[i], s) {
            assert(views(list@)[i as int] == s@);
            return true;
        }
        i += 1;
    }
    assert forall|k: int| 0 <= k < views(list@).len() implies views(list@)[k] != s@ by {
        assert(list@[k]@ != s@);
    }
    false
}

/// The words of a purpose split into description words and `#tags`, tags
/// lower cased and each kept once.
pub open spec fn purpose_parts(ws: Seq<Seq<char>>) -> (Seq<Seq<char>>, Seq<Seq<char>>)
    decreases ws.len(),
{
    if ws.len() == 0 {
        (seq![], seq![])
    } else {
        let (words, tags) = purpose_parts(ws.drop_last());
        let w = ws.last();
        if w.len() > 1 && w[0] == '#' {
            let tag = unicode_lower(w.drop_first());
            if tags.contains(tag) {
                (words, tags)
            } else {
                (words, tags.push(tag))
            }
        } else {
            (words.push(w), tags)
        }
    }
}

/// Whether a word of a purpose is a `#tag`: `#` and at least one more
/// character.
pub open spec fn is_tag_word(w: Seq<char>) -> bool {
    w.len() > 1 && w[0] == '#'
}

/// The description keeps exactly the words that are not `#tags`, in order;
/// the tags are the lower cased remainders of the `#tags`, each once, and
/// every `#tag` gives one of them.
pub proof fn lemma_purpose_parts(ws: Seq<Seq<char>>)
    ensures
        purpose_parts(ws).0 == ws.filter(|w: Seq<char>| !is_tag_word(w)),
        forall|i: int, j: int|
            0 <= i < j < purpose_parts(ws).1.len() ==> #[trigger] purpose_parts(ws).1[i]
                != #[trigger] purpose_parts(ws).1[j],
        forall|x: Seq<char>|
            #[trigger] purpose_parts(ws).1.contains(x) <==> exists|k: int|
                0 <= k < ws.len() && is_tag_word(#[trigger] ws[k]) && unicode_lower(ws[k].drop_first()) == x,
    decreases ws.len(),
{
    reveal(Seq::filter);
    if ws.len() > 0 {
        let u = ws.drop_last();
        lemma_purpose_parts(u);
        let (words, tags) = purpose_parts(u);
        let w = ws.last();
        let now = purpose_parts(ws).1;
        assert forall|x: Seq<char>|
            #[trigger] now.contains(x) <==> exists|k: int|
                0 <= k < ws.len() && is_tag_word(#[trigger] ws[k]) && unicode_lower(ws[k].drop_first()) == x by {
            if now.contains(x) {
                if tags.contains(x) {
                    let k = choose|k: int|
                        0 <= k < u.len() && is_tag_word(#[trigger] u[k]) && unicode_lower(u[k].drop_first()) == x;
                    assert(ws[k] == u[k]);
                } else {
                    assert(ws[ws.len() - 1] == w);
                }
            }
            if exists|k: int| 0 <= k < ws.len() && is_tag_word(#[trigger] ws[k]) && unicode_lower(ws[k].drop_first()) == x {
                let k = choose|k: int|
                    0 <= k < ws.len() && is_tag_word(#[trigger] ws[k]) && unicode_lower(ws[k].drop_first()) == x;
                if k < u.len() {
                    assert(u[k] == ws[k]);
                    assert(tags.contains(x));
                    if now != tags {
                        assert(now == tags.push(unicode_lower(w.drop_first())));
                        let i = choose|i: int| 0 <= i < tags.len() && tags[i] == x;
                        assert(now[i] == x);
                    }
                } else {
                    if now != tags {
                        assert(now[now.len() - 1] == x);
                    }
                }
            }
        }
    }
}

/// What each `#tag` among `ws` says, lower cased, in order.
pub open spec fn tag_values(ws: Seq<Seq<char>>) -> Seq<Seq<char>> {
    ws.filter(|w: Seq<char>| is_tag_word(w)).map_values(|w: Seq<char>| unicode_lower(w.drop_first()))
}

/// `s` with each value kept only where it first occurs.
pub open spec fn first_occurrences(s: Seq<Seq<char>>) -> Seq<Seq<char>>
    decreases s.len(),
{
    if s.len() == 0 {
        seq![]
    } else {
        let before = first_occurrences(s.drop_last());
        if before.contains(s.last()) {
            before
        } else {
            before.push(s.last())
        }
    }
}

/// The tags of a purpose are what its `#tags` say, lower cased, each kept
/// where it first occurs.
pub proof fn lemma_tags_in_order(ws: Seq<Seq<char>>)
    ensures
        purpose_parts(ws).1 == first_occurrences(tag_values(ws)),
    decreases ws.len(),
{
    reveal(Seq::filter);
    if ws.len() > 0 {
        let u = ws.drop_last();
        lemma_tags_in_order(u);
        let w = ws.last();
        let fu = u.filter(|w: Seq<char>| is_tag_word(w));
        let f = |w: Seq<char>| unicode_lower(w.drop_first());
        if is_tag_word(w) {
            assert(ws.filter(|w: Seq<char>| is_tag_word(w)) == fu.push(w));
            assert(fu.push(w).map_values(f) =~= fu.map_values(f).push(f(w)));
            assert(tag_values(ws) == tag_values(u).push(f(w)));
            assert(tag_values(ws).drop_last() =~= tag_values(u));
        } else {
            assert(ws.filter(|w: Seq<char>| is_tag_word(w)) == fu);
        }
    }
}

/// Separates `#tags` from the answer to "what is it for?".
///
/// Saving asks one question rather than filling in a form, so tags ride along
/// in the answer the way they do in a commit message or a post: any word that
/// starts with `#` and has more after it becomes a tag, and the rest, joined
/// by single spaces, is the description.
pub fn split_purpose(text: &str) -> (r: (String, Vec<String>))
    ensures
        r.0@ == joined_with(purpose_parts(words(text@)).0, ' '),
        string_views(r.1@) == purpose_parts(words(text@)).1,
{
    let ws = split_words(&chars_of(text));
    let ghost all = views(ws@);
    let mut kept: Vec<Vec<char>> = Vec::new();
    let mut tags: Vec<Vec<char>> = Vec::new();
    let mut i: usize = 0;
    while i < ws.len()
        invariant
            i <= ws@.len(),
            all == views(ws@),
            (views(kept@), views(tags@)) == purpose_parts(all.take(i as int)),
        decreases ws@.len() - i,
    {
        assert(all.take(i + 1).drop_last() =~= all.take(i as int));
        let w = &ws[i];
        if w.len() > 1 && w[0] == '#' {
            let rest = slice(w, 1, w.len());
            assert(rest@ =~= w@.drop_first());
            let tag = chars_of(lowercase(string_of(&rest).as_str()).as_str());
            if !holds(&tags, &tag) {
                let ghost before = tags@;
                tags.push(tag);
                assert(views(tags@) =~= views(before).push(tag@));
            }
        } else {
            let ghost before = kept@;
            kept.push(copy(w));
            assert(views(kept@) =~= views(before).push(w@));
        }
        i += 1;
    }
    assert(all.take(i as int) =~= all);
    let description = string_of(&join_with(&kept, ' '));
    (description, strings_of(&tags))
}

/// A word that reads as a name: lower case letters, digits and hyphens,
/// starting with a letter, at least two long.
pub open spec fn plain(w: Seq<char>) -> bool {
    w.len() >= 2 && is_lower(w[0]) && forall|i: int|
        0 <= i < w.len() ==> is_lower(#[trigger] w[i]) || is_digit(w[i]) || w[i] == '-'
}

pub fn is_plain(w: &[char]) -> (r: bool)
    ensures
        r == plain(w@),
{
    if w.len() < 2 || !is_ascii_lower(w[0]) {
        return false;
    }
    let mut i: usize = 0;
    while i < w.len()
        invariant
            i <= w@.len(),
            forall|k: int| 0 <= k < i ==> is_lower(#[trigger] w@[k]) || is_digit(w@[k]) || w@[k]
                == '-',
        decreases w@.len() - i,
    {
        if !(is_ascii_lower(w[i]) || is_ascii_digit(w[i]) || w[i] == '-') {
            return false;
        }
        i += 1;
    }
    true
}

/// Words before the program that are not the program: `sudo`, `doas` and
/// variable assignments.
pub open spec fn is_prefix_word(w: Seq<char>) -> bool {
    w == "sudo"@ || w == "doas"@ || w.contains('=')
}

/// The first position at or after `i` whose word is not a prefix word.
pub open spec fn program_at(ws: Seq<Seq<char>>, i: int) -> int
    decreases ws.len() - i,
{
    if 0 <= i < ws.len() && is_prefix_word(ws[i]) {
        program_at(ws, i + 1)
    } else {
        i
    }
}

/// A program named by path is known by its last component, less `.exe`.
pub open spec fn program_name(w: Seq<char>) -> Seq<char> {
    let last = match last_sep(w) {
        Some(k) => w.skip(k + 1),
        None => w,
    };
    let bare = if ends_with(last, ".exe"@) {
        last.take(last.len() - 4)
    } else {
        last
    };
    unicode_lower(bare)
}

/// The last position holding a slash of either kind.
pub open spec fn last_sep(w: Seq<char>) -> Option<int> {
    sep_before(w, w.len() as int)
}

pub open spec fn sep_before(w: Seq<char>, j: int) -> Option<int>
    decreases j,
{
    if 0 < j <= w.len() {
        if w[j - 1] == '/' || w[j - 1] == '\\' {
            Some(j - 1)
        } else {
            sep_before(w, j - 1)
        }
    } else {
        None
    }
}

/// The subcommands after the program: plain words, up to three tags in all,
/// each once.
pub open spec fn subcommands(ws: Seq<Seq<char>>, tags: Seq<Seq<char>>) -> Seq<Seq<char>>
    decreases ws.len(),
{
    if ws.len() == 0 || tags.len() == 3 || !plain(ws[0]) {
        tags
    } else if tags.contains(ws[0]) {
        subcommands(ws.drop_first(), tags)
    } else {
        subcommands(ws.drop_first(), tags.push(ws[0]))
    }
}

/// Words to know a command by, taken from the command itself.
pub open spec fn derived_tags(cmd: Seq<char>) -> Seq<Seq<char>> {
    let ws = words(cmd);
    let p = program_at(ws, 0);
    if p >= ws.len() {
        seq![]
    } else {
        let name = program_name(ws[p]);
        if plain(name) {
            subcommands(ws.skip(p + 1), seq![name])
        } else {
            seq![]
        }
    }
}

fn prefix_word(w: &[char]) -> (r: bool)
    ensures
        r == is_prefix_word(w@),
{
    same(w, &chars_of("sudo")) || same(w, &chars_of("doas")) || has_char(w, '=')
}

/// Words to know a command by, taken from the command itself.
///
/// The program and the subcommands that follow it, stopping at the first flag,
/// placeholder, path or quote: `kubectl logs -f <pod>` gives `kubectl` and
/// `logs`. That is what someone types when they half remember the command, and
/// it saves them inventing tags for every entry.
pub fn derive_tags(cmd: &str) -> (r: Vec<String>)
    ensures
        string_views(r@) == derived_tags(cmd@),
{
    let ws = split_words(&chars_of(cmd));
    let ghost all = views(ws@);
    let mut p: usize = 0;
    while p < ws.len() && prefix_word(&ws[p])
        invariant
            p <= ws@.len(),
            all == views(ws@),
            program_at(all, p as int) == program_at(all, 0),
        decreases ws@.len() - p,
    {
        p += 1;
    }
    if p >= ws.len() {
        return Vec::new();
    }
    let w = &ws[p];
    let mut j = w.len();
    while j > 0 && !(w[j - 1] == '/' || w[j - 1] == '\\')
        invariant
            j <= w@.len(),
            sep_before(w@, j as int) == sep_before(w@, w@.len() as int),
        decreases j,
    {
        j -= 1;
    }
    let last = slice(w, j, w.len());
    assert(last@ =~= match last_sep(w@) {
        Some(k) => w@.skip(k + 1),
        None => w@,
    });
    let exe = chars_of(".exe");
    let bare = if finishes_with(&last, &exe) {
        slice(&last, 0, last.len() - exe.len())
    } else {
        slice(&last, 0, last.len())
    };
    proof {
        reveal_strlit(".exe");
    }
    assert(bare@ =~= if ends_with(last@, ".exe"@) {
        last@.take(last@.len() - 4)
    } else {
        last@
    });
    let name = chars_of(lowercase(string_of(&bare).as_str()).as_str());
    if !is_plain(&name) {
        return Vec::new();
    }
    let mut tags: Vec<Vec<char>> = Vec::new();
    let ghost name_view = name@;
    tags.push(name);
    assert(views(tags@) =~= seq![name_view]);
    let mut k = p + 1;
    while k < ws.len() && tags.len() < 3 && is_plain(&ws[k])
        invariant
            p < k <= ws@.len(),
            all == views(ws@),
            tags@.len() <= 3,
            subcommands(all.skip(k as int), views(tags@)) == derived_tags(cmd@),
        decreases ws@.len() - k,
    {
        assert(all.skip(k as int)[0] == all[k as int]);
        assert(all.skip(k as int).drop_first() =~= all.skip(k + 1));
        if !holds(&tags, &ws[k]) {
            let ghost before = tags@;
            tags.push(copy(&ws[k]));
            assert(views(tags@) =~= views(before).push(all[k as int]));
        }
        k += 1;
    }
    assert(k < all.len() ==> all.skip(k as int)[0] == all[k as int]);
    assert(k < all.len() ==> all[k as int] == ws@[k as int]@);
    assert(k >= all.len() ==> all.skip(k as int).len() == 0);
    assert(subcommands(all.skip(k as int), views(tags@)) == views(tags@));
    strings_of(&tags)
}

/// `tags` followed by each of `more` not already present.
pub open spec fn with_new(tags: Seq<Seq<char>>, more: Seq<Seq<char>>) -> Seq<Seq<char>>
    decreases more.len(),
{
    if more.len() == 0 {
        tags
    } else {
        let before = with_new(tags, more.drop_last());
        if before.contains(more.last()) {
            before
        } else {
            before.push(more.last())
        }
    }
}

/// `tags` followed by each of `more` not already present.
pub fn add_new(tags: Vec<String>, more: &Vec<String>) -> (r: Vec<String>)
    ensures
        string_views(r@) == with_new(string_views(tags@), string_views(more@)),
{
    let ghost mv = string_views(more@);
    let mut tags = tags;
    let ghost start = string_views(tags@);
    let mut i: usize = 0;
    while i < more.len()
        invariant
            i <= more@.len(),
            mv == string_views(more@),
            string_views(tags@) == with_new(start, mv.take(i as int)),
        decreases more@.len() - i,
    {
        assert(mv.take(i + 1).drop_last() =~= mv.take(i as int));
        if !crate::params::list_has(&tags, &more[i]) {
            let ghost before = tags@;
            tags.push(more[i].clone());
            assert(string_views(tags@) =~= string_views(before).push(mv[i as int]));
        }
        i += 1;
    }
    assert(mv.take(i as int) =~= mv);
    tags
}

/// Tags the user gave first, then the ones the command suggests.
pub fn merge_tags(given: Vec<String>, cmd: &str) -> (r: Vec<String>)
    ensures
        string_views(r@) == with_new(string_views(given@), derived_tags(cmd@)),
{
    let derived = derive_tags(cmd);
    add_new(given, &derived)
}

// ---------------------------------------------------------------------------
// New entries
// ---------------------------------------------------------------------------

/// A command on its way into the user's library.
///
/// Carries every field an entry can hold, not only the ones a form asks for.
/// Rewriting an existing entry writes this whole value, so anything left out
/// here would be dropped from the file the moment it was edited.
#[derive(Debug)]
pub struct NewEntry {
    pub id: String,
    pub cmd: CommandBody,
    pub desc: String,
    pub tags: Vec<String>,
    pub params: Vec<(String, ParamSpec)>,
    pub danger: bool,
}

pub struct NewEntryView {
    pub id: Seq<char>,
    pub cmd: BodyView,
    pub desc: Seq<char>,
    pub tags: Seq<Seq<char>>,
    pub params: Seq<(Seq<char>, ParamView)>,
    pub danger: bool,
}

impl View for NewEntry {
    type V = NewEntryView;

    open spec fn view(&self) -> NewEntryView {
        NewEntryView {
            id: self.id@,
            cmd: self.cmd@,
            desc: self.desc@,
            tags: string_views(self.tags@),
            params: param_views(self.params@),
            danger: self.danger,
        }
    }
}

/// What of an entry goes into a file: everything but the layer, which is
/// where the file is rather than what it says.
pub open spec fn written_view(e: EntryView) -> NewEntryView {
    NewEntryView {
        id: e.id,
        cmd: e.cmd,
        desc: e.desc,
        tags: e.tags,
        params: e.params,
        danger: e.danger,
    }
}

impl NewEntry {
    /// The entry as it would be written into a file.
    pub fn from_entry(entry: &Entry) -> (r: NewEntry)
        ensures
            r@ == written_view(entry@),
    {
        NewEntry {
            id: entry.id.clone(),
            cmd: entry.cmd.copied(),
            desc: entry.desc.clone(),
            tags: copy_strings(&entry.tags),
            params: copy_params(&entry.params),
            danger: entry.danger,
        }
    }
}

// ---------------------------------------------------------------------------
// Editing a library file in place
// ---------------------------------------------------------------------------

/// Schema version this build understands.
pub const SCHEMA_VERSION: u32 = 1;

/// Top level key holding the ids a layer hides.
pub const DISABLED: &'static str = "disabled:";

/// Top level key holding a layer's entries.
pub const COMMANDS: &'static str = "commands:";

/// How far list items are indented in a file that has none yet.
pub const DEFAULT_INDENT: &'static str = "  ";

/// An edit the file's own layout rules out.
#[derive(Debug, Clone, PartialEq, Eq)]
pub enum EditError {
    /// The list is written on one line, such as `disabled: [a, b]`, and has to
    /// be extended by hand. Carries the line.
    OneLine(String),
}

impl EditError {
    /// What to tell the user.
    pub fn message(&self) -> (r: String)
        ensures
            r@ == match self {
                EditError::OneLine(line) => "`"@ + line@ + "` is written on one line, add to it by hand"@,
            },
    {
        match self {
            EditError::OneLine(line) => {
                let mut s = crate::text::owned("`");
                crate::text::append_str(&mut s, line.as_str());
                crate::text::append_str(&mut s, "` is written on one line, add to it by hand");
                s
            },
        }
    }
}

/// What `upsert` did to the file.
#[derive(Debug, Clone, Copy, PartialEq, Eq, Structural)]
pub enum Written {
    Replaced,
    Appended,
}

/// The first line at or after `i` that is the top level `key`.
pub open spec fn key_from(ls: Seq<Seq<char>>, key: Seq<char>, i: int) -> Option<int>
    decreases ls.len() - i,
{
    if 0 <= i < ls.len() {
        if starts_with(ls[i], key) {
            Some(i)
        } else {
            key_from(ls, key, i + 1)
        }
    } else {
        None
    }
}

/// The line that is the top level `key`, such as `commands:`.
pub open spec fn key_line(ls: Seq<Seq<char>>, key: Seq<char>) -> Option<int> {
    key_from(ls, key, 0)
}

pub proof fn lemma_key_from(ls: Seq<Seq<char>>, key: Seq<char>, i: int)
    requires
        0 <= i,
    ensures
        key_from(ls, key, i) matches Some(k) ==> i <= k < ls.len() && starts_with(ls[k], key),
    decreases ls.len() - i,
{
    if 0 <= i < ls.len() && !starts_with(ls[i], key) {
        lemma_key_from(ls, key, i + 1);
    }
}

/// The list under the top level `key`: the lines with `key: []` turned into
/// an open list and where the key sits, nothing when there is no such key,
/// or the key's line when the list is written on it.
pub open spec fn opened(ls: Seq<Seq<char>>, key: Seq<char>) -> Result<
    Option<(Seq<Seq<char>>, int)>,
    Seq<char>,
> {
    match key_line(ls, key) {
        None => Ok(None),
        Some(at) => {
            let rest0 = trim(ls[at].skip(key.len() as int));
            // A comment after the key says nothing about the list.
            let rest = if starts_with(rest0, seq!['#']) {
                seq![]
            } else {
                rest0
            };
            if rest.len() == 0 {
                Ok(Some((ls, at)))
            } else if rest == seq!['[', ']'] {
                Ok(Some((ls.update(at, key), at)))
            } else {
                Err(trim(ls[at]))
            }
        },
    }
}

/// How far a line is indented.
pub open spec fn indent_of(line: Seq<char>) -> int {
    skip_ws(line, 0)
}

/// A line that opens a new top level key rather than continuing a list.
///
/// A list may be written flush with the margin, so a line starting with `-`
/// still belongs to it, as does a comment.
pub open spec fn starts_top_level(line: Seq<char>) -> bool {
    line.len() > 0 && indent_of(line) == 0 && line[0] != '-' && line[0] != '#'
}

/// The first line at or after `i` that opens a new top level key, or the end.
pub open spec fn section_end_from(ls: Seq<Seq<char>>, i: int) -> int
    decreases ls.len() - i,
{
    if 0 <= i < ls.len() && !starts_top_level(ls[i]) {
        section_end_from(ls, i + 1)
    } else {
        i
    }
}

pub proof fn lemma_section_end(ls: Seq<Seq<char>>, i: int)
    requires
        0 <= i <= ls.len(),
    ensures
        i <= section_end_from(ls, i) <= ls.len(),
        forall|k: int| i <= k < section_end_from(ls, i) ==> !starts_top_level(#[trigger] ls[k]),
    decreases ls.len() - i,
{
    if i < ls.len() && !starts_top_level(ls[i]) {
        lemma_section_end(ls, i + 1);
    }
}

/// Whether a line is a list item.
pub open spec fn is_item(line: Seq<char>) -> bool {
    starts_with(trim_start(line), seq!['-', ' '])
}

/// How far the list's items are indented, from the first one there is.
pub open spec fn item_indent(ls: Seq<Seq<char>>) -> Option<Seq<char>>
    decreases ls.len(),
{
    if ls.len() == 0 {
        None
    } else if is_item(ls[0]) {
        Some(ls[0].take(indent_of(ls[0])))
    } else {
        item_indent(ls.drop_first())
    }
}

/// Blank lines and margin comments at the end of a section introduce what
/// follows it rather than closing what came before.
pub open spec fn belongs_to_next(line: Seq<char>) -> bool {
    trim(line).len() == 0 || starts_with(line, seq!['#'])
}

/// Where a new item goes in a section running up to `end`: after the last
/// line that belongs to the list, but never before `lo`.
pub open spec fn insert_point(ls: Seq<Seq<char>>, lo: int, j: int) -> int
    decreases j,
{
    if 0 < j && lo < j && j <= ls.len() && belongs_to_next(ls[j - 1]) {
        insert_point(ls, lo, j - 1)
    } else {
        j
    }
}

/// The lines of one list item: the first marked with `- `, the rest lined up
/// under it, all indented by `indent`.
pub open spec fn item_lines(body: Seq<Seq<char>>, indent: Seq<char>) -> Seq<Seq<char>> {
    Seq::new(
        body.len(),
        |k: int|
            if k == 0 {
                indent + seq!['-', ' '] + body[k]
            } else {
                indent + seq![' ', ' '] + body[k]
            },
    )
}

/// One entry rendered as a YAML list item indented by `indent`, from `body`,
/// the entry as the YAML serialiser writes it.
pub open spec fn item_text(body: Seq<char>, indent: Seq<char>) -> Seq<char> {
    joined(item_lines(lines(body), indent))
}

pub open spec fn default_indent() -> Seq<char> {
    seq![' ', ' ']
}

pub open spec fn or_default_indent(i: Option<Seq<char>>) -> Seq<char> {
    match i {
        Some(i) => i,
        None => default_indent(),
    }
}

/// The text that starts a library with nothing in it yet.
pub open spec fn fresh_header() -> Seq<char> {
    "version: 1"@ + seq!['\n'] + COMMANDS@ + seq!['\n']
}

/// `text` with an entry added as the last item of its `commands` list, or the
/// line that stops it being added.
pub open spec fn appended_text(text: Seq<char>, body: Seq<char>) -> Result<Seq<char>, Seq<char>> {
    if trim(text).len() == 0 {
        Ok(fresh_header() + item_text(body, default_indent()))
    } else {
        let ls = lines(text);
        match opened(ls, COMMANDS@) {
            Err(e) => Err(e),
            Ok(None) => Ok(joined(ls.push(COMMANDS@)) + item_text(body, default_indent())),
            Ok(Some((ls2, key))) => {
                let end = section_end_from(ls2, key + 1);
                let indent = or_default_indent(item_indent(ls2.subrange(key + 1, end)));
                let at = insert_point(ls2, key + 1, end);
                Ok(
                    joined(
                        ls2.take(at) + lines(item_text(body, indent)) + ls2.skip(at),
                    ),
                )
            },
        }
    }
}

/// The lines `ls` with a top level `commands: []` written as an open
/// `commands:` list, as appending an entry writes it.
pub open spec fn commands_opened(ls: Seq<Seq<char>>) -> Seq<Seq<char>> {
    match opened(ls, COMMANDS@) {
        Ok(Some((l2, _))) => l2,
        _ => ls,
    }
}

/// Whether `t` begins with the lines of `ls` before `at` and ends with those
/// from `at` on.
pub open spec fn kept_around(t: Seq<char>, ls: Seq<Seq<char>>, at: int) -> bool {
    starts_with(t, joined(ls.take(at))) && ends_with(t, joined(ls.skip(at)))
}

proof fn lemma_insert_point(ls: Seq<Seq<char>>, lo: int, j: int)
    requires
        0 <= lo <= j <= ls.len(),
    ensures
        lo <= insert_point(ls, lo, j) <= j,
    decreases j,
{
    if 0 < j && lo < j && j <= ls.len() && belongs_to_next(ls[j - 1]) {
        lemma_insert_point(ls, lo, j - 1);
    }
}

/// Appending an entry keeps every line of the file, in order. A blank file
/// becomes a fresh header and the entry. Otherwise the lines stay as they
/// were, a `commands: []` line written `commands:`, and the new item goes in
/// at one place between them; a file with no `commands:` list gets one at its
/// end.
pub proof fn lemma_appended_keeps_lines(ls: Seq<Seq<char>>, body: Seq<char>)
    ensures
        trim(joined(ls)).len() == 0 ==> appended_text(joined(ls), body) == Ok::<Seq<char>, Seq<char>>(
            fresh_header() + item_text(body, default_indent()),
        ),
        forall|k: int|
            0 <= k < ls.len() ==> commands_opened(ls).len() == ls.len() && (#[trigger] commands_opened(ls)[k]
                == ls[k] || commands_opened(ls)[k] == COMMANDS@),
        (forall|k: int| 0 <= k < ls.len() ==> clean_line(#[trigger] ls[k])) && trim(joined(ls)).len() > 0
            ==> match appended_text(joined(ls), body) {
            Ok(t) => if key_line(ls, COMMANDS@) is None {
                starts_with(t, joined(ls.push(COMMANDS@)))
            } else {
                exists|at: int| 0 <= at <= ls.len() && #[trigger] kept_around(t, commands_opened(ls), at)
            },
            Err(_) => true,
        },
{
    if let Some(at) = key_line(ls, COMMANDS@) {
        lemma_key_from(ls, COMMANDS@, 0);
    }
    if (forall|k: int| 0 <= k < ls.len() ==> clean_line(#[trigger] ls[k])) && trim(joined(ls)).len() > 0 {
        lemma_lines_joined(ls);
        match appended_text(joined(ls), body) {
            Ok(t) => {
                match opened(ls, COMMANDS@) {
                    Ok(None) => {
                        let a = joined(ls.push(COMMANDS@));
                        assert(t == a + item_text(body, default_indent()));
                        assert(t.take(a.len() as int) =~= a);
                    },
                    Ok(Some((ls2, key))) => {
                        lemma_key_from(ls, COMMANDS@, 0);
                        lemma_section_end(ls2, key + 1);
                        let end = section_end_from(ls2, key + 1);
                        let indent = or_default_indent(item_indent(ls2.subrange(key + 1, end)));
                        let at = insert_point(ls2, key + 1, end);
                        lemma_insert_point(ls2, key + 1, end);
                        let item = lines(item_text(body, indent));
                        lemma_joined_add(ls2.take(at) + item, ls2.skip(at));
                        lemma_joined_add(ls2.take(at), item);
                        let a = joined(ls2.take(at));
                        let b = joined(ls2.skip(at));
                        assert(t == a + joined(item) + b);
                        assert(t.take(a.len() as int) =~= a);
                        assert(t.skip(t.len() - b.len()) =~= b);
                        assert(commands_opened(ls) == ls2);
                        assert(kept_around(t, commands_opened(ls), at));
                    },
                    Err(_) => {},
                }
            },
            Err(_) => {},
        }
    }
}

fn key_index(ls: &Vec<Vec<char>>, key: &[char]) -> (r: Option<usize>)
    ensures
        match r {
            Some(k) => key_line(views(ls@), key@) == Some(k as int) && k < ls@.len(),
            None => key_line(views(ls@), key@) is None,
        },
{
    let ghost v = views(ls@);
    let mut i: usize = 0;
    while i < ls.len()
        invariant
            i <= ls@.len(),
            v == views(ls@),
            key_from(v, key@, i as int) == key_line(v, key@),
        decreases ls@.len() - i,
    {
        if begins_with(&ls[i], key) {
            return Some(i);
        }
        i += 1;
    }
    None
}

/// A copy of `ls` with line `at` replaced.
fn replace_line(ls: &Vec<Vec<char>>, at: usize, line: &[char]) -> (r: Vec<Vec<char>>)
    requires
        at < ls@.len(),
    ensures
        views(r@) == views(ls@).update(at as int, line@),
{
    let ghost target = views(ls@).update(at as int, line@);
    let mut out: Vec<Vec<char>> = Vec::new();
    let mut i: usize = 0;
    while i < ls.len()
        invariant
            i <= ls@.len(),
            at < ls@.len(),
            target == views(ls@).update(at as int, line@),
            views(out@) == target.take(i as int),
        decreases ls@.len() - i,
    {
        let l = if i == at {
            copy(line)
        } else {
            copy(&ls[i])
        };
        assert(l@ == target[i as int]);
        let ghost before = out@;
        proof {
            lemma_views_push(before, l);
        }
        let ghost lv = l@;
        out.push(l);
        assert(target.take(i + 1) =~= target.take(i as int).push(target[i as int]));
        i += 1;
    }
    assert(target.take(i as int) =~= target);
    out
}

/// Where the list under `key` starts, turning `key: []` into an open list
/// first so that items can go under it.
fn open_list(ls: Vec<Vec<char>>, key: &str) -> (r: Result<(Vec<Vec<char>>, Option<usize>), EditError>)
    ensures
        match r {
            Ok((out, None)) => opened(views(ls@), key@) == Ok::<
                Option<(Seq<Seq<char>>, int)>,
                Seq<char>,
            >(None) && views(out@) == views(ls@),
            Ok((out, Some(k))) => opened(views(ls@), key@) == Ok::<
                Option<(Seq<Seq<char>>, int)>,
                Seq<char>,
            >(Some((views(out@), k as int))) && k < out@.len(),
            Err(EditError::OneLine(l)) => opened(views(ls@), key@) == Err::<
                Option<(Seq<Seq<char>>, int)>,
                Seq<char>,
            >(l@),
        },
{
    let k = chars_of(key);
    let at = match key_index(&ls, &k) {
        None => return Ok((ls, None)),
        Some(at) => at,
    };
    let ghost v = views(ls@);
    assert(v[at as int] == ls@[at as int]@);
    proof {
        lemma_key_from(v, key@, 0);
    }
    let after = slice(&ls[at], k.len(), ls[at].len());
    assert(after@ =~= v[at as int].skip(key@.len() as int));
    let rest0 = trimmed(&after);
    let rest = if rest0.len() > 0 && rest0[0] == '#' {
        assert(starts_with(rest0@, seq!['#'])) by {
            assert(rest0@.take(1) =~= seq!['#']);
        }
        Vec::new()
    } else {
        assert(!starts_with(rest0@, seq!['#'])) by {
            if rest0@.len() > 0 {
                assert(rest0@.take(1)[0] == rest0@[0]);
            }
        }
        rest0
    };
    if rest.len() == 0 {
        return Ok((ls, Some(at)));
    }
    if rest.len() == 2 && rest[0] == '[' && rest[1] == ']' {
        assert(rest@ =~= seq!['[', ']']);
        let out = replace_line(&ls, at, &k);
        assert(views(out@) == v.update(at as int, key@));
        assert(opened(v, key@) == Ok::<Option<(Seq<Seq<char>>, int)>, Seq<char>>(
            Some((v.update(at as int, key@), at as int)),
        ));
        return Ok((out, Some(at)));
    }
    assert(rest@ != seq!['[', ']']);
    Err(EditError::OneLine(string_of(&trimmed(&ls[at]))))
}

fn section_end(ls: &Vec<Vec<char>>, from: usize) -> (r: usize)
    requires
        from <= ls@.len(),
    ensures
        r == section_end_from(views(ls@), from as int),
        from <= r <= ls@.len(),
{
    let ghost v = views(ls@);
    let mut i = from;
    while i < ls.len() && !top_level(&ls[i])
        invariant
            from <= i <= ls@.len(),
            v == views(ls@),
            section_end_from(v, i as int) == section_end_from(v, from as int),
        decreases ls@.len() - i,
    {
        i += 1;
    }
    i
}

fn top_level(line: &[char]) -> (r: bool)
    ensures
        r == starts_top_level(line@),
{
    line.len() > 0 && ws_from(line, 0) == 0 && line[0] != '-' && line[0] != '#'
}

fn item_line(line: &[char]) -> (r: bool)
    ensures
        r == is_item(line@),
{
    let t = trimmed_start(line);
    let r = t.len() >= 2 && t[0] == '-' && t[1] == ' ';
    assert(r == starts_with(t@, seq!['-', ' '])) by {
        if t@.len() >= 2 {
            assert(t@.take(2)[0] == t@[0]);
            assert(t@.take(2)[1] == t@[1]);
            if t@[0] == '-' && t@[1] == ' ' {
                assert(t@.take(2) =~= seq!['-', ' ']);
            }
        }
    }
    r
}

/// How far the items between `lo` and `hi` are indented, from the first one.
fn list_indent(ls: &Vec<Vec<char>>, lo: usize, hi: usize) -> (r: Option<Vec<char>>)
    requires
        lo <= hi <= ls@.len(),
    ensures
        match r {
            Some(i) => item_indent(views(ls@).subrange(lo as int, hi as int)) == Some(i@),
            None => item_indent(views(ls@).subrange(lo as int, hi as int)) is None,
        },
{
    let ghost v = views(ls@);
    let mut i = lo;
    while i < hi
        invariant
            lo <= i <= hi <= ls@.len(),
            v == views(ls@),
            item_indent(v.subrange(i as int, hi as int)) == item_indent(
                v.subrange(lo as int, hi as int),
            ),
        decreases hi - i,
    {
        assert(v.subrange(i as int, hi as int)[0] == ls@[i as int]@);
        assert(v.subrange(i as int, hi as int).drop_first() =~= v.subrange(i + 1, hi as int));
        if item_line(&ls[i]) {
            let w = ws_from(&ls[i], 0);
            proof {
                lemma_skip_ws(ls@[i as int]@, 0);
            }
            let r = slice(&ls[i], 0, w);
            assert(r@ =~= ls@[i as int]@.take(w as int));
            return Some(r);
        }
        i += 1;
    }
    None
}

/// Where a new item goes, moving back from `end` over blank lines and margin
/// comments but never before `lo`.
fn insert_at(ls: &Vec<Vec<char>>, lo: usize, end: usize) -> (r: usize)
    requires
        lo <= end <= ls@.len(),
    ensures
        r == insert_point(views(ls@), lo as int, end as int),
        lo <= r <= end,
{
    let ghost v = views(ls@);
    let mut at = end;
    while at > lo && next_section_line(&ls[at - 1])
        invariant
            lo <= at <= end <= ls@.len(),
            v == views(ls@),
            insert_point(v, lo as int, at as int) == insert_point(v, lo as int, end as int),
        decreases at,
    {
        at -= 1;
    }
    at
}

fn next_section_line(line: &[char]) -> (r: bool)
    ensures
        r == belongs_to_next(line@),
{
    let t = trimmed(line);
    let r = t.len() == 0 || (line.len() > 0 && line[0] == '#');
    assert(r == belongs_to_next(line@)) by {
        if line@.len() > 0 {
            assert(line@.take(1)[0] == line@[0]);
            if line@[0] == '#' {
                assert(line@.take(1) =~= seq!['#']);
            }
        }
    }
    r
}

/// The lines of one list item built from the entry's own lines.
fn list_item(body: &str, indent: &[char]) -> (r: Vec<char>)
    ensures
        r@ == item_text(body@, indent@),
{
    let bl = split_lines(&chars_of(body));
    let ghost b = views(bl@);
    let mut out: Vec<Vec<char>> = Vec::new();
    let mut k: usize = 0;
    while k < bl.len()
        invariant
            k <= bl@.len(),
            b == views(bl@),
            b == lines(body@),
            views(out@) == item_lines(b, indent@).take(k as int),
        decreases bl@.len() - k,
    {
        let mut line = copy(indent);
        if k == 0 {
            line.push('-');
            line.push(' ');
        } else {
            line.push(' ');
            line.push(' ');
        }
        extend(&mut line, &bl[k]);
        assert(line@ == item_lines(b, indent@)[k as int]);
        let ghost before = out@;
        proof {
            lemma_views_push(before, line);
        }
        let ghost lv = line@;
        out.push(line);
        assert(item_lines(b, indent@).take(k + 1) =~= item_lines(b, indent@).take(k as int).push(
            lv,
        ));
        k += 1;
    }
    assert(item_lines(b, indent@).take(k as int) =~= item_lines(b, indent@));
    join_lines(&out)
}

/// The lines `ls` with `more` spliced in at `at`.
fn splice_in(ls: &Vec<Vec<char>>, at: usize, more: &Vec<Vec<char>>) -> (r: Vec<Vec<char>>)
    requires
        at <= ls@.len(),
    ensures
        views(r@) == views(ls@).take(at as int) + views(more@) + views(ls@).skip(at as int),
{
    let ghost v = views(ls@);
    let ghost m = views(more@);
    let mut out: Vec<Vec<char>> = Vec::new();
    let mut i: usize = 0;
    while i < at
        invariant
            i <= at <= ls@.len(),
            v == views(ls@),
            views(out@) == v.take(i as int),
        decreases at - i,
    {
        let l = copy(&ls[i]);
        let ghost before = out@;
        proof {
            lemma_views_push(before, l);
            lemma_views_take(ls@, i as int);
        }
        let ghost lv = l@;
        out.push(l);
        i += 1;
    }
    let mut j: usize = 0;
    while j < more.len()
        invariant
            j <= more@.len(),
            at <= ls@.len(),
            v == views(ls@),
            m == views(more@),
            views(out@) == v.take(at as int) + m.take(j as int),
        decreases more@.len() - j,
    {
        let l = copy(&more[j]);
        let ghost before = out@;
        proof {
            lemma_views_push(before, l);
            lemma_views_take(more@, j as int);
        }
        let ghost lv = l@;
        out.push(l);
        assert(v.take(at as int) + m.take(j + 1) =~= (v.take(at as int) + m.take(j as int)).push(
            lv,
        ));
        j += 1;
    }
    assert(m.take(j as int) =~= m);
    let mut i = at;
    while i < ls.len()
        invariant
            at <= i <= ls@.len(),
            v == views(ls@),
            m == views(more@),
            views(out@) == v.take(at as int) + m + v.subrange(at as int, i as int),
        decreases ls@.len() - i,
    {
        let l = copy(&ls[i]);
        let ghost before = out@;
        proof {
            lemma_views_push(before, l);
        }
        let ghost lv = l@;
        out.push(l);
        assert(v[i as int] == lv);
        assert(v.take(at as int) + m + v.subrange(at as int, i + 1) =~= (v.take(at as int) + m
            + v.subrange(at as int, i as int)).push(lv));
        i += 1;
    }
    assert(v.subrange(at as int, i as int) =~= v.skip(at as int));
    out
}

fn blank(text: &[char]) -> (r: bool)
    ensures
        r == (trim(text@).len() == 0),
{
    trimmed(text).len() == 0
}

/// `text` with `body`, the entry as the YAML serialiser writes it, added as
/// the last item of its `commands` list.
///
/// The last item of the list, not the last line of the file. A library whose
/// `disabled` list comes after its commands, which is what hiding a builtin
/// produces, would otherwise take the new entry into the disabled list and
/// stop parsing. The entry is added as text rather than by re-serialising the
/// whole document, because users are told to hand edit and version this file.
pub fn appended(text: &str, body: &str) -> (r: Result<String, EditError>)
    ensures
        match r {
            Ok(s) => appended_text(text@, body@) == Ok::<Seq<char>, Seq<char>>(s@),
            Err(EditError::OneLine(l)) => appended_text(text@, body@) == Err::<
                Seq<char>,
                Seq<char>,
            >(l@),
        },
{
    let t = chars_of(text);
    if blank(&t) {
        let mut out = chars_of("version: 1");
        out.push('\n');
        extend(&mut out, &chars_of(COMMANDS));
        out.push('\n');
        extend(&mut out, &list_item(body, &chars_of(DEFAULT_INDENT)));
        proof {
            reveal_strlit("  ");
        }
        assert(DEFAULT_INDENT@ =~= default_indent());
        assert(out@ =~= "version: 1"@ + seq!['\n'] + COMMANDS@ + seq!['\n'] + item_text(body@, default_indent()));
        assert(out@ =~= fresh_header() + item_text(body@, default_indent()));
        return Ok(string_of(&out));
    }
    let ls = split_lines(&t);
    let ghost v = views(ls@);
    let (ls2, key) = match open_list(ls, COMMANDS) {
        Err(e) => return Err(e),
        Ok(pair) => pair,
    };
    let key = match key {
        None => {
            let mut ls3 = ls2;
            let ghost before = ls3@;
            ls3.push(chars_of(COMMANDS));
            assert(views(ls3@) =~= views(before).push(COMMANDS@));
            let mut out = join_lines(&ls3);
            proof {
                reveal_strlit("  ");
            }
            assert(DEFAULT_INDENT@ =~= default_indent());
            extend(&mut out, &list_item(body, &chars_of(DEFAULT_INDENT)));
            assert(v == lines(text@));
            assert(opened(v, COMMANDS@) == Ok::<Option<(Seq<Seq<char>>, int)>, Seq<char>>(None));
            assert(out@ == joined(v.push(COMMANDS@)) + item_text(body@, default_indent()));
            return Ok(string_of(&out));
        },
        Some(key) => key,
    };
    let n = ls2.len();
    assert(key < n);
    let end = section_end(&ls2, key + 1);
    let indent = match list_indent(&ls2, key + 1, end) {
        Some(i) => i,
        None => {
            proof {
                reveal_strlit("  ");
            }
            chars_of(DEFAULT_INDENT)
        },
    };
    let at = insert_at(&ls2, key + 1, end);
    let item = split_lines(&list_item(body, &indent));
    let all = splice_in(&ls2, at, &item);
    assert(v == lines(text@));
    assert(opened(v, COMMANDS@) == Ok::<Option<(Seq<Seq<char>>, int)>, Seq<char>>(
        Some((views(ls2@), key as int)),
    ));
    assert(indent@ == or_default_indent(
        item_indent(views(ls2@).subrange(key + 1, end as int)),
    ));
    Ok(string_of(&join_lines(&all)))
}


// ---------------------------------------------------------------------------
// Finding, replacing and removing one entry
// ---------------------------------------------------------------------------

/// `s` without each leading `- `, as `str::trim_start_matches("- ")`.
pub open spec fn strip_dashes(s: Seq<char>) -> Seq<char>
    decreases s.len(),
{
    if s.len() >= 2 && s[0] == '-' && s[1] == ' ' {
        strip_dashes(s.skip(2))
    } else {
        s
    }
}

/// A value without the pair of quotes around it, if it has one.
pub open spec fn unquote(v: Seq<char>) -> Seq<char> {
    if v.len() >= 2 && v[0] == '"' && v[v.len() - 1] == '"' {
        v.subrange(1, v.len() - 1)
    } else if v.len() >= 2 && v[0] == '\'' && v[v.len() - 1] == '\'' {
        v.subrange(1, v.len() - 1)
    } else {
        v
    }
}

/// Whether `line` is the `id:` field of an entry, naming `id`.
pub open spec fn declares_line(line: Seq<char>, id: Seq<char>) -> bool {
    let u = strip_dashes(trim_start(line));
    starts_with(u, seq!['i', 'd', ':']) && unquote(trim(u.skip(3))) == id
}

/// Whether one of the lines of `block` declares `id`.
pub open spec fn declares(block: Seq<Seq<char>>, id: Seq<char>) -> bool {
    exists|k: int| 0 <= k < block.len() && declares_line(#[trigger] block[k], id)
}

/// The first line at or after `k` that is not blank and sits no deeper than
/// `indent`: where a list item indented by `indent` stops.
pub open spec fn item_end_from(ls: Seq<Seq<char>>, indent: int, k: int) -> int
    decreases ls.len() - k,
{
    if 0 <= k < ls.len() && (trim(ls[k]).len() == 0 || indent_of(ls[k]) > indent) {
        item_end_from(ls, indent, k + 1)
    } else {
        k
    }
}

pub proof fn lemma_item_end(ls: Seq<Seq<char>>, indent: int, k: int)
    requires
        0 <= k <= ls.len(),
    ensures
        k <= item_end_from(ls, indent, k) <= ls.len(),
    decreases ls.len() - k,
{
    if k < ls.len() && (trim(ls[k]).len() == 0 || indent_of(ls[k]) > indent) {
        lemma_item_end(ls, indent, k + 1);
    }
}

/// The first list item at or after line `n` that declares `id`, as the range
/// of lines it takes.
pub open spec fn item_from(ls: Seq<Seq<char>>, id: Seq<char>, n: int) -> Option<(int, int)>
    decreases ls.len() - n,
{
    if 0 <= n < ls.len() {
        if is_item(ls[n]) && declares(
            ls.subrange(n, item_end_from(ls, indent_of(ls[n]), n + 1)),
            id,
        ) {
            Some((n, item_end_from(ls, indent_of(ls[n]), n + 1)))
        } else {
            item_from(ls, id, n + 1)
        }
    } else {
        None
    }
}

pub proof fn lemma_item_from(ls: Seq<Seq<char>>, id: Seq<char>, n: int)
    requires
        0 <= n,
    ensures
        item_from(ls, id, n) matches Some((s, e)) ==> n <= s < e <= ls.len(),
    decreases ls.len() - n,
{
    if 0 <= n < ls.len() {
        lemma_item_end(ls, indent_of(ls[n]), n + 1);
        lemma_item_from(ls, id, n + 1);
    }
}

/// Whether line `n` of `ls` opens a list item that declares `id`.
pub open spec fn item_declares(ls: Seq<Seq<char>>, n: int, id: Seq<char>) -> bool {
    is_item(ls[n]) && declares(ls.subrange(n, item_end_from(ls, indent_of(ls[n]), n + 1)), id)
}

proof fn lemma_item_from_first(ls: Seq<Seq<char>>, id: Seq<char>, n: int)
    requires
        0 <= n,
    ensures
        match item_from(ls, id, n) {
            Some((s, e)) => n <= s < e <= ls.len() && item_declares(ls, s, id) && e == item_end_from(
                ls,
                indent_of(ls[s]),
                s + 1,
            ) && forall|m: int| n <= m < s ==> !#[trigger] item_declares(ls, m, id),
            None => forall|m: int| n <= m < ls.len() ==> !#[trigger] item_declares(ls, m, id),
        },
    decreases ls.len() - n,
{
    if 0 <= n < ls.len() {
        lemma_item_end(ls, indent_of(ls[n]), n + 1);
        lemma_item_from_first(ls, id, n + 1);
    }
}

/// Removing or replacing an entry touches only the lines of the first list
/// item that declares it: removing drops exactly those lines and keeps every
/// other line in order, and replacing puts the new item where they were.
/// When no item declares the id, nothing is removed and an upsert appends.
pub proof fn lemma_item_edits(ls: Seq<Seq<char>>, id: Seq<char>, body: Seq<char>)
    requires
        forall|k: int| 0 <= k < ls.len() ==> clean_line(#[trigger] ls[k]),
    ensures
        removed_text(joined(ls), id) is None <==> forall|m: int|
            0 <= m < ls.len() ==> !#[trigger] item_declares(ls, m, id),
        removed_text(joined(ls), id) is None ==> upserted_text(joined(ls), id, body) == match appended_text(
            joined(ls),
            body,
        ) {
            Ok(t) => Ok::<(Seq<char>, Written), Seq<char>>((t, Written::Appended)),
            Err(l) => Err(l),
        },
        removed_text(joined(ls), id) matches Some(t) ==> exists|s: int|
            {
                let e = item_end_from(ls, indent_of(ls[s]), s + 1);
                &&& 0 <= s < e <= ls.len()
                &&& #[trigger] item_declares(ls, s, id)
                &&& (forall|m: int| 0 <= m < s ==> !#[trigger] item_declares(ls, m, id))
                &&& lines(t) == ls.take(s) + ls.skip(e)
                &&& upserted_text(joined(ls), id, body) == Ok::<(Seq<char>, Written), Seq<char>>(
                    (
                        joined(ls.take(s)) + item_text(body, ls[s].take(indent_of(ls[s])))
                            + joined(ls.skip(e)),
                        Written::Replaced,
                    ),
                )
            },
{
    lemma_lines_joined(ls);
    lemma_item_from_first(ls, id, 0);
    if let Some((s, e)) = item_from(ls, id, 0) {
        let kept = ls.take(s) + ls.skip(e);
        lemma_joined_add(ls.take(s), ls.skip(e));
        assert forall|k: int| 0 <= k < kept.len() implies clean_line(#[trigger] kept[k]) by {
            if k < s {
                assert(kept[k] == ls[k]);
            } else {
                assert(kept[k] == ls[k - s + e]);
            }
        }
        lemma_lines_joined(kept);
        let t = removed_text(joined(ls), id)->0;
        assert(t == joined(ls.take(s)) + Seq::<char>::empty() + joined(ls.skip(e)));
        assert(joined(ls.take(s)) + Seq::<char>::empty() =~= joined(ls.take(s)));
        assert(lines(t) == kept);
        assert(item_declares(ls, s, id));
    }
}

/// The lines taken by the list item that declares `id`.
pub open spec fn item_of(text: Seq<char>, id: Seq<char>) -> Option<(int, int)> {
    item_from(lines(text), id, 0)
}

/// The lines of `ls` with those from `s` up to `e` swapped for `rep`.
pub open spec fn spliced(ls: Seq<Seq<char>>, s: int, e: int, rep: Seq<char>) -> Seq<char> {
    joined(ls.take(s)) + rep + joined(ls.skip(e))
}

/// `text` without the entry declared as `id`, or nothing if there is none.
pub open spec fn removed_text(text: Seq<char>, id: Seq<char>) -> Option<Seq<char>> {
    match item_of(text, id) {
        Some((s, e)) => Some(spliced(lines(text), s, e, seq![])),
        None => None,
    }
}

/// `text` with `body` in place of the entry declared as `id`, indented as
/// that entry was, or added to the end of the list when there is none.
pub open spec fn upserted_text(text: Seq<char>, id: Seq<char>, body: Seq<char>) -> Result<
    (Seq<char>, Written),
    Seq<char>,
> {
    match item_of(text, id) {
        Some((s, e)) => {
            let first = lines(text)[s];
            Ok(
                (
                    spliced(lines(text), s, e, item_text(body, first.take(indent_of(first)))),
                    Written::Replaced,
                ),
            )
        },
        None => match appended_text(text, body) {
            Ok(t) => Ok((t, Written::Appended)),
            Err(l) => Err(l),
        },
    }
}

fn dashes_stripped(s: &[char]) -> (r: Vec<char>)
    ensures
        r@ == strip_dashes(s@),
{
    let mut i: usize = 0;
    assert(s@.skip(0) =~= s@);
    while s.len() - i >= 2 && s[i] == '-' && s[i + 1] == ' '
        invariant
            i <= s@.len(),
            strip_dashes(s@.skip(i as int)) == strip_dashes(s@),
        decreases s@.len() - i,
    {
        assert(s@.skip(i as int)[0] == s@[i as int]);
        assert(s@.skip(i as int)[1] == s@[i + 1]);
        assert(s@.skip(i as int).skip(2) =~= s@.skip(i + 2));
        i += 2;
    }
    assert(s@.len() - i >= 2 ==> s@.skip(i as int)[0] == s@[i as int] && s@.skip(i as int)[1]
        == s@[i + 1]);
    let r = slice(s, i, s.len());
    assert(r@ =~= s@.skip(i as int));
    r
}

fn unquoted(v: &[char]) -> (r: Vec<char>)
    ensures
        r@ == unquote(v@),
{
    let n = v.len();
    if n >= 2 && ((v[0] == '"' && v[n - 1] == '"') || (v[0] == '\'' && v[n - 1] == '\'')) {
        slice(v, 1, n - 1)
    } else {
        copy(v)
    }
}

fn declares_id(line: &[char], id: &[char]) -> (r: bool)
    ensures
        r == declares_line(line@, id@),
{
    let u = dashes_stripped(&trimmed_start(line));
    if u.len() >= 3 && u[0] == 'i' && u[1] == 'd' && u[2] == ':' {
        assert(u@.take(3) =~= seq!['i', 'd', ':']);
        let rest = slice(&u, 3, u.len());
        assert(rest@ =~= u@.skip(3));
        same(&unquoted(&trimmed(&rest)), id)
    } else {
        assert(!starts_with(u@, seq!['i', 'd', ':'])) by {
            if u@.len() >= 3 {
                assert(u@.take(3)[0] == u@[0]);
                assert(u@.take(3)[1] == u@[1]);
                assert(u@.take(3)[2] == u@[2]);
            }
        }
        false
    }
}

/// Whether one of the lines from `lo` up to `hi` declares `id`.
fn block_declares(ls: &Vec<Vec<char>>, lo: usize, hi: usize, id: &[char]) -> (r: bool)
    requires
        lo <= hi <= ls@.len(),
    ensures
        r == declares(views(ls@).subrange(lo as int, hi as int), id@),
{
    let ghost b = views(ls@).subrange(lo as int, hi as int);
    let mut i = lo;
    while i < hi
        invariant
            lo <= i <= hi <= ls@.len(),
            b == views(ls@).subrange(lo as int, hi as int),
            forall|k: int| 0 <= k < i - lo ==> !declares_line(#[trigger] b[k], id@),
        decreases hi - i,
    {
        assert(b[i - lo] == ls@[i as int]@);
        if declares_id(&ls[i], id) {
            return true;
        }
        i += 1;
    }
    false
}

fn item_end(ls: &Vec<Vec<char>>, indent: usize, from: usize) -> (r: usize)
    requires
        from <= ls@.len(),
    ensures
        r == item_end_from(views(ls@), indent as int, from as int),
        from <= r <= ls@.len(),
{
    let ghost v = views(ls@);
    let mut k = from;
    while k < ls.len() && (blank(&ls[k]) || ws_from(&ls[k], 0) > indent)
        invariant
            from <= k <= ls@.len(),
            v == views(ls@),
            item_end_from(v, indent as int, k as int) == item_end_from(
                v,
                indent as int,
                from as int,
            ),
        decreases ls@.len() - k,
    {
        k += 1;
    }
    k
}

/// The lines taken by the list item among `ls` that declares `id`.
fn find_item(ls: &Vec<Vec<char>>, id: &[char]) -> (r: Option<(usize, usize)>)
    ensures
        match r {
            Some((s, e)) => item_from(views(ls@), id@, 0) == Some((s as int, e as int)) && s < e
                <= ls@.len(),
            None => item_from(views(ls@), id@, 0) is None,
        },
{
    let ghost v = views(ls@);
    let mut n: usize = 0;
    while n < ls.len()
        invariant
            n <= ls@.len(),
            v == views(ls@),
            item_from(v, id@, n as int) == item_from(v, id@, 0),
        decreases ls@.len() - n,
    {
        if item_line(&ls[n]) {
            let indent = ws_from(&ls[n], 0);
            let e = item_end(ls, indent, n + 1);
            if block_declares(ls, n, e, id) {
                return Some((n, e));
            }
        }
        n += 1;
    }
    None
}

/// The lines from `a` up to `b`.
fn sub_lines(ls: &Vec<Vec<char>>, a: usize, b: usize) -> (r: Vec<Vec<char>>)
    requires
        a <= b <= ls@.len(),
    ensures
        views(r@) == views(ls@).subrange(a as int, b as int),
{
    let ghost v = views(ls@);
    let mut out: Vec<Vec<char>> = Vec::new();
    let mut i = a;
    while i < b
        invariant
            a <= i <= b <= ls@.len(),
            v == views(ls@),
            views(out@) == v.subrange(a as int, i as int),
        decreases b - i,
    {
        let l = copy(&ls[i]);
        let ghost before = out@;
        proof {
            lemma_views_push(before, l);
        }
        let ghost lv = l@;
        out.push(l);
        assert(v.subrange(a as int, i + 1) =~= v.subrange(a as int, i as int).push(lv));
        i += 1;
    }
    out
}

fn splice_text(ls: &Vec<Vec<char>>, s: usize, e: usize, rep: &[char]) -> (r: Vec<char>)
    requires
        s <= e <= ls@.len(),
    ensures
        r@ == spliced(views(ls@), s as int, e as int, rep@),
{
    let mut out = join_lines(&sub_lines(ls, 0, s));
    extend(&mut out, rep);
    extend(&mut out, &join_lines(&sub_lines(ls, e, ls.len())));
    assert(views(ls@).subrange(0, s as int) =~= views(ls@).take(s as int));
    assert(views(ls@).subrange(e as int, ls@.len() as int) =~= views(ls@).skip(e as int));
    out
}

/// `text` without the entry declared as `id`, or `None` if there is none.
///
/// Only the lines of that one list item are removed. Reserialising the
/// document would be simpler, but users are told to hand edit and version
/// this file, and a round trip through a parser deletes their comments.
pub fn removed(text: &str, id: &str) -> (r: Option<String>)
    ensures
        match r {
            Some(t) => removed_text(text@, id@) == Some(t@),
            None => removed_text(text@, id@) is None,
        },
{
    let ls = split_lines(&chars_of(text));
    match find_item(&ls, &chars_of(id)) {
        Some((s, e)) => Some(string_of(&splice_text(&ls, s, e, &Vec::new()))),
        None => None,
    }
}

/// `text` with `body`, the entry as the YAML serialiser writes it, in place
/// of the one declared as `id`, or added to the end of the list when there is
/// none.
///
/// Nothing outside the one list item is touched, so the comments a user wrote
/// around their entries survive. A comment sitting inside the entry being
/// rewritten does not, which is the price of not reserialising the document.
pub fn upserted(text: &str, id: &str, body: &str) -> (r: Result<(String, Written), EditError>)
    ensures
        match r {
            Ok((t, w)) => upserted_text(text@, id@, body@) == Ok::<
                (Seq<char>, Written),
                Seq<char>,
            >((t@, w)),
            Err(EditError::OneLine(l)) => upserted_text(text@, id@, body@) == Err::<
                (Seq<char>, Written),
                Seq<char>,
            >(l@),
        },
{
    let ls = split_lines(&chars_of(text));
    match find_item(&ls, &chars_of(id)) {
        Some((s, e)) => {
            let w = ws_from(&ls[s], 0);
            proof {
                lemma_skip_ws(ls@[s as int]@, 0);
            }
            let indent = slice(&ls[s], 0, w);
            assert(indent@ =~= views(ls@)[s as int].take(indent_of(views(ls@)[s as int])));
            let item = list_item(body, &indent);
            Ok((string_of(&splice_text(&ls, s, e, &item)), Written::Replaced))
        },
        None => match appended(text, body) {
            Ok(t) => Ok((t, Written::Appended)),
            Err(l) => Err(l),
        },
    }
}


// ---------------------------------------------------------------------------
// Hiding and unhiding entries by pattern
// ---------------------------------------------------------------------------

/// One line listing `p` under a key, indented by `indent`.
pub open spec fn listing(indent: Seq<char>, p: Seq<char>) -> Seq<char> {
    indent + seq!['-', ' '] + p
}

/// `text` with `pattern` added to its `disabled` list, or the line that stops
/// it being added.
pub open spec fn disabled_text(text: Seq<char>, pattern: Seq<char>) -> Result<Seq<char>, Seq<char>> {
    let ls = lines(text);
    match opened(ls, DISABLED@) {
        Err(l) => Err(l),
        Ok(Some((ls2, key))) => {
            let end = section_end_from(ls2, key + 1);
            let indent = or_default_indent(item_indent(ls2.subrange(key + 1, end)));
            Ok(
                joined(
                    ls2.take(key + 1) + seq![listing(indent, pattern)] + ls2.skip(key + 1),
                ),
            )
        },
        Ok(None) => {
            let head = if trim(text).len() == 0 {
                ls.push("version: 1"@)
            } else {
                ls
            };
            Ok(joined(head.push(DISABLED@).push(listing(default_indent(), pattern))))
        },
    }
}

/// Whether `line` is a list item holding `p`, quoted or not.
pub open spec fn drops_line(line: Seq<char>, p: Seq<char>) -> bool {
    let t = trim(line);
    starts_with(t, seq!['-', ' ']) && unquote(trim(t.skip(2))) == p
}

/// The lines of `s` that are not list items holding `p`.
pub open spec fn unlisted(s: Seq<Seq<char>>, p: Seq<char>) -> Seq<Seq<char>>
    decreases s.len(),
{
    if s.len() == 0 {
        seq![]
    } else if drops_line(s.last(), p) {
        unlisted(s.drop_last(), p)
    } else {
        unlisted(s.drop_last(), p).push(s.last())
    }
}

/// `text` with `pattern` taken off its `disabled` list, if it was on it.
pub open spec fn enabled_text(text: Seq<char>, pattern: Seq<char>) -> Seq<char> {
    let ls = lines(text);
    match key_line(ls, DISABLED@) {
        None => text,
        Some(key) => {
            let end = section_end_from(ls, key + 1);
            joined(ls.take(key + 1) + unlisted(ls.subrange(key + 1, end), pattern) + ls.skip(end))
        },
    }
}

/// Whether the `disabled` list of the lines `ls` holds `pattern`.
pub open spec fn hidden_in(ls: Seq<Seq<char>>, pattern: Seq<char>) -> bool {
    match key_line(ls, DISABLED@) {
        None => false,
        Some(key) => exists|k: int|
            key < k < section_end_from(ls, key + 1) && drops_line(#[trigger] ls[k], pattern),
    }
}

fn listing_line(indent: Vec<char>, pattern: &str) -> (r: Vec<char>)
    ensures
        r@ == listing(indent@, pattern@),
{
    let mut line = indent;
    line.push('-');
    line.push(' ');
    extend(&mut line, &chars_of(pattern));
    line
}

/// `text` with `pattern` added to its `disabled` list.
///
/// Hides an entry the user cannot delete, such as one compiled into the
/// binary, without touching anything else in the file.
pub fn with_disabled(text: &str, pattern: &str) -> (r: Result<String, EditError>)
    ensures
        match r {
            Ok(s) => disabled_text(text@, pattern@) == Ok::<Seq<char>, Seq<char>>(s@),
            Err(EditError::OneLine(l)) => disabled_text(text@, pattern@) == Err::<
                Seq<char>,
                Seq<char>,
            >(l@),
        },
{
    let t = chars_of(text);
    let ls = split_lines(&t);
    let ghost v = views(ls@);
    assert(v == lines(text@));
    let (ls2, key) = match open_list(ls, DISABLED) {
        Err(e) => return Err(e),
        Ok(pair) => pair,
    };
    proof {
        reveal_strlit("  ");
    }
    assert(DEFAULT_INDENT@ =~= default_indent());
    match key {
        Some(key) => {
            let n = ls2.len();
            assert(key < n);
            let end = section_end(&ls2, key + 1);
            let indent = match list_indent(&ls2, key + 1, end) {
                Some(i) => i,
                None => chars_of(DEFAULT_INDENT),
            };
            let line = listing_line(indent, pattern);
            let mut one: Vec<Vec<char>> = Vec::new();
            let ghost lv = line@;
            one.push(line);
            assert(views(one@) =~= seq![lv]);
            let all = splice_in(&ls2, key + 1, &one);
            Ok(string_of(&join_lines(&all)))
        },
        None => {
            let mut ls3 = ls2;
            let ghost start = views(ls3@);
            if blank(&t) {
                let ghost before = ls3@;
                ls3.push(chars_of("version: 1"));
                assert(views(ls3@) =~= views(before).push("version: 1"@));
            }
            let ghost head = views(ls3@);
            assert(head == if trim(text@).len() == 0 {
                v.push("version: 1"@)
            } else {
                v
            });
            let ghost before = ls3@;
            ls3.push(chars_of(DISABLED));
            assert(views(ls3@) =~= head.push(DISABLED@));
            let ghost before2 = ls3@;
            let line = listing_line(chars_of(DEFAULT_INDENT), pattern);
            let ghost lv = line@;
            ls3.push(line);
            assert(views(ls3@) =~= head.push(DISABLED@).push(lv));
            Ok(string_of(&join_lines(&ls3)))
        },
    }
}

fn drops(line: &[char], pattern: &[char]) -> (r: bool)
    ensures
        r == drops_line(line@, pattern@),
{
    let t = trimmed(line);
    if t.len() >= 2 && t[0] == '-' && t[1] == ' ' {
        assert(t@.take(2) =~= seq!['-', ' ']);
        let rest = slice(&t, 2, t.len());
        assert(rest@ =~= t@.skip(2));
        same(&unquoted(&trimmed(&rest)), pattern)
    } else {
        assert(!starts_with(t@, seq!['-', ' '])) by {
            if t@.len() >= 2 {
                assert(t@.take(2)[0] == t@[0]);
                assert(t@.take(2)[1] == t@[1]);
            }
        }
        false
    }
}

/// `text` with `pattern` taken off its `disabled` list, if it was on it.
pub fn with_enabled(text: &str, pattern: &str) -> (r: String)
    ensures
        r@ == enabled_text(text@, pattern@),
{
    let ls = split_lines(&chars_of(text));
    let ghost v = views(ls@);
    let key = match key_index(&ls, &chars_of(DISABLED)) {
        None => return crate::text::owned(text),
        Some(key) => key,
    };
    let n = ls.len();
    assert(key < n);
    let end = section_end(&ls, key + 1);
    let p = chars_of(pattern);
    let mut out = sub_lines(&ls, 0, key + 1);
    let ghost head = views(out@);
    let mut i = key + 1;
    while i < end
        invariant
            key < i <= end <= ls@.len(),
            v == views(ls@),
            head == v.take(key + 1),
            p@ == pattern@,
            views(out@) == head + unlisted(v.subrange(key + 1, i as int), pattern@),
        decreases end - i,
    {
        let ghost part = v.subrange(key + 1, i as int);
        assert(v.subrange(key + 1, i + 1).drop_last() =~= part);
        assert(v.subrange(key + 1, i + 1).last() == ls@[i as int]@);
        if !drops(&ls[i], &p) {
            let l = copy(&ls[i]);
            let ghost before = out@;
            proof {
                lemma_views_push(before, l);
            }
            out.push(l);
            assert(views(out@) =~= head + unlisted(v.subrange(key + 1, i + 1), pattern@));
        }
        i += 1;
    }
    let tail = sub_lines(&ls, end, ls.len());
    let ghost mid = views(out@);
    let mut all = out;
    let mut j: usize = 0;
    while j < tail.len()
        invariant
            j <= tail@.len(),
            views(all@) == mid + views(tail@).take(j as int),
        decreases tail@.len() - j,
    {
        let l = copy(&tail[j]);
        let ghost before = all@;
        proof {
            lemma_views_push(before, l);
            lemma_views_take(tail@, j as int);
        }
        all.push(l);
        assert(mid + views(tail@).take(j + 1) =~= (mid + views(tail@).take(j as int)).push(
            tail@[j as int]@,
        ));
        j += 1;
    }
    assert(views(tail@).take(j as int) =~= views(tail@));
    assert(v.subrange(end as int, ls@.len() as int) =~= v.skip(end as int));
    string_of(&join_lines(&all))
}


proof fn lemma_skip_ws_at(s: Seq<char>, i: int, j: int)
    requires
        0 <= i <= j <= s.len(),
        forall|k: int| i <= k < j ==> is_ws(#[trigger] s[k]),
        j < s.len() ==> !is_ws(s[j]),
    ensures
        skip_ws(s, i) == j,
    decreases j - i,
{
    if i < j {
        lemma_skip_ws_at(s, i + 1, j);
    }
}

/// A trimmed value that is not empty neither starts nor ends in white space.
proof fn lemma_trimmed_ends(p: Seq<char>)
    requires
        p.len() > 0,
        trim(p) == p,
    ensures
        !is_ws(p[0]),
        !is_ws(p[p.len() - 1]),
{
    lemma_skip_ws(p, 0);
    let t = trim_start(p);
    lemma_back_ws(t, t.len() as int);
    if is_ws(p[0]) {
        assert(trim(p).len() < p.len());
    }
    assert(skip_ws(p, 0) == 0);
    assert(t =~= p);
    if is_ws(p[p.len() - 1]) {
        assert(back_ws(t, t.len() as int) < t.len());
        assert(trim(p).len() < p.len());
    }
}

/// The indent taken from the first item among `s` is white space from a
/// line, so it holds no line feed.
proof fn lemma_item_indent(s: Seq<Seq<char>>)
    requires
        forall|k: int| 0 <= k < s.len() ==> clean_line(#[trigger] s[k]),
    ensures
        item_indent(s) matches Some(i) ==> (forall|j: int|
            0 <= j < i.len() ==> is_ws(#[trigger] i[j]) && i[j] != '\n'),
    decreases s.len(),
{
    if s.len() > 0 {
        if is_item(s[0]) {
            lemma_skip_ws(s[0], 0);
            let i = s[0].take(indent_of(s[0]));
            assert forall|j: int| 0 <= j < i.len() implies is_ws(#[trigger] i[j]) && i[j]
                != '\n' by {
                assert(i[j] == s[0][j]);
                assert(clean_line(s[0]));
                if s[0][j] == '\n' {
                    assert(s[0].contains('\n'));
                }
            }
        } else {
            assert forall|k: int| 0 <= k < s.drop_first().len() implies clean_line(
                #[trigger] s.drop_first()[k],
            ) by {
                assert(s.drop_first()[k] == s[k + 1]);
            }
            lemma_item_indent(s.drop_first());
        }
    }
}

/// What a listing line for a plain pattern looks like to the rest of the
/// file: a clean line, deeper than the margin or starting with `-`, that
/// lists the pattern.
proof fn lemma_listing(indent: Seq<char>, p: Seq<char>)
    requires
        forall|j: int| 0 <= j < indent.len() ==> is_ws(#[trigger] indent[j]) && indent[j] != '\n',
        p.len() > 0,
        trim(p) == p,
        unquote(p) == p,
        !p.contains('\n'),
    ensures
        clean_line(listing(indent, p)),
        !starts_top_level(listing(indent, p)),
        drops_line(listing(indent, p), p),
{
    let l = listing(indent, p);
    let n = indent.len() as int;
    lemma_trimmed_ends(p);
    assert(l[n] == '-');
    assert(l[l.len() - 1] == p[p.len() - 1]);
    assert(!l.contains('\n')) by {
        if l.contains('\n') {
            let k = choose|k: int| 0 <= k < l.len() && l[k] == '\n';
            if k < n {
                assert(l[k] == indent[k]);
            } else if k >= n + 2 {
                assert(l[k] == p[k - n - 2]);
                assert(p.contains('\n'));
            }
        }
    }
    assert forall|k: int| 0 <= k < n implies is_ws(#[trigger] l[k]) by {
        assert(l[k] == indent[k]);
    }
    lemma_skip_ws_at(l, 0, n);
    let t = trim_start(l);
    assert(t =~= seq!['-', ' '] + p);
    lemma_back_ws(t, t.len() as int);
    assert(t[t.len() - 1] == p[p.len() - 1]);
    assert(back_ws(t, t.len() as int) == t.len());
    assert(trim(l) =~= t);
    assert(t.take(2) =~= seq!['-', ' ']);
    assert(t.skip(2) =~= p);
    if n > 0 {
        assert(indent_of(l) == n);
    }
}

proof fn lemma_key_from_agrees(a: Seq<Seq<char>>, b: Seq<Seq<char>>, key: Seq<char>, i: int, j: int)
    requires
        0 <= i <= j,
        key_from(a, key, i) == Some(j),
        j < b.len(),
        forall|k: int| i <= k <= j ==> a[k] == b[k],
    ensures
        key_from(b, key, i) == Some(j),
    decreases j - i,
{
    lemma_key_from(a, key, i);
    if i < j {
        assert(!starts_with(a[i], key));
        lemma_key_from_agrees(a, b, key, i + 1, j);
    }
}

proof fn lemma_section_end_shift(a: Seq<Seq<char>>, b: Seq<Seq<char>>, m: int)
    requires
        0 <= m <= b.len(),
        a.len() == b.len() + 1,
        forall|k: int| m <= k < b.len() ==> a[k + 1] == b[k],
    ensures
        section_end_from(a, m + 1) == section_end_from(b, m) + 1,
    decreases b.len() - m,
{
    if m < b.len() {
        assert(a[m + 1] == b[m]);
        lemma_section_end_shift(a, b, m + 1);
    }
}

proof fn lemma_unlisted_add(a: Seq<Seq<char>>, b: Seq<Seq<char>>, p: Seq<char>)
    ensures
        unlisted(a + b, p) == unlisted(a, p) + unlisted(b, p),
    decreases b.len(),
{
    if b.len() == 0 {
        assert(a + b =~= a);
        assert(unlisted(a, p) + unlisted(b, p) =~= unlisted(a, p));
    } else {
        lemma_unlisted_add(a, b.drop_last(), p);
        assert((a + b).drop_last() =~= a + b.drop_last());
        assert((a + b).last() == b.last());
        if !drops_line(b.last(), p) {
            assert(unlisted(a, p) + unlisted(b, p) =~= (unlisted(a, p) + unlisted(
                b.drop_last(),
                p,
            )).push(b.last()));
        }
    }
}

proof fn lemma_unlisted_none(s: Seq<Seq<char>>, p: Seq<char>)
    requires
        forall|k: int| 0 <= k < s.len() ==> !drops_line(#[trigger] s[k], p),
    ensures
        unlisted(s, p) == s,
    decreases s.len(),
{
    if s.len() > 0 {
        assert(!drops_line(s[s.len() - 1], p));
        lemma_unlisted_none(s.drop_last(), p);
        assert(s.drop_last().push(s.last()) =~= s);
    }
}

/// Unhiding a pattern that a file's `disabled` list does not hold leaves the
/// file as it was.
pub proof fn lemma_unhide_unlisted(ls: Seq<Seq<char>>, pattern: Seq<char>)
    requires
        forall|k: int| 0 <= k < ls.len() ==> clean_line(#[trigger] ls[k]),
        !hidden_in(ls, pattern),
    ensures
        enabled_text(joined(ls), pattern) == joined(ls),
{
    lemma_lines_joined(ls);
    if let Some(key) = key_line(ls, DISABLED@) {
        lemma_key_from(ls, DISABLED@, 0);
        lemma_section_end(ls, key + 1);
        let end = section_end_from(ls, key + 1);
        let mid = ls.subrange(key + 1, end);
        assert forall|k: int| 0 <= k < mid.len() implies !drops_line(#[trigger] mid[k], pattern) by {
            assert(mid[k] == ls[key + 1 + k]);
        }
        lemma_unlisted_none(mid, pattern);
        assert(ls.take(key + 1) + mid + ls.skip(end) =~= ls);
    }
}

/// Hiding a pattern and then unhiding it leaves the file as it was.
///
/// This holds of a file that already has an open `disabled` list without the
/// pattern, and of a pattern written plainly on one line: not empty, without
/// white space at its ends and without quotes around it.
pub proof fn lemma_hide_then_unhide(ls: Seq<Seq<char>>, pattern: Seq<char>)
    requires
        forall|k: int| 0 <= k < ls.len() ==> clean_line(#[trigger] ls[k]),
        opened(ls, DISABLED@) matches Ok(Some((opened_lines, _))) && opened_lines == ls,
        !hidden_in(ls, pattern),
        pattern.len() > 0,
        trim(pattern) == pattern,
        unquote(pattern) == pattern,
        !pattern.contains('\n'),
    ensures
        disabled_text(joined(ls), pattern) matches Ok(hidden) && enabled_text(hidden, pattern)
            == joined(ls),
{
    lemma_lines_joined(ls);
    let key = key_line(ls, DISABLED@)->Some_0;
    lemma_key_from(ls, DISABLED@, 0);
    lemma_section_end(ls, key + 1);
    let end = section_end_from(ls, key + 1);
    let mid = ls.subrange(key + 1, end);
    assert forall|k: int| 0 <= k < mid.len() implies clean_line(#[trigger] mid[k]) by {
        assert(mid[k] == ls[key + 1 + k]);
    }
    lemma_item_indent(mid);
    let indent = or_default_indent(item_indent(mid));
    let line = listing(indent, pattern);
    lemma_listing(indent, pattern);
    let ls3 = ls.take(key + 1) + seq![line] + ls.skip(key + 1);
    assert(disabled_text(joined(ls), pattern) == Ok::<Seq<char>, Seq<char>>(joined(ls3)));
    assert forall|k: int| 0 <= k < ls3.len() implies clean_line(#[trigger] ls3[k]) by {
        if k < key + 1 {
            assert(ls3[k] == ls[k]);
        } else if k > key + 1 {
            assert(ls3[k] == ls[k - 1]);
        }
    }
    lemma_lines_joined(ls3);
    lemma_key_from_agrees(ls, ls3, DISABLED@, 0, key);
    assert(ls3[key + 1] == line);
    assert forall|k: int| key + 1 <= k < ls.len() implies ls3[k + 1] == ls[k] by {}
    lemma_section_end_shift(ls3, ls, key + 1);
    assert(section_end_from(ls3, key + 1) == section_end_from(ls3, key + 2));
    assert(section_end_from(ls3, key + 1) == end + 1);
    assert(ls3.take(key + 1) =~= ls.take(key + 1));
    assert(ls3.subrange(key + 1, end + 1) =~= seq![line] + mid);
    assert(ls3.skip(end + 1) =~= ls.skip(end));
    lemma_unlisted_add(seq![line], mid, pattern);
    assert(seq![line].drop_last() =~= Seq::<Seq<char>>::empty());
    assert(seq![line].last() == line);
    assert(drops_line(line, pattern));
    assert(unlisted(Seq::<Seq<char>>::empty(), pattern) =~= Seq::<Seq<char>>::empty());
    assert(unlisted(seq![line], pattern) =~= Seq::<Seq<char>>::empty());
    assert forall|k: int| 0 <= k < mid.len() implies !drops_line(#[trigger] mid[k], pattern) by {
        assert(mid[k] == ls[key + 1 + k]);
    }
    lemma_unlisted_none(mid, pattern);
    assert(ls.take(key + 1) + mid + ls.skip(end) =~= ls);
}


// ---------------------------------------------------------------------------
// Naming a new entry
// ---------------------------------------------------------------------------

/// A word that is not a flag.
pub open spec fn not_flag(w: Seq<char>) -> bool {
    !(w.len() > 0 && w[0] == '-')
}

/// The words of `ws` that are not flags.
pub open spec fn flags_dropped(ws: Seq<Seq<char>>) -> Seq<Seq<char>>
    decreases ws.len(),
{
    if ws.len() == 0 {
        seq![]
    } else if not_flag(ws.last()) {
        flags_dropped(ws.drop_last()).push(ws.last())
    } else {
        flags_dropped(ws.drop_last())
    }
}

/// The ASCII letters and digits of `w`, in lower case.
pub open spec fn alnum_lower(w: Seq<char>) -> Seq<char>
    decreases w.len(),
{
    if w.len() == 0 {
        seq![]
    } else if is_alnum(w.last()) {
        alnum_lower(w.drop_last()).push(lower(w.last()))
    } else {
        alnum_lower(w.drop_last())
    }
}

/// `ws` cleaned by `alnum_lower`, leaving out what comes out empty.
pub open spec fn slug_words(ws: Seq<Seq<char>>) -> Seq<Seq<char>>
    decreases ws.len(),
{
    if ws.len() == 0 {
        seq![]
    } else if alnum_lower(ws.last()).len() > 0 {
        slug_words(ws.drop_last()).push(alnum_lower(ws.last()))
    } else {
        slug_words(ws.drop_last())
    }
}

/// The first two words of `cmd` that are not flags, cleaned.
pub open spec fn slug(cmd: Seq<char>) -> Seq<Seq<char>> {
    let ws = flags_dropped(words(cmd));
    slug_words(
        if ws.len() > 2 {
            ws.take(2)
        } else {
            ws
        },
    )
}

/// The id a command suggests before collisions are considered.
pub open spec fn id_stem(cmd: Seq<char>) -> Seq<char> {
    if slug(cmd).len() == 0 {
        "user.command"@
    } else {
        "user."@ + joined_with(slug(cmd), '-')
    }
}

/// `stem` with a number after it, as in `user.docker-ps-2`.
pub open spec fn numbered(stem: Seq<char>, n: nat) -> Seq<char> {
    stem + seq!['-'] + decimal_of(n)
}

/// Whether `id` is the id `cmd` suggests when `taken` are in use: the stem
/// itself if it is free, else the first of `stem-2`, `stem-3` and so on that
/// is.
pub open spec fn suggests(cmd: Seq<char>, taken: Seq<Seq<char>>, id: Seq<char>) -> bool {
    let stem = id_stem(cmd);
    if !taken.contains(stem) {
        id == stem
    } else {
        exists|n: nat|
            n >= 2 && id == numbered(stem, n) && !taken.contains(id) && forall|k: nat|
                2 <= k < n ==> taken.contains(#[trigger] numbered(stem, k))
    }
}

proof fn lemma_numbered_injective(stem: Seq<char>, a: nat, b: nat)
    requires
        numbered(stem, a) == numbered(stem, b),
    ensures
        a == b,
{
    let pre = stem + seq!['-'];
    assert(numbered(stem, a).skip(pre.len() as int) =~= decimal_of(a));
    assert(numbered(stem, b).skip(pre.len() as int) =~= decimal_of(b));
    lemma_decimal_injective(a, b);
}

/// Every number from 2 up to `n` names a taken id, so there are at least
/// `n - 1` ids taken.
pub proof fn lemma_pigeonhole(stem: Seq<char>, taken: Seq<Seq<char>>, n: nat)
    requires
        n >= 2,
        forall|k: nat| 2 <= k <= n ==> taken.contains(#[trigger] numbered(stem, k)),
    ensures
        n - 1 <= taken.len(),
{
    let f = |k: int| numbered(stem, k as nat);
    let xs = vstd::set_lib::set_int_range(2, n as int + 1);
    vstd::set_lib::lemma_int_range(2, n as int + 1);
    assert(vstd::relations::injective_on(f, xs)) by {
        assert forall|a: int, b: int| xs.contains(a) && xs.contains(b) && #[trigger] f(a) == #[trigger] f(b)
            implies a == b by {
            lemma_numbered_injective(stem, a as nat, b as nat);
        }
    }
    let ys = xs.map(f);
    vstd::set_lib::lemma_map_size(xs, ys, f);
    assert(ys.subset_of(taken.to_set())) by {
        assert forall|y: Seq<char>| ys.contains(y) implies taken.to_set().contains(y) by {
            let a = choose|a: int| xs.contains(a) && f(a) == y;
            assert(taken.contains(numbered(stem, a as nat)));
        }
    }
    taken.lemma_cardinality_of_set();
    vstd::set_lib::lemma_len_subset(ys, taken.to_set());
}

/// The id suggested for a command is never one already in use, and it is the
/// command's stem or the stem numbered from 2 on.
pub proof fn lemma_suggestion_free(cmd: Seq<char>, taken: Seq<Seq<char>>, id: Seq<char>)
    requires
        suggests(cmd, taken, id),
    ensures
        !taken.contains(id),
        id == id_stem(cmd) || exists|n: nat| n >= 2 && id == #[trigger] numbered(id_stem(cmd), n),
{
}

/// The words of `ws` that are not flags.
fn without_flags(ws: &Vec<Vec<char>>) -> (r: Vec<Vec<char>>)
    ensures
        views(r@) == flags_dropped(views(ws@)),
{
    let ghost all = views(ws@);
    let mut out: Vec<Vec<char>> = Vec::new();
    let mut i: usize = 0;
    while i < ws.len()
        invariant
            i <= ws@.len(),
            all == views(ws@),
            views(out@) == flags_dropped(all.take(i as int)),
        decreases ws@.len() - i,
    {
        assert(all.take(i + 1).drop_last() =~= all.take(i as int));
        assert(all.take(i + 1).last() == ws@[i as int]@);
        if !(ws[i].len() > 0 && ws[i][0] == '-') {
            let l = copy(&ws[i]);
            let ghost before = out@;
            proof {
                lemma_views_push(before, l);
            }
            out.push(l);
        }
        i += 1;
    }
    assert(all.take(i as int) =~= all);
    out
}

fn alnum_lowered(w: &[char]) -> (r: Vec<char>)
    ensures
        r@ == alnum_lower(w@),
{
    let mut out: Vec<char> = Vec::new();
    let mut i: usize = 0;
    while i < w.len()
        invariant
            i <= w@.len(),
            out@ == alnum_lower(w@.take(i as int)),
        decreases w@.len() - i,
    {
        assert(w@.take(i + 1).drop_last() =~= w@.take(i as int));
        assert(w@.take(i + 1).last() == w@[i as int]);
        if is_ascii_alnum(w[i]) {
            out.push(to_lower(w[i]));
        }
        i += 1;
    }
    assert(w@.take(i as int) =~= w@);
    out
}

/// The stem of an id for `cmd`: `user.` and its first two words that are not
/// flags, or `user.command` when there are none.
fn stem_for(cmd: &str) -> (r: Vec<char>)
    ensures
        r@ == id_stem(cmd@),
{
    let ws = without_flags(&split_words(&chars_of(cmd)));
    let ghost f = views(ws@);
    let n: usize = if ws.len() > 2 {
        2
    } else {
        ws.len()
    };
    let ghost firsts = if f.len() > 2 {
        f.take(2)
    } else {
        f
    };
    assert(firsts =~= f.take(n as int));
    let mut parts: Vec<Vec<char>> = Vec::new();
    let mut i: usize = 0;
    while i < n
        invariant
            i <= n <= ws@.len(),
            f == views(ws@),
            firsts == f.take(n as int),
            views(parts@) == slug_words(firsts.take(i as int)),
        decreases n - i,
    {
        assert(firsts.take(i + 1).drop_last() =~= firsts.take(i as int));
        assert(firsts.take(i + 1).last() == ws@[i as int]@);
        let c = alnum_lowered(&ws[i]);
        if c.len() > 0 {
            let ghost before = parts@;
            proof {
                lemma_views_push(before, c);
            }
            parts.push(c);
        }
        i += 1;
    }
    assert(firsts.take(i as int) =~= firsts);
    if parts.len() == 0 {
        chars_of("user.command")
    } else {
        let mut out = chars_of("user.");
        extend(&mut out, &join_with(&parts, '-'));
        out
    }
}

/// Turns a command into an id that is stable, readable and not already taken.
///
/// The id is `user.` and the command's first two words that are not flags,
/// kept to ASCII letters and digits in lower case and joined by `-`; when that
/// is taken, the first of it followed by `-2`, `-3` and so on that is free.
pub fn suggest_id(cmd: &str, taken: &Vec<String>) -> (r: String)
    ensures
        suggests(cmd@, string_views(taken@), r@),
{
    let ghost t = string_views(taken@);
    let stem = stem_for(cmd);
    let first = string_of(&stem);
    if !list_has(taken, &first) {
        return first;
    }
    let mut n: u128 = 2;
    while n <= (taken.len() as u128) + 2
        invariant
            2 <= n,
            t == string_views(taken@),
            t.contains(stem@),
            stem@ == id_stem(cmd@),
            forall|k: nat| 2 <= k < n ==> t.contains(#[trigger] numbered(stem@, k)),
        decreases (taken@.len() + 3) - n,
    {
        let mut c = copy(&stem);
        c.push('-');
        extend(&mut c, &decimal(n));
        assert(c@ =~= numbered(stem@, n as nat));
        let candidate = string_of(&c);
        if !list_has(taken, &candidate) {
            return candidate;
        }
        proof {
            lemma_pigeonhole(stem@, t, n as nat);
        }
        n += 1;
    }
    proof {
        lemma_pigeonhole(stem@, t, (n - 1) as nat);
    }
    first
}

} // verus!
