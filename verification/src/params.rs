//! Placeholder syntax for command definitions.
//!
//! A placeholder is written `<name>` or `<name:default>`. Names may contain
//! ASCII letters, digits, `_` and `-`. A literal angle bracket is escaped with a
//! preceding backslash.
//!
//! Angle brackets were chosen over `{{name}}` because Go template syntax occurs
//! constantly in the docker and kubectl commands this tool targets.

use std::ops::Range;

use vstd::prelude::*;

use crate::text::{chars_of, is_alnum, is_ascii_alnum, slice, string_of};

verus! {

/// One placeholder occurrence in a command string.
#[derive(Debug, PartialEq, Eq)]
pub struct Placeholder {
    pub name: String,
    pub default: Option<String>,
    /// Byte range the placeholder occupies, including the angle brackets.
    pub span: Range<usize>,
}

/// What a placeholder is, on the characters of the command it was read from,
/// or for a `Placeholder`, on its bytes.
pub struct Found {
    pub name: Seq<char>,
    pub default: Option<Seq<char>>,
    pub start: int,
    pub end: int,
}

pub open spec fn opt_view(o: Option<String>) -> Option<Seq<char>> {
    match o {
        Some(s) => Some(s@),
        None => None,
    }
}

impl View for Placeholder {
    type V = Found;

    open spec fn view(&self) -> Found {
        Found {
            name: self.name@,
            default: opt_view(self.default),
            start: self.span.start as int,
            end: self.span.end as int,
        }
    }
}

/// A placeholder as the library reads it: positions counted in characters.
#[derive(Debug)]
pub struct Spot {
    pub name: String,
    pub default: Option<String>,
    /// First character of the opening bracket.
    pub start: usize,
    /// The character after the closing bracket.
    pub end: usize,
}

impl View for Spot {
    type V = Found;

    open spec fn view(&self) -> Found {
        Found { name: self.name@, default: opt_view(self.default), start: self.start as int, end: self.end as int }
    }
}

pub open spec fn found_views(v: Seq<Spot>) -> Seq<Found> {
    v.map_values(|p: Spot| p@)
}

/// How many bytes UTF-8 takes to write `c`.
pub open spec fn utf8_width(c: char) -> nat {
    if (c as u32) < 0x80 {
        1
    } else if (c as u32) < 0x800 {
        2
    } else if (c as u32) < 0x10000 {
        3
    } else {
        4
    }
}

/// How many bytes UTF-8 takes to write `s`.
pub open spec fn utf8_len(s: Seq<char>) -> nat
    decreases s.len(),
{
    if s.len() == 0 {
        0
    } else {
        utf8_len(s.drop_last()) + utf8_width(s.last())
    }
}

/// `f`, read on the characters of `s`, with its positions counted in bytes.
pub open spec fn in_bytes(s: Seq<char>, f: Found) -> Found {
    Found {
        name: f.name,
        default: f.default,
        start: utf8_len(s.take(f.start)) as int,
        end: utf8_len(s.take(f.end)) as int,
    }
}

/// A prefix never takes more bytes than the whole.
pub proof fn lemma_utf8_prefix(s: Seq<char>, i: int)
    requires
        0 <= i <= s.len(),
    ensures
        utf8_len(s.take(i)) <= utf8_len(s),
    decreases s.len() - i,
{
    if i < s.len() {
        lemma_utf8_prefix(s, i + 1);
        assert(s.take(i + 1).drop_last() =~= s.take(i));
    } else {
        assert(s.take(i) =~= s);
    }
}

/// `char::len_utf8`: how many bytes UTF-8 takes to write `c`.
pub(crate) fn width_of(c: char) -> (r: usize)
    ensures
        r == utf8_width(c),
{
    let n = c as u32;
    if n < 0x80 {
        1
    } else if n < 0x800 {
        2
    } else if n < 0x10000 {
        3
    } else {
        4
    }
}

pub open spec fn is_name_char(c: char) -> bool {
    is_alnum(c) || c == '_' || c == '-'
}

/// The first position at or after `i` that cannot be part of a name.
pub open spec fn name_end(s: Seq<char>, i: int) -> int
    decreases s.len() - i,
{
    if 0 <= i < s.len() && is_name_char(s[i]) {
        name_end(s, i + 1)
    } else {
        i
    }
}

/// The first closing bracket at or after `i`, or the end.
pub open spec fn close_at(s: Seq<char>, i: int) -> int
    decreases s.len() - i,
{
    if 0 <= i < s.len() && s[i] != '>' {
        close_at(s, i + 1)
    } else {
        i
    }
}

pub proof fn lemma_name_end(s: Seq<char>, i: int)
    requires
        0 <= i <= s.len(),
    ensures
        i <= name_end(s, i) <= s.len(),
    decreases s.len() - i,
{
    if i < s.len() && is_name_char(s[i]) {
        lemma_name_end(s, i + 1);
    }
}

pub proof fn lemma_close_at(s: Seq<char>, i: int)
    requires
        0 <= i <= s.len(),
    ensures
        i <= close_at(s, i) <= s.len(),
        close_at(s, i) < s.len() ==> s[close_at(s, i)] == '>',
    decreases s.len() - i,
{
    if i < s.len() && s[i] != '>' {
        lemma_close_at(s, i + 1);
    }
}

/// The placeholder opened by the bracket at `start`, if one is written there:
/// a non-empty name, then either `>` or `:`, a default and `>`.
pub open spec fn scan_at(s: Seq<char>, start: int) -> Option<Found> {
    let ne = name_end(s, start + 1);
    if ne == start + 1 {
        None
    } else {
        let name = s.subrange(start + 1, ne);
        if ne < s.len() && s[ne] == ':' {
            let c = close_at(s, ne + 1);
            if c < s.len() {
                Some(Found { name, default: Some(s.subrange(ne + 1, c)), start, end: c + 1 })
            } else {
                None
            }
        } else if ne < s.len() && s[ne] == '>' {
            Some(Found { name, default: None, start, end: ne + 1 })
        } else {
            None
        }
    }
}

pub proof fn lemma_scan_at(s: Seq<char>, start: int)
    requires
        0 <= start < s.len(),
    ensures
        scan_at(s, start) matches Some(f) ==> f.start == start && start < f.end <= s.len(),
{
    lemma_name_end(s, start + 1);
    let ne = name_end(s, start + 1);
    if ne < s.len() && s[ne] == ':' {
        lemma_close_at(s, ne + 1);
    }
}

/// Whether an escaped bracket starts at `i`.
pub open spec fn escaped_at(s: Seq<char>, i: int) -> bool {
    s[i] == '\\' && i + 1 < s.len() && s[i + 1] == '<'
}

/// Every placeholder in `s` from position `i` on, in order.
pub open spec fn found_from(s: Seq<char>, i: int) -> Seq<Found>
    decreases s.len() - i,
{
    if 0 <= i < s.len() {
        if escaped_at(s, i) {
            found_from(s, i + 2)
        } else if s[i] == '<' {
            proof {
                lemma_scan_at(s, i);
            }
            match scan_at(s, i) {
                Some(f) => seq![f] + found_from(s, f.end),
                None => found_from(s, i + 1),
            }
        } else {
            found_from(s, i + 1)
        }
    } else {
        seq![]
    }
}

/// Every placeholder in `s`, in the order it appears.
pub open spec fn placeholders(s: Seq<char>) -> Seq<Found> {
    found_from(s, 0)
}

/// Each placeholder found from `i` on lies inside `s`, after `i`.
pub proof fn lemma_found_from(s: Seq<char>, i: int)
    requires
        0 <= i,
    ensures
        forall|k: int|
            0 <= k < found_from(s, i).len() ==> i <= (#[trigger] found_from(s, i)[k]).start
                < found_from(s, i)[k].end <= s.len(),
    decreases s.len() - i,
{
    if 0 <= i < s.len() {
        if escaped_at(s, i) {
            lemma_found_from(s, i + 2);
        } else if s[i] == '<' {
            lemma_scan_at(s, i);
            match scan_at(s, i) {
                Some(f) => {
                    lemma_found_from(s, f.end);
                    let all = found_from(s, i);
                    assert forall|k: int| 0 <= k < all.len() implies i <= (#[trigger] all[k]).start
                        < all[k].end <= s.len() by {
                        if k > 0 {
                            assert(all[k] == found_from(s, f.end)[k - 1]);
                        }
                    }
                },
                None => {
                    lemma_found_from(s, i + 1);
                },
            }
        } else {
            lemma_found_from(s, i + 1);
        }
    }
}

/// How a placeholder is written: `<name>`, or `<name:default>`.
pub open spec fn written(f: Found) -> Seq<char> {
    "<"@ + f.name + match f.default {
        Some(d) => ":"@ + d,
        None => seq![],
    } + ">"@
}

/// Whether `f` is a placeholder as the syntax allows one: a name of at least
/// one ASCII letter, digit, `_` or `-`, and a default without `>`.
pub open spec fn well_formed(f: Found) -> bool {
    &&& f.name.len() > 0
    &&& forall|j: int| 0 <= j < f.name.len() ==> is_name_char(#[trigger] f.name[j])
    &&& f.default matches Some(d) ==> !d.contains('>')
}

proof fn lemma_name_chars(s: Seq<char>, i: int)
    requires
        0 <= i <= s.len(),
    ensures
        forall|k: int| i <= k < name_end(s, i) ==> is_name_char(#[trigger] s[k]),
    decreases s.len() - i,
{
    if i < s.len() && is_name_char(s[i]) {
        lemma_name_chars(s, i + 1);
    }
}

proof fn lemma_close_chars(s: Seq<char>, i: int)
    requires
        0 <= i <= s.len(),
    ensures
        forall|k: int| i <= k < close_at(s, i) ==> #[trigger] s[k] != '>',
    decreases s.len() - i,
{
    if i < s.len() && s[i] != '>' {
        lemma_close_chars(s, i + 1);
    }
}

/// A placeholder read at a bracket is written there as the syntax says.
proof fn lemma_scan_shape(s: Seq<char>, start: int)
    requires
        0 <= start < s.len(),
        s[start] == '<',
    ensures
        scan_at(s, start) matches Some(f) ==> well_formed(f) && s.subrange(f.start, f.end) == written(f),
{
    lemma_scan_at(s, start);
    lemma_name_end(s, start + 1);
    lemma_name_chars(s, start + 1);
    reveal_strlit("<");
    reveal_strlit(">");
    reveal_strlit(":");
    let ne = name_end(s, start + 1);
    if let Some(f) = scan_at(s, start) {
        let name = s.subrange(start + 1, ne);
        assert forall|j: int| 0 <= j < name.len() implies is_name_char(#[trigger] name[j]) by {
            assert(name[j] == s[start + 1 + j]);
        }
        if ne < s.len() && s[ne] == ':' {
            lemma_close_at(s, ne + 1);
            lemma_close_chars(s, ne + 1);
            let c = close_at(s, ne + 1);
            let d = s.subrange(ne + 1, c);
            assert forall|j: int| 0 <= j < d.len() implies d[j] != '>' by {
                assert(d[j] == s[ne + 1 + j]);
            }
            assert(s.subrange(start, c + 1) =~= "<"@ + name + (":"@ + d) + ">"@);
        } else {
            assert(s.subrange(start, ne + 1) =~= "<"@ + name + Seq::<char>::empty() + ">"@);
        }
    }
}

/// Placeholders found from `i` on are well formed, written where they are
/// found, in order without overlapping, and none follows a backslash.
proof fn lemma_found_shape(s: Seq<char>, i: int)
    requires
        0 <= i,
        i == 0 || i >= s.len() || s[i - 1] != '\\' || s[i] != '<',
    ensures
        forall|k: int| 0 <= k < found_from(s, i).len() ==> {
            let f = #[trigger] found_from(s, i)[k];
            &&& i <= f.start < f.end <= s.len()
            &&& well_formed(f)
            &&& s.subrange(f.start, f.end) == written(f)
            &&& (f.start == 0 || s[f.start - 1] != '\\')
        },
        forall|k: int| 0 <= k < found_from(s, i).len() - 1 ==> (#[trigger] found_from(s, i)[k]).end
            <= found_from(s, i)[k + 1].start,
    decreases s.len() - i,
{
    if 0 <= i < s.len() {
        if escaped_at(s, i) {
            lemma_found_shape(s, i + 2);
        } else if s[i] == '<' {
            lemma_scan_at(s, i);
            lemma_scan_shape(s, i);
            match scan_at(s, i) {
                Some(f) => {
                    assert(s.subrange(f.start, f.end) == written(f));
                    reveal_strlit(">");
                    let w = written(f);
                    assert(w[w.len() - 1] == '>');
                    assert(s[f.end - 1] == s.subrange(f.start, f.end)[f.end - 1 - f.start]);
                    assert(s[f.end - 1] == '>');
                    lemma_found_shape(s, f.end);
                    let all = found_from(s, i);
                    let rest = found_from(s, f.end);
                    assert(all == seq![f] + rest);
                    assert forall|k: int| 0 <= k < all.len() implies {
                        let g = #[trigger] all[k];
                        &&& i <= g.start < g.end <= s.len()
                        &&& well_formed(g)
                        &&& s.subrange(g.start, g.end) == written(g)
                        &&& (g.start == 0 || s[g.start - 1] != '\\')
                    } by {
                        if k > 0 {
                            assert(all[k] == rest[k - 1]);
                        }
                    }
                    assert forall|k: int| 0 <= k < all.len() - 1 implies (#[trigger] all[k]).end
                        <= all[k + 1].start by {
                        assert(all[k + 1] == rest[k]);
                        if k > 0 {
                            assert(all[k] == rest[k - 1]);
                        }
                    }
                },
                None => {
                    lemma_found_shape(s, i + 1);
                },
            }
        } else {
            lemma_found_shape(s, i + 1);
        }
    }
}

/// Every placeholder of `s` is well formed and written where it is found, the
/// placeholders come in order without overlapping, and none follows a
/// backslash, which would have escaped its bracket.
pub proof fn lemma_placeholders_shape(s: Seq<char>)
    ensures
        forall|k: int| 0 <= k < placeholders(s).len() ==> {
            let f = #[trigger] placeholders(s)[k];
            &&& 0 <= f.start < f.end <= s.len()
            &&& well_formed(f)
            &&& s.subrange(f.start, f.end) == written(f)
            &&& (f.start == 0 || s[f.start - 1] != '\\')
        },
        forall|k: int| 0 <= k < placeholders(s).len() - 1 ==> (#[trigger] placeholders(s)[k]).end
            <= placeholders(s)[k + 1].start,
{
    lemma_found_shape(s, 0);
}

proof fn lemma_name_run(s: Seq<char>, i: int, e: int)
    requires
        0 <= i <= e < s.len(),
        forall|k: int| i <= k < e ==> is_name_char(#[trigger] s[k]),
        !is_name_char(s[e]),
    ensures
        name_end(s, i) == e,
    decreases e - i,
{
    if i < e {
        lemma_name_run(s, i + 1, e);
    }
}

proof fn lemma_found_skip(s: Seq<char>, i: int, n: int)
    requires
        0 <= i <= n <= s.len(),
        forall|k: int| i <= k < n ==> #[trigger] s[k] != '<' && s[k] != '\\',
    ensures
        found_from(s, i) == found_from(s, n),
    decreases n - i,
{
    if i < n {
        lemma_found_skip(s, i + 1, n);
    }
}

/// A placeholder name is any run of ASCII letters, digits, `_` and `-`: in a
/// command where such a name stands in angle brackets after text without
/// brackets or backslashes, the first placeholder found is exactly that one,
/// with no default, spanning the brackets.
pub proof fn lemma_plain_name_found(p: Seq<char>, name: Seq<char>, t: Seq<char>)
    requires
        forall|k: int| 0 <= k < p.len() ==> #[trigger] p[k] != '<' && p[k] != '\\',
        name.len() > 0,
        forall|k: int|
            0 <= k < name.len() ==> ('a' <= #[trigger] name[k] <= 'z') || ('A' <= name[k] <= 'Z') || (
            '0' <= name[k] <= '9') || name[k] == '_' || name[k] == '-',
    ensures
        placeholders(p + seq!['<'] + name + seq!['>'] + t).len() > 0,
        placeholders(p + seq!['<'] + name + seq!['>'] + t)[0] == (Found {
            name,
            default: None,
            start: p.len() as int,
            end: (p.len() + name.len() + 2) as int,
        }),
{
    let s = p + seq!['<'] + name + seq!['>'] + t;
    let st = p.len() as int;
    let e = st + 1 + name.len();
    assert forall|k: int| 0 <= k < st implies #[trigger] s[k] != '<' && s[k] != '\\' by {
        assert(s[k] == p[k]);
    }
    lemma_found_skip(s, 0, st);
    assert(s[st] == '<');
    assert(s[e] == '>');
    assert forall|k: int| st + 1 <= k < e implies is_name_char(#[trigger] s[k]) by {
        assert(s[k] == name[k - st - 1]);
    }
    lemma_name_run(s, st + 1, e);
    assert(s.subrange(st + 1, e) =~= name);
    assert(!escaped_at(s, st));
    lemma_scan_at(s, st);
    assert(scan_at(s, st) == Some(Found { name, default: None, start: st, end: e + 1 }));
}

fn name_from(s: &[char], i: usize) -> (r: usize)
    requires
        i <= s@.len(),
    ensures
        r == name_end(s@, i as int),
{
    let mut j = i;
    while j < s.len() && (is_ascii_alnum(s[j]) || s[j] == '_' || s[j] == '-')
        invariant
            i <= j <= s@.len(),
            name_end(s@, j as int) == name_end(s@, i as int),
        decreases s@.len() - j,
    {
        j += 1;
    }
    j
}

fn close_from(s: &[char], i: usize) -> (r: usize)
    requires
        i <= s@.len(),
    ensures
        r == close_at(s@, i as int),
{
    let mut j = i;
    while j < s.len() && s[j] != '>'
        invariant
            i <= j <= s@.len(),
            close_at(s@, j as int) == close_at(s@, i as int),
        decreases s@.len() - j,
    {
        j += 1;
    }
    j
}

/// Reads one placeholder starting at the opening bracket at `start`.
fn scan(s: &[char], start: usize) -> (r: Option<Spot>)
    requires
        start < s.len(),
    ensures
        match r {
            Some(p) => scan_at(s@, start as int) == Some(p@),
            None => scan_at(s@, start as int) is None,
        },
{
    let ne = name_from(s, start + 1);
    proof {
        lemma_name_end(s@, start + 1);
    }
    if ne == start + 1 {
        return None;
    }
    let name = string_of(&slice(s, start + 1, ne));
    if ne < s.len() && s[ne] == ':' {
        let c = close_from(s, ne + 1);
        proof {
            lemma_close_at(s@, ne + 1);
        }
        if c < s.len() {
            let default = string_of(&slice(s, ne + 1, c));
            Some(Spot { name, default: Some(default), start, end: c + 1 })
        } else {
            None
        }
    } else if ne < s.len() && s[ne] == '>' {
        Some(Spot { name, default: None, start, end: ne + 1 })
    } else {
        None
    }
}

fn parse_chars(s: &[char]) -> (r: Vec<Spot>)
    ensures
        found_views(r@) == placeholders(s@),
{
    let mut found: Vec<Spot> = Vec::new();
    let mut i: usize = 0;
    while i < s.len()
        invariant
            i <= s@.len(),
            found_views(found@) + found_from(s@, i as int) == placeholders(s@),
        decreases s@.len() - i,
    {
        if s[i] == '\\' && i + 1 < s.len() && s[i + 1] == '<' {
            i += 2;
        } else if s[i] == '<' {
            proof {
                lemma_scan_at(s@, i as int);
            }
            match scan(s, i) {
                Some(p) => {
                    let end = p.end;
                    let ghost before = found@;
                    found.push(p);
                    assert(found_views(found@) =~= found_views(before).push(p@));
                    assert(found_views(found@) + found_from(s@, end as int) =~= found_views(before)
                        + found_from(s@, i as int));
                    i = end;
                },
                None => {
                    i += 1;
                },
            }
        } else {
            i += 1;
        }
    }
    assert(found_views(found@) + found_from(s@, i as int) =~= found_views(found@));
    found
}

/// Every placeholder in `cmd`, in the order it appears, with its position
/// counted in characters.
pub(crate) fn spots(cmd: &str) -> (r: Vec<Spot>)
    ensures
        found_views(r@) == placeholders(cmd@),
{
    parse_chars(&chars_of(cmd))
}

/// Every placeholder in `cmd`, in the order it appears, each spanning the
/// bytes it is written in.
pub fn parse(cmd: &str) -> (r: Vec<Placeholder>)
    requires
        utf8_len(cmd@) <= usize::MAX,
    ensures
        r@.len() == placeholders(cmd@).len(),
        forall|k: int| 0 <= k < r@.len() ==> (#[trigger] r@[k])@ == in_bytes(cmd@, placeholders(cmd@)[k]),
{
    let s = chars_of(cmd);
    let found = parse_chars(&s);
    let ghost fs = placeholders(cmd@);
    proof {
        lemma_found_from(s@, 0);
    }
    // offsets[i] is how many bytes the first i characters take.
    let mut offsets: Vec<usize> = Vec::new();
    offsets.push(0);
    let mut total: usize = 0;
    let mut i: usize = 0;
    assert(s@.take(0) =~= Seq::<char>::empty());
    while i < s.len()
        invariant
            i <= s@.len(),
            s@ == cmd@,
            utf8_len(cmd@) <= usize::MAX,
            offsets@.len() == i + 1,
            total == utf8_len(s@.take(i as int)),
            forall|j: int| 0 <= j <= i ==> #[trigger] offsets@[j] == utf8_len(s@.take(j)),
        decreases s@.len() - i,
    {
        assert(s@.take(i + 1).drop_last() =~= s@.take(i as int));
        proof {
            lemma_utf8_prefix(s@, i + 1);
        }
        total = total + width_of(s[i]);
        offsets.push(total);
        i += 1;
    }
    let mut out: Vec<Placeholder> = Vec::new();
    let mut k: usize = 0;
    while k < found.len()
        invariant
            k <= found@.len(),
            s@ == cmd@,
            found_views(found@) == fs,
            fs == placeholders(cmd@),
            offsets@.len() == s@.len() + 1,
            forall|j: int| 0 <= j <= s@.len() ==> #[trigger] offsets@[j] == utf8_len(s@.take(j)),
            forall|j: int| 0 <= j < fs.len() ==> 0 <= (#[trigger] fs[j]).start < fs[j].end <= s@.len(),
            out@.len() == k,
            forall|j: int| 0 <= j < k ==> (#[trigger] out@[j])@ == in_bytes(cmd@, fs[j]),
        decreases found@.len() - k,
    {
        let p = &found[k];
        assert(fs[k as int] == p@);
        let start = offsets[p.start];
        let end = offsets[p.end];
        let name = p.name.clone();
        let default = match &p.default {
            Some(d) => Some(d.clone()),
            None => None,
        };
        out.push(Placeholder { name, default, span: start..end });
        k += 1;
    }
    out
}

/// The names of `fs` without repeats, each where it first appears.
pub open spec fn distinct_names(fs: Seq<Found>) -> Seq<Seq<char>>
    decreases fs.len(),
{
    if fs.len() == 0 {
        seq![]
    } else {
        let before = distinct_names(fs.drop_last());
        if before.contains(fs.last().name) {
            before
        } else {
            before.push(fs.last().name)
        }
    }
}

/// A command with a placeholder names at least one.
pub proof fn lemma_distinct_nonempty(fs: Seq<Found>)
    ensures
        fs.len() > 0 ==> distinct_names(fs).len() > 0,
    decreases fs.len(),
{
    if fs.len() > 0 {
        lemma_distinct_nonempty(fs.drop_last());
    }
}

pub open spec fn string_views(v: Seq<String>) -> Seq<Seq<char>> {
    v.map_values(|s: String| s@)
}

/// Whether `list` holds a string equal to `s`.
pub fn list_has(list: &Vec<String>, s: &String) -> (r: bool)
    ensures
        r == string_views(list@).contains(s@),
{
    let mut i: usize = 0;
    while i < list.len()
        invariant
            i <= list@.len(),
            forall|k: int| 0 <= k < i ==> list@[k]@ != s@,
        decreases list@.len() - i,
    {
        if list[i] == *s {
            assert(string_views(list@)[i as int] == s@);
            return true;
        }
        i += 1;
    }
    assert forall|k: int| 0 <= k < string_views(list@).len() implies string_views(list@)[k]
        != s@ by {
        assert(list@[k]@ != s@);
    }
    false
}

/// Distinct placeholder names in `cmd`, in the order they first appear.
pub fn names(cmd: &str) -> (r: Vec<String>)
    ensures
        string_views(r@) == distinct_names(placeholders(cmd@)),
{
    let found = spots(cmd);
    let ghost fs = found_views(found@);
    let mut seen: Vec<String> = Vec::new();
    let mut i: usize = 0;
    while i < found.len()
        invariant
            i <= found@.len(),
            fs == found_views(found@),
            string_views(seen@) == distinct_names(fs.take(i as int)),
        decreases found@.len() - i,
    {
        let name = found[i].name.clone();
        assert(fs.take(i + 1).drop_last() =~= fs.take(i as int));
        if !list_has(&seen, &name) {
            let ghost before = seen@;
            seen.push(name);
            assert(string_views(seen@) =~= string_views(before).push(fs[i as int].name));
        }
        i += 1;
    }
    assert(fs.take(i as int) =~= fs);
    seen
}

/// The value given for `name`: the last pair that names it.
pub open spec fn lookup(values: Seq<(Seq<char>, Seq<char>)>, name: Seq<char>) -> Option<Seq<char>>
    decreases values.len(),
{
    if values.len() == 0 {
        None
    } else if values.last().0 == name {
        Some(values.last().1)
    } else {
        lookup(values.drop_last(), name)
    }
}

pub open spec fn pair_views(v: Seq<(String, String)>) -> Seq<(Seq<char>, Seq<char>)> {
    v.map_values(|p: (String, String)| (p.0@, p.1@))
}

/// What a placeholder becomes: its value, else its default, else nothing.
pub open spec fn value_of(values: Seq<(Seq<char>, Seq<char>)>, f: Found) -> Seq<char> {
    match lookup(values, f.name) {
        Some(v) => v,
        None => match f.default {
            Some(d) => d,
            None => seq![],
        },
    }
}

/// `s` from position `i` on, with placeholders substituted and escaped
/// brackets resolved.
pub open spec fn rendered_from(
    s: Seq<char>,
    i: int,
    values: Seq<(Seq<char>, Seq<char>)>,
) -> Seq<char>
    decreases s.len() - i,
{
    if 0 <= i < s.len() {
        if escaped_at(s, i) {
            seq!['<'] + rendered_from(s, i + 2, values)
        } else if s[i] == '<' {
            proof {
                lemma_scan_at(s, i);
            }
            match scan_at(s, i) {
                Some(f) => value_of(values, f) + rendered_from(s, f.end, values),
                None => seq!['<'] + rendered_from(s, i + 1, values),
            }
        } else {
            seq![s[i]] + rendered_from(s, i + 1, values)
        }
    } else {
        seq![]
    }
}

/// The characters of `s` from `i` up to `j` as a command renders them outside
/// its placeholders: each `\<` becomes `<`, and every other character is
/// copied as it is.
pub open spec fn unescaped(s: Seq<char>, i: int, j: int) -> Seq<char>
    decreases j - i,
{
    if i >= j || i < 0 || j > s.len() {
        seq![]
    } else if escaped_at(s, i) && i + 2 <= j {
        seq!['<'] + unescaped(s, i + 2, j)
    } else {
        seq![s[i]] + unescaped(s, i + 1, j)
    }
}

/// `s` from `i` on put together around the placeholders `fs` found there:
/// the text before each, unescaped, then its value, and the text after the
/// last.
pub open spec fn assembled(
    s: Seq<char>,
    i: int,
    fs: Seq<Found>,
    values: Seq<(Seq<char>, Seq<char>)>,
) -> Seq<char>
    decreases fs.len(),
{
    if fs.len() == 0 {
        unescaped(s, i, s.len() as int)
    } else {
        unescaped(s, i, fs[0].start) + value_of(values, fs[0]) + assembled(
            s,
            fs[0].end,
            fs.drop_first(),
            values,
        )
    }
}

proof fn lemma_rendered_assembled(s: Seq<char>, i: int, values: Seq<(Seq<char>, Seq<char>)>)
    requires
        0 <= i,
    ensures
        rendered_from(s, i, values) == assembled(s, i, found_from(s, i), values),
    decreases s.len() - i,
{
    if i < s.len() {
        if escaped_at(s, i) {
            lemma_rendered_assembled(s, i + 2, values);
            lemma_found_from(s, i + 2);
            let fs = found_from(s, i + 2);
            if fs.len() > 0 {
                assert(fs[0].start >= i + 2);
                assert(unescaped(s, i, fs[0].start) == seq!['<'] + unescaped(s, i + 2, fs[0].start));
                assert(assembled(s, i, fs, values) =~= seq!['<'] + assembled(s, i + 2, fs, values));
            } else {
                assert(assembled(s, i, fs, values) =~= seq!['<'] + assembled(s, i + 2, fs, values));
            }
        } else if s[i] == '<' {
            lemma_scan_at(s, i);
            match scan_at(s, i) {
                Some(f) => {
                    lemma_rendered_assembled(s, f.end, values);
                    let fs = found_from(s, i);
                    assert(fs == seq![f] + found_from(s, f.end));
                    assert(fs[0] == f);
                    assert(fs.drop_first() =~= found_from(s, f.end));
                    assert(unescaped(s, i, f.start) == Seq::<char>::empty());
                    assert(assembled(s, i, fs, values) =~= value_of(values, f) + assembled(
                        s,
                        f.end,
                        found_from(s, f.end),
                        values,
                    ));
                },
                None => {
                    lemma_rendered_assembled(s, i + 1, values);
                    lemma_found_from(s, i + 1);
                    let fs = found_from(s, i + 1);
                    if fs.len() > 0 {
                        assert(unescaped(s, i, fs[0].start) == seq![s[i]] + unescaped(s, i + 1, fs[0].start));
                    }
                    assert(assembled(s, i, fs, values) =~= seq!['<'] + assembled(s, i + 1, fs, values));
                },
            }
        } else {
            lemma_rendered_assembled(s, i + 1, values);
            lemma_found_from(s, i + 1);
            let fs = found_from(s, i + 1);
            if fs.len() > 0 {
                assert(unescaped(s, i, fs[0].start) == seq![s[i]] + unescaped(s, i + 1, fs[0].start));
            }
            assert(assembled(s, i, fs, values) =~= seq![s[i]] + assembled(s, i + 1, fs, values));
        }
    } else {
        assert(unescaped(s, i, s.len() as int) == Seq::<char>::empty());
    }
}

/// Rendering a command replaces, left to right, each of its placeholders by
/// its value, else its default, else nothing; turns each `\<` between them
/// into `<`; and copies every other character unchanged and in order.
pub proof fn lemma_render_by_placeholders(s: Seq<char>, values: Seq<(Seq<char>, Seq<char>)>)
    ensures
        rendered_from(s, 0, values) == assembled(s, 0, placeholders(s), values),
{
    lemma_rendered_assembled(s, 0, values);
}

/// The value given for `name`, the last pair that names it.
fn find_value<'a>(values: &'a [(String, String)], name: &String) -> (r: Option<&'a String>)
    ensures
        match r {
            Some(v) => lookup(pair_views(values@), name@) == Some(v@),
            None => lookup(pair_views(values@), name@) is None,
        },
{
    let mut i = values.len();
    assert(pair_views(values@).take(i as int) =~= pair_views(values@));
    while i > 0
        invariant
            i <= values@.len(),
            lookup(pair_views(values@), name@) == lookup(pair_views(values@).take(i as int), name@),
        decreases i,
    {
        let ghost t = pair_views(values@).take(i as int);
        assert(t.drop_last() =~= pair_views(values@).take(i - 1));
        if values[i - 1].0 == *name {
            return Some(&values[i - 1].1);
        }
        i -= 1;
    }
    None
}

/// Substitutes placeholder values and resolves escaped angle brackets.
///
/// A placeholder missing from `values` falls back to its inline default, then to
/// an empty string. `values` pairs a placeholder name with its value; where a
/// name is given twice the later pair wins.
pub fn render(cmd: &str, values: &[(String, String)]) -> (r: String)
    ensures
        r@ == rendered_from(cmd@, 0, pair_views(values@)),
{
    let s = chars_of(cmd);
    let ghost vals = pair_views(values@);
    let mut out: Vec<char> = Vec::new();
    let mut i: usize = 0;
    while i < s.len()
        invariant
            i <= s@.len(),
            s@ == cmd@,
            vals == pair_views(values@),
            out@ + rendered_from(s@, i as int, vals) == rendered_from(s@, 0, vals),
        decreases s@.len() - i,
    {
        let ghost before = out@;
        if s[i] == '\\' && i + 1 < s.len() && s[i + 1] == '<' {
            out.push('<');
            assert(out@ + rendered_from(s@, i + 2, vals) =~= before + rendered_from(
                s@,
                i as int,
                vals,
            ));
            i += 2;
        } else if s[i] == '<' {
            proof {
                lemma_scan_at(s@, i as int);
            }
            match scan(&s, i) {
                Some(p) => {
                    let value: Vec<char> = match find_value(values, &p.name) {
                        Some(v) => chars_of(v.as_str()),
                        None => match &p.default {
                            Some(d) => chars_of(d.as_str()),
                            None => Vec::new(),
                        },
                    };
                    assert(value@ == value_of(vals, p@));
                    crate::text::extend(&mut out, &value);
                    assert(out@ + rendered_from(s@, p.end as int, vals) =~= before
                        + rendered_from(s@, i as int, vals));
                    i = p.end;
                },
                None => {
                    out.push('<');
                    assert(out@ + rendered_from(s@, i + 1, vals) =~= before + rendered_from(
                        s@,
                        i as int,
                        vals,
                    ));
                    i += 1;
                },
            }
        } else {
            out.push(s[i]);
            assert(out@ + rendered_from(s@, i + 1, vals) =~= before + rendered_from(
                s@,
                i as int,
                vals,
            ));
            i += 1;
        }
    }
    assert(out@ + rendered_from(s@, i as int, vals) =~= out@);
    string_of(&out)
}

} // verus!
