//! Filtering and ordering the command list.
//!
//! Match quality is the primary sort key and is deliberately coarse. Fine
//! grained fuzzy scores would reorder neighbouring entries for reasons the user
//! cannot see, and a picker whose order cannot be predicted breaks the muscle
//! memory it exists to serve. Frecency only breaks ties inside a bucket.

use vstd::prelude::*;

use nucleo_matcher::pattern::{AtomKind, CaseMatching, Normalization, Pattern};
use nucleo_matcher::{Config, Matcher, Utf32Str};

use crate::model::{layer_rank, Entry, EntryView};
use crate::params::{string_views, utf8_len};
use crate::store::layers::{id_before, id_lt, lemma_id_lt_asymmetric, lemma_id_lt_irreflexive, lemma_id_lt_total, lemma_id_lt_transitive};
use crate::text::{
    chars_of, contains, join_with, joined_with, split_words, starts_with, string_of, trim, trimmed,
    views, words,
};

verus! {

/// What `char::to_lowercase` yields for `c`: its full Unicode lower case
/// mapping, one or more characters.
pub uninterp spec fn char_lowercase(c: char) -> Seq<char>;

/// Whether `char::is_alphanumeric` holds of `c`.
pub uninterp spec fn alphanumeric(c: char) -> bool;

/// `char::to_lowercase`, collected: the lower case mapping of `c`, which
/// depends on `c` alone. An ASCII character maps to its ASCII lower case,
/// the one character `to_ascii_lowercase` gives.
#[verifier::external_body]
fn lower_char(c: char) -> (r: Vec<char>)
    ensures
        r@ == char_lowercase(c),
        (c as u32) < 128 ==> r@ == seq![crate::text::lower(c)],
{
    c.to_lowercase().collect()
}

/// `char::is_alphanumeric`: whether `c` is a letter or a number in Unicode.
#[verifier::external_body]
fn is_alphanumeric(c: char) -> (r: bool)
    ensures
        r == alphanumeric(c),
{
    c.is_alphanumeric()
}

/// `s` with each character replaced by its lower case mapping.
pub open spec fn folded(s: Seq<char>) -> Seq<char>
    decreases s.len(),
{
    if s.len() == 0 {
        seq![]
    } else {
        folded(s.drop_last()) + char_lowercase(s.last())
    }
}

/// `s` with each character replaced by its lower case mapping.
pub fn fold(s: &[char]) -> (r: Vec<char>)
    ensures
        r@ == folded(s@),
{
    let mut out: Vec<char> = Vec::new();
    let mut i: usize = 0;
    while i < s.len()
        invariant
            i <= s@.len(),
            out@ == folded(s@.take(i as int)),
        decreases s@.len() - i,
    {
        assert(s@.take(i + 1).drop_last() =~= s@.take(i as int));
        assert(s@.take(i + 1).last() == s@[i as int]);
        crate::text::extend(&mut out, &lower_char(s[i]));
        i += 1;
    }
    assert(s@.take(i as int) =~= s@);
    out
}

/// Whether every word of `query` appears in `haystack`, ignoring case.
pub open spec fn matches_all(haystack: Seq<char>, query: Seq<char>) -> bool {
    forall|k: int|
        0 <= k < words(query).len() ==> contains(folded(haystack), folded(#[trigger] words(query)[k]))
}

/// Whether every word of `query` appears in `haystack`, ignoring case. An
/// empty query matches everything.
///
/// This is lore's own rule for a search that guesses nothing: each word has
/// to occur as written, so a typo matches nothing rather than something
/// close.
pub fn matches(haystack: &str, query: &str) -> (r: bool)
    ensures
        r == matches_all(haystack@, query@),
{
    let h = fold(&chars_of(haystack));
    let ws = split_words(&chars_of(query));
    let ghost w = views(ws@);
    let mut i: usize = 0;
    while i < ws.len()
        invariant
            i <= ws@.len(),
            w == views(ws@),
            w == words(query@),
            h@ == folded(haystack@),
            forall|k: int| 0 <= k < i ==> contains(folded(haystack@), folded(#[trigger] w[k])),
        decreases ws@.len() - i,
    {
        assert(w[i as int] == ws@[i as int]@);
        let found = crate::text::has(&h, &fold(&ws[i]));
        if !found {
            return false;
        }
        i += 1;
    }
    true
}

/// How closely a field matched. Ordered weakest to strongest.
#[derive(Debug, Clone, Copy, PartialEq, Eq, Structural, PartialOrd, Ord)]
pub enum Quality {
    /// The query appears only as a scattered subsequence.
    Fuzzy,
    /// The query starts a word inside the field.
    WordStart,
    /// The field starts with the query.
    Prefix,
}

/// Whether `haystack` starts with `needle`, ignoring case.
pub open spec fn starts_folded(haystack: Seq<char>, needle: Seq<char>) -> bool {
    starts_with(folded(haystack), folded(needle))
}

/// Whether `haystack` starts with `needle`, ignoring case.
pub fn starts_with_ignore_case(haystack: &str, needle: &str) -> (r: bool)
    ensures
        r == starts_folded(haystack@, needle@),
{
    crate::text::begins_with(&fold(&chars_of(haystack)), &fold(&chars_of(needle)))
}

/// Whether a word starts at position `k` of `h`: a letter or number there,
/// after the start or a character that is neither.
pub open spec fn word_starts_at(h: Seq<char>, k: int) -> bool {
    &&& alphanumeric(h[k])
    &&& (k == 0 || !alphanumeric(h[k - 1]))
}

/// How closely `query` matched `haystack`.
pub open spec fn quality(haystack: Seq<char>, query: Seq<char>) -> Quality {
    if starts_folded(haystack, query) {
        Quality::Prefix
    } else if exists|k: int|
        0 <= k < haystack.len() && word_starts_at(haystack, k) && starts_folded(
            #[trigger] haystack.skip(k),
            query,
        ) {
        Quality::WordStart
    } else {
        Quality::Fuzzy
    }
}

/// How closely `query` matched `haystack`: the field starts with it, a word
/// inside the field starts with it, or neither.
pub fn quality_of(haystack: &str, query: &str) -> (r: Quality)
    ensures
        r == quality(haystack@, query@),
{
    let h = chars_of(haystack);
    let q = fold(&chars_of(query));
    if crate::text::begins_with(&fold(&h), &q) {
        return Quality::Prefix;
    }
    // A space before the start: the first character starts a word when it
    // is a letter or a number.
    let mut previous_alnum = false;
    let mut k: usize = 0;
    while k < h.len()
        invariant
            k <= h@.len(),
            h@ == haystack@,
            q@ == folded(query@),
            !starts_folded(haystack@, query@),
            k > 0 ==> previous_alnum == alphanumeric(h@[k - 1]),
            k == 0 ==> !previous_alnum,
            forall|j: int|
                0 <= j < k ==> !(word_starts_at(h@, j) && starts_folded(#[trigger] h@.skip(j), query@)),
        decreases h@.len() - k,
    {
        let current = is_alphanumeric(h[k]);
        if !previous_alnum && current {
            let rest = crate::text::slice(&h, k, h.len());
            assert(rest@ =~= h@.skip(k as int));
            if crate::text::begins_with(&fold(&rest), &q) {
                assert(word_starts_at(h@, k as int));
                assert(starts_folded(h@.skip(k as int), query@));
                return Quality::WordStart;
            }
        }
        previous_alnum = current;
        k += 1;
    }
    Quality::Fuzzy
}


#[verifier::external_type_specification]
#[verifier::external_body]
pub struct ExMatcher(Matcher);

/// What nucleo's fuzzy `Pattern::score` gives for `query` against
/// `haystack`, with smart case matching and normalisation and nucleo's
/// default configuration: `None` when some word of the query does not match.
pub uninterp spec fn fuzzy_score(haystack: Seq<char>, query: Seq<char>) -> Option<u32>;

/// The character positions that nucleo's fuzzy `Pattern::indices` reports
/// for `query` against `haystack`, word by word, unsorted and possibly
/// repeated.
pub uninterp spec fn fuzzy_positions(haystack: Seq<char>, query: Seq<char>) -> Seq<u32>;

/// `Matcher::new` with nucleo's default configuration. Every matcher of this
/// crate is made here, so every score below is taken with that configuration.
#[verifier::external_body]
fn new_matcher() -> Matcher {
    Matcher::new(Config::DEFAULT)
}

/// nucleo's `Pattern::score` of `query`, read word by word as fuzzy atoms
/// (`Pattern::new`, smart case, smart normalisation), against `haystack`.
/// The matcher only lends its scratch space: the score depends on the two
/// strings alone. nucleo panics on a haystack longer than 2^32 - 1 code
/// points, which `matchable` rules out.
#[verifier::external_body]
fn score_with(matcher: &mut Matcher, haystack: &str, query: &str) -> (r: Option<u32>)
    requires
        matchable(haystack@),
    ensures
        r == fuzzy_score(haystack@, query@),
{
    let pattern = Pattern::new(query, CaseMatching::Smart, Normalization::Smart, AtomKind::Fuzzy);
    let mut buffer = Vec::new();
    pattern.score(Utf32Str::new(haystack, &mut buffer), matcher)
}

/// nucleo's `Pattern::indices` for the same pattern: the positions each word
/// of `query` matched in `haystack`, as nucleo appends them. It panics on
/// the same haystacks as `score_with`, which `matchable` rules out.
#[verifier::external_body]
fn positions_with(matcher: &mut Matcher, haystack: &str, query: &str) -> (r: Vec<u32>)
    requires
        matchable(haystack@),
    ensures
        r@ == fuzzy_positions(haystack@, query@),
{
    let pattern = Pattern::new(query, CaseMatching::Smart, Normalization::Smart, AtomKind::Fuzzy);
    let mut buffer = Vec::new();
    let mut indices = Vec::new();
    pattern.indices(Utf32Str::new(haystack, &mut buffer), matcher, &mut indices);
    indices
}

/// An entry with its command already resolved for the active shell.
#[derive(Debug, Clone, Copy)]
pub struct Candidate<'a> {
    pub entry: &'a Entry,
    pub cmd: &'a str,
}

/// What the usage statistics say of an entry, as the ordering reads them.
///
/// `frecency` orders entries the way their decayed usage scores do: higher
/// means used more, and recently.
#[derive(Debug, Clone, Copy, PartialEq, Eq, Structural)]
pub struct Standing {
    pub pinned: bool,
    pub frecency: u64,
}

/// The standing recorded for `id`: the first pair that names it.
pub open spec fn standing_of(scores: Seq<(Seq<char>, Standing)>, id: Seq<char>) -> Option<Standing>
    decreases scores.len(),
{
    if scores.len() == 0 {
        None
    } else if scores[0].0 == id {
        Some(scores[0].1)
    } else {
        standing_of(scores.drop_first(), id)
    }
}

pub open spec fn score_views(v: Seq<(String, Standing)>) -> Seq<(Seq<char>, Standing)> {
    v.map_values(|p: (String, Standing)| (p.0@, p.1))
}

/// The number standing for a quality, weakest first.
pub open spec fn quality_rank(q: Quality) -> int {
    match q {
        Quality::Fuzzy => 0,
        Quality::WordStart => 1,
        Quality::Prefix => 2,
    }
}

/// Whether nucleo can match against `haystack`: it refuses, by panicking,
/// anything longer than 2^32 - 1 code points, and the way it reads a string
/// never counts more of them than the string has bytes in UTF-8.
pub open spec fn matchable(haystack: Seq<char>) -> bool {
    utf8_len(haystack) <= u32::MAX
}

/// How a field matched, if it did: its quality weighed with the field
/// (command 2, description 1, tags 0, so that quality decides first and the
/// field second), and nucleo's score for it. A field too long for nucleo to
/// match against is left out, as if it did not match.
pub open spec fn field_hit(haystack: Seq<char>, query: Seq<char>, weight: int) -> Option<(int, u32)> {
    if !matchable(haystack) {
        None
    } else {
        match fuzzy_score(haystack, query) {
            Some(f) => Some((3 * quality_rank(quality(haystack, query)) + weight, f)),
            None => None,
        }
    }
}

/// Whether nucleo can match against `haystack`, counted without overflow.
fn fits_matcher(haystack: &str) -> (r: bool)
    ensures
        r == matchable(haystack@),
{
    let s = chars_of(haystack);
    let mut total: u64 = 0;
    let mut i: usize = 0;
    assert(s@.take(0) =~= Seq::<char>::empty());
    while i < s.len()
        invariant
            i <= s@.len(),
            s@ == haystack@,
            total == utf8_len(s@.take(i as int)),
            total <= u32::MAX,
        decreases s@.len() - i,
    {
        assert(s@.take(i + 1).drop_last() =~= s@.take(i as int));
        total = total + crate::params::width_of(s[i]) as u64;
        if total > u32::MAX as u64 {
            proof {
                crate::params::lemma_utf8_prefix(s@, i + 1);
            }
            return false;
        }
        i += 1;
    }
    assert(s@.take(i as int) =~= s@);
    true
}

/// The stronger of two field matches, the later one on a tie.
pub open spec fn stronger(a: Option<(int, u32)>, b: Option<(int, u32)>) -> Option<(int, u32)> {
    match a {
        None => b,
        Some(x) => match b {
            None => a,
            Some(y) => if y.0 >= x.0 {
                b
            } else {
                a
            },
        },
    }
}

/// The strongest match across the command, the description and the tags.
pub open spec fn best_hit(e: EntryView, cmd: Seq<char>, query: Seq<char>) -> Option<(int, u32)> {
    stronger(
        stronger(field_hit(cmd, query, 2), field_hit(e.desc, query, 1)),
        field_hit(joined_with(e.tags, ' '), query, 0),
    )
}

/// Everything the ordering depends on, highest wins.
#[derive(Debug, Clone, Copy)]
pub struct Rank {
    /// 0 without a query; otherwise one more than the weighed match.
    pub quality: u64,
    pub pinned: bool,
    /// User entries outrank builtins only while the query is empty: 0 while
    /// searching, one more than the layer's rank otherwise.
    pub layer: u64,
    pub frecency: u64,
    pub fuzzy: u32,
}

/// How `e`, offering `cmd`, ranks for the trimmed query `q`, or `None` when
/// it does not match.
pub open spec fn rank_of(e: EntryView, cmd: Seq<char>, scores: Seq<(Seq<char>, Standing)>, q: Seq<char>) -> Option<Rank> {
    let s = standing_of(scores, e.id);
    let pinned = match s {
        Some(t) => t.pinned,
        None => false,
    };
    let frecency = match s {
        Some(t) => t.frecency,
        None => 0u64,
    };
    if q.len() == 0 {
        Some(Rank { quality: 0, pinned, layer: (1 + layer_rank(e.layer)) as u64, frecency, fuzzy: 0 })
    } else {
        match best_hit(e, cmd, q) {
            None => None,
            Some(h) => Some(Rank { quality: (1 + h.0) as u64, pinned, layer: 0, frecency, fuzzy: h.1 }),
        }
    }
}

/// Whether `a` outranks `b`, comparing quality, pinning, layer, frecency and
/// fuzzy score in turn.
pub open spec fn outranks(a: Rank, b: Rank) -> bool {
    if a.quality != b.quality {
        a.quality > b.quality
    } else if a.pinned != b.pinned {
        a.pinned
    } else if a.layer != b.layer {
        a.layer > b.layer
    } else if a.frecency != b.frecency {
        a.frecency > b.frecency
    } else {
        a.fuzzy > b.fuzzy
    }
}

pub open spec fn same_rank(a: Rank, b: Rank) -> bool {
    a.quality == b.quality && a.pinned == b.pinned && a.layer == b.layer && a.frecency == b.frecency
        && a.fuzzy == b.fuzzy
}

/// What the ordering reads of the candidates: each entry with its command.
pub open spec fn candidate_views(cs: Seq<Candidate>) -> Seq<(EntryView, Seq<char>)> {
    cs.map_values(|c: Candidate| (c.entry@, c.cmd@))
}

/// The rank of candidate `i`.
pub open spec fn rank_at(cs: Seq<(EntryView, Seq<char>)>, scores: Seq<(Seq<char>, Standing)>, q: Seq<char>, i: int) -> Option<Rank> {
    rank_of(cs[i].0, cs[i].1, scores, q)
}

/// Whether candidate `i` comes before candidate `j`: it outranks it, or the
/// two rank alike and its id sorts first, or their ids are the same too and
/// it came first.
pub open spec fn ahead(cs: Seq<(EntryView, Seq<char>)>, scores: Seq<(Seq<char>, Standing)>, q: Seq<char>, i: int, j: int) -> bool {
    let a = rank_at(cs, scores, q, i).unwrap();
    let b = rank_at(cs, scores, q, j).unwrap();
    outranks(a, b) || (same_rank(a, b) && (id_lt(cs[i].0.id, cs[j].0.id) || (cs[i].0.id == cs[j].0.id && i < j)))
}

/// Whether `r` lists exactly the candidates that match `q`, best first.
pub open spec fn ranking(cs: Seq<(EntryView, Seq<char>)>, scores: Seq<(Seq<char>, Standing)>, q: Seq<char>, r: Seq<usize>) -> bool {
    &&& forall|k: int| 0 <= k < r.len() ==> (#[trigger] r[k]) < cs.len() && rank_at(cs, scores, q, r[k] as int) is Some
    &&& forall|i: int| 0 <= i < cs.len() && (#[trigger] rank_at(cs, scores, q, i)) is Some ==> r.contains(i as usize)
    &&& forall|a: int, b: int| 0 <= a < b < r.len() ==> ahead(cs, scores, q, #[trigger] r[a] as int, #[trigger] r[b] as int)
}

proof fn lemma_ahead_irreflexive(cs: Seq<(EntryView, Seq<char>)>, scores: Seq<(Seq<char>, Standing)>, q: Seq<char>, i: int)
    ensures
        !ahead(cs, scores, q, i, i),
{
    lemma_id_lt_irreflexive(cs[i].0.id);
}

proof fn lemma_ahead_transitive(cs: Seq<(EntryView, Seq<char>)>, scores: Seq<(Seq<char>, Standing)>, q: Seq<char>, i: int, j: int, k: int)
    requires
        ahead(cs, scores, q, i, j),
        ahead(cs, scores, q, j, k),
    ensures
        ahead(cs, scores, q, i, k),
{
    let a = rank_at(cs, scores, q, i).unwrap();
    let b = rank_at(cs, scores, q, j).unwrap();
    let c = rank_at(cs, scores, q, k).unwrap();
    if same_rank(a, b) && same_rank(b, c) {
        let (x, y, z) = (cs[i].0.id, cs[j].0.id, cs[k].0.id);
        if id_lt(x, y) && id_lt(y, z) {
            lemma_id_lt_transitive(x, y, z);
        }
    }
}

proof fn lemma_ahead_total(cs: Seq<(EntryView, Seq<char>)>, scores: Seq<(Seq<char>, Standing)>, q: Seq<char>, i: int, j: int)
    requires
        i != j,
        !ahead(cs, scores, q, i, j),
    ensures
        ahead(cs, scores, q, j, i),
{
    lemma_id_lt_total(cs[i].0.id, cs[j].0.id);
}

/// A list strictly ordered by `ahead` lists each candidate once.
proof fn lemma_sorted_distinct(cs: Seq<(EntryView, Seq<char>)>, scores: Seq<(Seq<char>, Standing)>, q: Seq<char>, r: Seq<usize>)
    requires
        forall|a: int, b: int| 0 <= a < b < r.len() ==> ahead(cs, scores, q, #[trigger] r[a] as int, #[trigger] r[b] as int),
    ensures
        forall|a: int, b: int| 0 <= a < b < r.len() ==> r[a] != r[b],
{
    assert forall|a: int, b: int| 0 <= a < b < r.len() implies r[a] != r[b] by {
        if r[a] == r[b] {
            assert(ahead(cs, scores, q, r[a] as int, r[b] as int));
            lemma_ahead_irreflexive(cs, scores, q, r[a] as int);
        }
    }
}

proof fn lemma_sorted_same(
    cs: Seq<(EntryView, Seq<char>)>,
    scores: Seq<(Seq<char>, Standing)>,
    q: Seq<char>,
    r1: Seq<usize>,
    r2: Seq<usize>,
)
    requires
        forall|a: int, b: int| 0 <= a < b < r1.len() ==> ahead(cs, scores, q, #[trigger] r1[a] as int, #[trigger] r1[b] as int),
        forall|a: int, b: int| 0 <= a < b < r2.len() ==> ahead(cs, scores, q, #[trigger] r2[a] as int, #[trigger] r2[b] as int),
        forall|x: usize| r1.contains(x) <==> r2.contains(x),
    ensures
        r1 == r2,
    decreases r1.len(),
{
    if r1.len() == 0 {
        if r2.len() > 0 {
            assert(r2.contains(r2[0]));
        }
        assert(r1 =~= r2);
    } else {
        assert(r1.contains(r1[0]));
        assert(r2.len() > 0);
        assert(r2.contains(r2[0]));
        let i = choose|i: int| 0 <= i < r2.len() && r2[i] == r1[0];
        let j = choose|j: int| 0 <= j < r1.len() && r1[j] == r2[0];
        if i > 0 && j > 0 {
            assert(ahead(cs, scores, q, r2[0] as int, r2[i] as int));
            assert(ahead(cs, scores, q, r1[0] as int, r1[j] as int));
            lemma_ahead_transitive(cs, scores, q, r1[0] as int, r2[0] as int, r1[0] as int);
            lemma_ahead_irreflexive(cs, scores, q, r1[0] as int);
        }
        if i == 0 {
            assert(r1[0] == r2[0]);
        } else {
            assert(j == 0);
            assert(r1[0] == r2[0]);
        }
        lemma_sorted_distinct(cs, scores, q, r1);
        lemma_sorted_distinct(cs, scores, q, r2);
        let t1 = r1.drop_first();
        let t2 = r2.drop_first();
        assert forall|x: usize| t1.contains(x) <==> t2.contains(x) by {
            if t1.contains(x) {
                let k = choose|k: int| 0 <= k < t1.len() && t1[k] == x;
                assert(r1[k + 1] == x && r1[0] != x);
                assert(r2.contains(x));
                let m = choose|m: int| 0 <= m < r2.len() && r2[m] == x;
                assert(m != 0);
                assert(t2[m - 1] == x);
            }
            if t2.contains(x) {
                let k = choose|k: int| 0 <= k < t2.len() && t2[k] == x;
                assert(r2[k + 1] == x && r2[0] != x);
                assert(r1.contains(x));
                let m = choose|m: int| 0 <= m < r1.len() && r1[m] == x;
                assert(m != 0);
                assert(t1[m - 1] == x);
            }
        }
        assert forall|a: int, b: int| 0 <= a < b < t1.len() implies ahead(cs, scores, q, #[trigger] t1[a] as int, #[trigger] t1[b] as int) by {
            assert(t1[a] == r1[a + 1] && t1[b] == r1[b + 1]);
        }
        assert forall|a: int, b: int| 0 <= a < b < t2.len() implies ahead(cs, scores, q, #[trigger] t2[a] as int, #[trigger] t2[b] as int) by {
            assert(t2[a] == r2[a + 1] && t2[b] == r2[b + 1]);
        }
        lemma_sorted_same(cs, scores, q, t1, t2);
        assert(r1.len() == r2.len());
        assert forall|k: int| 0 <= k < r1.len() implies r1[k] == r2[k] by {
            if k > 0 {
                assert(r1[k] == t1[k - 1]);
                assert(r2[k] == t2[k - 1]);
            }
        }
        assert(r1 =~= r2);
    }
}

/// The ordering is a function of what it is given: two rankings of the same
/// candidates, standings and query are the same list, so the order a picker
/// shows never depends on anything the user cannot see.
pub proof fn lemma_ranking_unique(
    cs: Seq<(EntryView, Seq<char>)>,
    scores: Seq<(Seq<char>, Standing)>,
    q: Seq<char>,
    r1: Seq<usize>,
    r2: Seq<usize>,
)
    requires
        ranking(cs, scores, q, r1),
        ranking(cs, scores, q, r2),
    ensures
        r1 == r2,
{
    assert forall|x: usize| r1.contains(x) <==> r2.contains(x) by {
        if r1.contains(x) {
            let k = choose|k: int| 0 <= k < r1.len() && r1[k] == x;
            assert(rank_at(cs, scores, q, r1[k] as int) is Some);
        }
        if r2.contains(x) {
            let k = choose|k: int| 0 <= k < r2.len() && r2[k] == x;
            assert(rank_at(cs, scores, q, r2[k] as int) is Some);
        }
    }
    lemma_sorted_same(cs, scores, q, r1, r2);
}

/// Whether the standings recorded in `scores` pin the entry `id`.
pub open spec fn pinned_in(scores: Seq<(Seq<char>, Standing)>, id: Seq<char>) -> bool {
    standing_of(scores, id) matches Some(t) && t.pinned
}

/// Pinning counts whether or not a query is typed: the rank of a matching
/// entry records the pin its standing holds, and of two candidates that match
/// with the same quality, a pinned one comes before one that is not, in the
/// order the picker shows.
pub proof fn lemma_pinned_first(
    cs: Seq<(EntryView, Seq<char>)>,
    scores: Seq<(Seq<char>, Standing)>,
    q: Seq<char>,
    r: Seq<usize>,
    i: int,
    j: int,
)
    requires
        cs.len() <= usize::MAX,
        0 <= i < cs.len(),
        0 <= j < cs.len(),
        rank_at(cs, scores, q, i) is Some,
        rank_at(cs, scores, q, j) is Some,
        rank_at(cs, scores, q, i).unwrap().quality == rank_at(cs, scores, q, j).unwrap().quality,
        pinned_in(scores, cs[i].0.id),
        !pinned_in(scores, cs[j].0.id),
    ensures
        rank_at(cs, scores, q, i).unwrap().pinned,
        !rank_at(cs, scores, q, j).unwrap().pinned,
        ahead(cs, scores, q, i, j),
        ranking(cs, scores, q, r) ==> exists|x: int, y: int|
            0 <= x < y < r.len() && #[trigger] r[x] == i as usize && #[trigger] r[y] == j as usize,
{
    assert(cs[i].0.id != cs[j].0.id);
    assert(i != j);
    let a = rank_at(cs, scores, q, i).unwrap();
    let b = rank_at(cs, scores, q, j).unwrap();
    assert(a.pinned && !b.pinned);
    assert(outranks(a, b));
    assert(ahead(cs, scores, q, i, j));
    if ranking(cs, scores, q, r) {
        assert(r.contains(i as usize));
        assert(r.contains(j as usize));
        let x = choose|x: int| 0 <= x < r.len() && r[x] == i as usize;
        let y = choose|y: int| 0 <= y < r.len() && r[y] == j as usize;
        assert(x != y);
        if y < x {
            assert(ahead(cs, scores, q, r[y] as int, r[x] as int));
            assert(ahead(cs, scores, q, j, i));
            lemma_ahead_transitive(cs, scores, q, i, j, i);
            lemma_ahead_irreflexive(cs, scores, q, i);
        }
        assert(x < y);
    }
}

/// `a` and `b` as `outranks` compares them.
fn rank_before(a: &Rank, b: &Rank) -> (r: (bool, bool))
    ensures
        r.0 == outranks(*a, *b),
        r.1 == same_rank(*a, *b),
{
    if a.quality != b.quality {
        (a.quality > b.quality, false)
    } else if a.pinned != b.pinned {
        (a.pinned, false)
    } else if a.layer != b.layer {
        (a.layer > b.layer, false)
    } else if a.frecency != b.frecency {
        (a.frecency > b.frecency, false)
    } else {
        (a.fuzzy > b.fuzzy, a.fuzzy == b.fuzzy)
    }
}

/// The tags of an entry, one after another with a space between.
fn joined_tags(tags: &Vec<String>) -> (r: String)
    ensures
        r@ == joined_with(string_views(tags@), ' '),
{
    let mut parts: Vec<Vec<char>> = Vec::new();
    let mut i: usize = 0;
    while i < tags.len()
        invariant
            i <= tags@.len(),
            views(parts@) == string_views(tags@).take(i as int),
        decreases tags@.len() - i,
    {
        let ghost before = parts@;
        let c = chars_of(tags[i].as_str());
        let ghost cv = c@;
        parts.push(c);
        proof {
            crate::text::lemma_views_push(before, c);
        }
        assert(string_views(tags@).take(i + 1) =~= string_views(tags@).take(i as int).push(tags@[i as int]@));
        i += 1;
    }
    assert(string_views(tags@).take(i as int) =~= string_views(tags@));
    string_of(&join_with(&parts, ' '))
}

/// The standing recorded for `id`.
pub fn find_standing(scores: &[(String, Standing)], id: &str) -> (r: Option<Standing>)
    ensures
        r == standing_of(score_views(scores@), id@),
{
    let ghost all = score_views(scores@);
    let mut i: usize = 0;
    assert(all.skip(0) =~= all);
    while i < scores.len()
        invariant
            i <= scores@.len(),
            all == score_views(scores@),
            standing_of(all.skip(i as int), id@) == standing_of(all, id@),
        decreases scores@.len() - i,
    {
        assert(all.skip(i as int).drop_first() =~= all.skip(i + 1));
        assert(all.skip(i as int)[0] == all[i as int]);
        if crate::text::same(&chars_of(scores[i].0.as_str()), &chars_of(id)) {
            return Some(scores[i].1);
        }
        i += 1;
    }
    None
}

/// The order in which entries are offered, and where a query matched.
pub struct Ranker {
    matcher: Matcher,
}

impl Ranker {
    pub fn new() -> (r: Ranker) {
        Ranker { matcher: new_matcher() }
    }

    /// How `haystack` matched `query`, weighed with `weight`.
    fn hit(&mut self, haystack: &str, query: &str, weight: u64) -> (r: Option<(u64, u32)>)
        requires
            weight < 3,
        ensures
            match (r, field_hit(haystack@, query@, weight as int)) {
                (Some(x), Some(y)) => x.0 == y.0 && x.1 == y.1,
                (None, None) => true,
                _ => false,
            },
    {
        if !fits_matcher(haystack) {
            return None;
        }
        match score_with(&mut self.matcher, haystack, query) {
            None => None,
            Some(f) => {
                let q = match quality_of(haystack, query) {
                    Quality::Fuzzy => 0u64,
                    Quality::WordStart => 1u64,
                    Quality::Prefix => 2u64,
                };
                Some((3 * q + weight, f))
            },
        }
    }

    /// The rank of one candidate for the trimmed query `q`.
    fn rank_one(&mut self, candidate: &Candidate, scores: &[(String, Standing)], q: &str) -> (r: Option<Rank>)
        ensures
            r == rank_of(candidate.entry@, candidate.cmd@, score_views(scores@), q@),
    {
        let s = find_standing(scores, candidate.entry.id.as_str());
        let pinned = match s {
            Some(t) => t.pinned,
            None => false,
        };
        let frecency = match s {
            Some(t) => t.frecency,
            None => 0u64,
        };
        if chars_of(q).len() == 0 {
            let layer: u64 = match candidate.entry.layer {
                crate::model::Layer::Builtin => 1,
                crate::model::Layer::Project => 2,
                crate::model::Layer::User => 3,
            };
            return Some(Rank { quality: 0, pinned, layer, frecency, fuzzy: 0 });
        }
        let tags = joined_tags(&candidate.entry.tags);
        let c = self.hit(candidate.cmd, q, 2);
        let d = self.hit(candidate.entry.desc.as_str(), q, 1);
        let t = self.hit(tags.as_str(), q, 0);
        let cd = match (c, d) {
            (None, _) => d,
            (_, None) => c,
            (Some(x), Some(y)) => if y.0 >= x.0 {
                d
            } else {
                c
            },
        };
        let best = match (cd, t) {
            (None, _) => t,
            (_, None) => cd,
            (Some(x), Some(y)) => if y.0 >= x.0 {
                t
            } else {
                cd
            },
        };
        match best {
            None => None,
            Some(h) => Some(Rank { quality: 1 + h.0, pinned, layer: 0, frecency, fuzzy: h.1 }),
        }
    }

    /// Whether candidate `i` comes before candidate `j`.
    fn is_ahead(candidates: &[Candidate], keys: &Vec<Option<Rank>>, i: usize, j: usize) -> (r: bool)
        requires
            i < candidates@.len(),
            j < candidates@.len(),
            keys@.len() == candidates@.len(),
            keys@[i as int] is Some,
            keys@[j as int] is Some,
        ensures
            ({
                let a = keys@[i as int].unwrap();
                let b = keys@[j as int].unwrap();
                let ia = candidates@[i as int].entry@.id;
                let ib = candidates@[j as int].entry@.id;
                r == (outranks(a, b) || (same_rank(a, b) && (id_lt(ia, ib) || (ia == ib && i < j))))
            }),
    {
        let a = keys[i].unwrap();
        let b = keys[j].unwrap();
        let (over, same) = rank_before(&a, &b);
        if over {
            return true;
        }
        if !same {
            return false;
        }
        let x = candidates[i].entry.id.as_str();
        let y = candidates[j].entry.id.as_str();
        if id_before(x, y) {
            return true;
        }
        if id_before(y, x) {
            proof {
                lemma_id_lt_irreflexive(x@);
            }
            assert(x@ != y@);
            return false;
        }
        proof {
            lemma_id_lt_total(x@, y@);
        }
        i < j
    }

    /// Indices into `candidates`, best first, with non-matching entries
    /// removed.
    #[verifier::rlimit(40)]
    pub fn rank(&mut self, candidates: &[Candidate], scores: &[(String, Standing)], query: &str) -> (r: Vec<usize>)
        ensures
            ranking(candidate_views(candidates@), score_views(scores@), trim(query@), r@),
    {
        let ghost cs = candidate_views(candidates@);
        let ghost sc = score_views(scores@);
        let q = string_of(&trimmed(&chars_of(query)));
        let ghost tq = trim(query@);
        let mut keys: Vec<Option<Rank>> = Vec::new();
        let mut n: usize = 0;
        while n < candidates.len()
            invariant
                n <= candidates@.len(),
                q@ == tq,
                cs == candidate_views(candidates@),
                sc == score_views(scores@),
                keys@.len() == n,
                forall|k: int| 0 <= k < n ==> keys@[k] == #[trigger] rank_at(cs, sc, tq, k),
            decreases candidates@.len() - n,
        {
            let key = self.rank_one(&candidates[n], scores, q.as_str());
            keys.push(key);
            n += 1;
        }
        let mut out: Vec<usize> = Vec::new();
        let mut i: usize = 0;
        while i < candidates.len()
            invariant
                i <= candidates@.len(),
                cs == candidate_views(candidates@),
                sc == score_views(scores@),
                keys@.len() == candidates@.len(),
                forall|k: int| 0 <= k < candidates@.len() ==> keys@[k] == #[trigger] rank_at(cs, sc, tq, k),
                forall|k: int| 0 <= k < out@.len() ==> (#[trigger] out@[k]) < i && rank_at(cs, sc, tq, out@[k] as int) is Some,
                forall|k: int| 0 <= k < i && (#[trigger] rank_at(cs, sc, tq, k)) is Some ==> out@.contains(k as usize),
                forall|a: int, b: int| 0 <= a < b < out@.len() ==> ahead(cs, sc, tq, #[trigger] out@[a] as int, #[trigger] out@[b] as int),
            decreases candidates@.len() - i,
        {
            if keys[i].is_some() {
                // The first place whose occupant the new candidate comes before.
                let mut p: usize = 0;
                while p < out.len() && !Self::is_ahead(candidates, &keys, i, out[p])
                    invariant
                        p <= out@.len(),
                        keys@.len() == candidates@.len(),
                        i < candidates@.len(),
                        keys@[i as int] is Some,
                        forall|k: int| 0 <= k < candidates@.len() ==> keys@[k] == #[trigger] rank_at(cs, sc, tq, k),
                        forall|k: int| 0 <= k < out@.len() ==> (#[trigger] out@[k]) < i && rank_at(cs, sc, tq, out@[k] as int) is Some,
                        cs == candidate_views(candidates@),
                        forall|k: int| 0 <= k < p ==> ahead(cs, sc, tq, #[trigger] out@[k] as int, i as int),
                    decreases out@.len() - p,
                {
                    proof {
                        let o = out@[p as int] as int;
                        assert(keys@[o] == rank_at(cs, sc, tq, o));
                        assert(cs[o].0.id == candidates@[o].entry@.id);
                        assert(cs[i as int].0.id == candidates@[i as int].entry@.id);
                        assert(!ahead(cs, sc, tq, i as int, o));
                        lemma_ahead_total(cs, sc, tq, i as int, o);
                    }
                    p += 1;
                }
                proof {
                    if p < out@.len() {
                        let o = out@[p as int] as int;
                        assert(keys@[o] == rank_at(cs, sc, tq, o));
                        assert(cs[o].0.id == candidates@[o].entry@.id);
                        assert(cs[i as int].0.id == candidates@[i as int].entry@.id);
                        assert(ahead(cs, sc, tq, i as int, o));
                    }
                }
                let ghost before = out@;
                out.insert(p, i);
                proof {
                    assert(rank_at(cs, sc, tq, i as int) is Some);
                    assert forall|a: int, b: int| 0 <= a < b < out@.len() implies ahead(cs, sc, tq, #[trigger] out@[a] as int, #[trigger] out@[b] as int) by {
                        if a < p && b < p {
                            assert(out@[a] == before[a] && out@[b] == before[b]);
                        } else if a < p && b == p {
                            assert(out@[a] == before[a]);
                        } else if a < p {
                            assert(out@[a] == before[a] && out@[b] == before[b - 1]);
                        } else if a == p {
                            assert(out@[b] == before[b - 1]);
                            assert(ahead(cs, sc, tq, i as int, before[p as int] as int));
                            if b - 1 > p {
                                lemma_ahead_transitive(cs, sc, tq, i as int, before[p as int] as int, before[b - 1] as int);
                            }
                        } else {
                            assert(out@[a] == before[a - 1] && out@[b] == before[b - 1]);
                        }
                    }
                    assert forall|k: int| 0 <= k < i + 1 && (#[trigger] rank_at(cs, sc, tq, k)) is Some implies out@.contains(k as usize) by {
                        if k == i {
                            assert(out@[p as int] == i);
                        } else {
                            let m = choose|m: int| 0 <= m < before.len() && before[m] == k as usize;
                            if m < p {
                                assert(out@[m] == k as usize);
                            } else {
                                assert(out@[m + 1] == k as usize);
                            }
                        }
                    }
                    assert forall|k: int| 0 <= k < out@.len() implies (#[trigger] out@[k]) < i + 1 && rank_at(cs, sc, tq, out@[k] as int) is Some by {
                        if k < p {
                            assert(out@[k] == before[k]);
                        } else if k > p {
                            assert(out@[k] == before[k - 1]);
                        }
                    }
                }
            } else {
                proof {
                    assert(rank_at(cs, sc, tq, i as int) is None);
                }
            }
            i += 1;
        }
        out
    }

    /// Character positions in `haystack` that `query` matched, for
    /// highlighting: nucleo's positions in increasing order, each once, and
    /// none at all for an empty query or for a haystack too long for nucleo.
    ///
    /// Called only for the rows actually on screen, so its cost does not
    /// scale with the size of the library.
    pub fn highlight(&mut self, haystack: &str, query: &str) -> (r: Vec<u32>)
        ensures
            trim(query@).len() == 0 || !matchable(haystack@) ==> r@.len() == 0,
            trim(query@).len() > 0 && matchable(haystack@) ==> {
                &&& forall|a: int, b: int| 0 <= a < b < r@.len() ==> r@[a] < r@[b]
                &&& r@.to_set() == fuzzy_positions(haystack@, trim(query@)).to_set()
            },
    {
        let qc = trimmed(&chars_of(query));
        if qc.len() == 0 || !fits_matcher(haystack) {
            return Vec::new();
        }
        let q = string_of(&qc);
        let raw = positions_with(&mut self.matcher, haystack, q.as_str());
        sorted_once(&raw)
    }
}

/// The values of `v` in increasing order, each once.
fn sorted_once(v: &Vec<u32>) -> (r: Vec<u32>)
    ensures
        forall|a: int, b: int| 0 <= a < b < r@.len() ==> r@[a] < r@[b],
        r@.to_set() == v@.to_set(),
{
    let mut out: Vec<u32> = Vec::new();
    let mut i: usize = 0;
    while i < v.len()
        invariant
            i <= v@.len(),
            forall|a: int, b: int| 0 <= a < b < out@.len() ==> out@[a] < out@[b],
            out@.to_set() == v@.take(i as int).to_set(),
        decreases v@.len() - i,
    {
        let x = v[i];
        let mut p: usize = 0;
        while p < out.len() && out[p] < x
            invariant
                p <= out@.len(),
                forall|k: int| 0 <= k < p ==> out@[k] < x,
            decreases out@.len() - p,
        {
            p += 1;
        }
        let ghost before = out@;
        assert(v@.take(i + 1) =~= v@.take(i as int).push(x));
        proof {
            v@.take(i as int).lemma_push_to_set_commute(x);
        }
        if p < out.len() && out[p] == x {
            assert(before.to_set().contains(x));
            assert(v@.take(i + 1).to_set() =~= v@.take(i as int).to_set().insert(x));
        } else {
            out.insert(p, x);
            assert forall|a: int, b: int| 0 <= a < b < out@.len() implies out@[a] < out@[b] by {
                if a < p && b < p {
                    assert(out@[a] == before[a] && out@[b] == before[b]);
                } else if a < p && b == p {
                    assert(out@[a] == before[a]);
                } else if a < p {
                    assert(out@[a] == before[a] && out@[b] == before[b - 1]);
                    assert(before[a] < before[p as int]);
                } else if a == p {
                    assert(out@[b] == before[b - 1]);
                    assert(before[p as int] > x);
                    if b - 1 > p {
                        assert(before[p as int] < before[b - 1]);
                    }
                } else {
                    assert(out@[a] == before[a - 1] && out@[b] == before[b - 1]);
                }
            }
            assert(out@.to_set() =~= before.to_set().insert(x)) by {
                assert forall|y: u32| out@.to_set().contains(y) implies before.to_set().insert(x).contains(y) by {
                    let m = choose|m: int| 0 <= m < out@.len() && out@[m] == y;
                    if m < p {
                        assert(before[m] == y);
                    } else if m > p {
                        assert(before[m - 1] == y);
                    }
                }
                assert forall|y: u32| before.to_set().insert(x).contains(y) implies out@.to_set().contains(y) by {
                    if y == x {
                        assert(out@[p as int] == x);
                    } else {
                        let m = choose|m: int| 0 <= m < before.len() && before[m] == y;
                        if m < p {
                            assert(out@[m] == y);
                        } else {
                            assert(out@[m + 1] == y);
                        }
                    }
                }
            }
            assert(v@.take(i + 1).to_set() =~= v@.take(i as int).to_set().insert(x));
        }
        i += 1;
    }
    assert(v@.take(i as int) =~= v@);
    out
}

} // verus!
