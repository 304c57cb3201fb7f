//! How the picker lays out its rows, inputs and hints.

use vstd::prelude::*;
use vstd::relations::{sorted_by, total_ordering};

use crate::model::{body_for, Layer};
use crate::params::{distinct_names, placeholders, string_views};
use crate::text::{chars_of, owned, string_of, trim};
use crate::store::definitions::{derived_tags, merge_tags, purpose_parts, split_purpose, with_new};
use crate::text::words;
use crate::tui::app::{
    joined_by, param_desc, row_entry_of, saved_in, template_of, App, Mode, ModeView, Save, SaveStep,
    SaveView,
};
use crate::tui::form::{Field, FieldView};

verus! {

broadcast use vstd::string::group_string_axioms;

/// Width of the selection marker, the pin and destructive slots, and the
/// space separating them from the command.
pub const MARKERS: usize = 5;

/// Most of a row the command column may take, in percent, however wide the
/// commands are.
pub const COMMAND_CAP: usize = 60;

/// Share of the matching commands the column is sized to hold in full, in
/// percent.
pub const COMMAND_PERCENTILE: usize = 80;

/// Space between a command and its description.
pub const GAP: &'static str = "   ";

/// Marks text cut short.
pub const ELLIPSIS: &'static str = "..";

/// Indent of the form block, and the width its labels are given.
pub const INDENT: &'static str = "  ";
pub const LABEL: usize = 14;

/// Widest a form input is drawn, however wide the terminal is.
///
/// A rail running the whole width of a large terminal reads as a rule rather
/// than as somewhere to type.
pub const RAIL_MAX: usize = 60;

/// Space between one hint and the next, wide enough that it cannot be read as
/// the single space inside one.
pub const HINT_GAP: &'static str = "   ";

/// Column widths shared by every row of a frame.
#[derive(Debug, Clone, Copy)]
pub struct Columns {
    pub command: usize,
    pub room: usize,
}

pub open spec fn ints(s: Seq<usize>) -> Seq<int> {
    s.map_values(|x: usize| x as int)
}

pub open spec fn leq(x: int, y: int) -> bool {
    x <= y
}

/// The length the command column is sized for: the one that 80 percent of the
/// commands are no longer than, or nothing when there are none.
pub open spec fn typical(lengths: Seq<usize>) -> int {
    if lengths.len() == 0 {
        0
    } else {
        ints(lengths).sort()[(lengths.len() * COMMAND_PERCENTILE / 100) as int]
    }
}

/// `x` kept between `lo` and `hi`.
pub open spec fn clamp(x: int, lo: int, hi: int) -> int {
    if x < lo {
        lo
    } else if x > hi {
        hi
    } else {
        x
    }
}

/// The room a row of `width` leaves after its markers.
pub open spec fn room_of(width: int) -> int {
    if width > MARKERS {
        width - MARKERS
    } else {
        0
    }
}

/// The widest the command column may be in that room.
pub open spec fn cap_of(room: int) -> int {
    if room * COMMAND_CAP / 100 < 1 {
        1
    } else {
        room * COMMAND_CAP / 100
    }
}

fn sorted_lengths(v: &[usize]) -> (r: Vec<usize>)
    ensures
        ints(r@) == ints(v@).sort(),
{
    let mut out: Vec<usize> = Vec::new();
    let mut i: usize = 0;
    assert(ints(v@.take(0)) =~= ints(out@));
    while i < v.len()
        invariant
            i <= v@.len(),
            forall|a: int, b: int| 0 <= a < b < out@.len() ==> #[trigger] out@[a] <= #[trigger] out@[b],
            ints(out@).to_multiset() == ints(v@.take(i as int)).to_multiset(),
        decreases v@.len() - i,
    {
        let x = v[i];
        let mut pos: usize = 0;
        while pos < out.len() && out[pos] <= x
            invariant
                pos <= out@.len(),
                forall|k: int| 0 <= k < pos ==> out@[k] <= x,
            decreases out@.len() - pos,
        {
            pos += 1;
        }
        let ghost before = ints(out@);
        let ghost old_out = out@;
        out.insert(pos, x);
        assert(ints(out@) =~= before.insert(pos as int, x as int));
        assert(forall|k: int| 0 <= k < old_out.len() ==> before[k] == old_out[k] as int);
        proof {
            vstd::seq_lib::to_multiset_insert(before, pos as int, x as int);
            vstd::seq_lib::to_multiset_build(ints(v@.take(i as int)), x as int);
            assert(ints(v@.take(i + 1)) =~= ints(v@.take(i as int)).push(x as int));
        }
        assert forall|a: int, b: int| 0 <= a < b < out@.len() implies #[trigger] out@[a]
            <= #[trigger] out@[b] by {
            if b < pos {
                assert(out@[a] == before[a] && out@[b] == before[b]);
            } else if b == pos {
                assert(out@[a] == before[a]);
            } else if a < pos {
                assert(out@[a] == before[a] && out@[b] == before[b - 1]);
                if a < b - 1 {
                    assert(before[a] <= before[b - 1]);
                }
            } else if a == pos {
                assert(out@[b] == before[b - 1]);
                if pos < b - 1 {
                    assert(before[pos as int] <= before[b - 1]);
                }
            } else {
                assert(out@[a] == before[a - 1] && out@[b] == before[b - 1]);
            }
        }
        i += 1;
    }
    assert(v@.take(i as int) =~= v@);
    proof {
        ints(v@).lemma_sort_ensures();
        let f = |x: int, y: int| x <= y;
        assert(total_ordering(f));
        assert(sorted_by(ints(out@), f)) by {
            assert forall|a: int, b: int| 0 <= a < b < ints(out@).len() implies #[trigger] f(
                ints(out@)[a],
                ints(out@)[b],
            ) by {
                assert(out@[a] <= out@[b]);
            }
        }
        vstd::seq_lib::lemma_sorted_unique(ints(out@), ints(v@).sort(), f);
    }
    out
}

/// `share` percent of `n`, rounded down.
fn percent(n: usize, share: usize) -> (r: usize)
    requires
        share <= 100,
    ensures
        r == n * share / 100,
        r <= n,
        n > 0 && share < 100 ==> r < n,
{
    let q = n / 100;
    let m = n % 100;
    assert(q * share <= n && m * share <= 9900) by (nonlinear_arith)
        requires
            q == n / 100,
            m == n % 100,
            n >= 0,
            0 <= share <= 100,
    ;
    assert(q * share + m * share / 100 <= n) by (nonlinear_arith)
        requires
            q == n / 100,
            m == n % 100,
            n >= 0,
            0 <= share <= 100,
    ;
    let r = q * share + m * share / 100;
    assert(r == n * share / 100) by (nonlinear_arith)
        requires
            q == n / 100,
            m == n % 100,
            r == q * share + m * share / 100,
            n >= 0,
            0 <= share <= 100,
    ;
    assert(r <= n) by (nonlinear_arith)
        requires
            r == n * share / 100,
            n >= 0,
            0 <= share <= 100,
    ;
    assert(n > 0 && share < 100 ==> r < n) by (nonlinear_arith)
        requires
            r == n * share / 100,
            n >= 0,
            0 <= share <= 100,
    ;
    r
}

impl Columns {
    /// Sizes the command column so that most of the matching commands fit.
    ///
    /// Sizing to the longest would let one outlier hold the column open and
    /// push every description away from its command; the outlier is
    /// truncated instead.
    pub fn fit(lengths: &[usize], width: usize) -> (r: Columns)
        ensures
            r.room == room_of(width as int),
            r.command == clamp(typical(lengths@), 1, cap_of(room_of(width as int))),
    {
        let room = if width > MARKERS {
            width - MARKERS
        } else {
            0
        };
        let scaled = percent(room, COMMAND_CAP);
        let cap = if scaled < 1 {
            1
        } else {
            scaled
        };
        let sorted = sorted_lengths(lengths);
        proof {
            ints(lengths@).lemma_sort_ensures();
            vstd::seq_lib::to_multiset_len(ints(lengths@));
            vstd::seq_lib::to_multiset_len(ints(lengths@).sort());
        }
        assert(ints(sorted@).len() == lengths@.len());
        let typical: usize = if sorted.len() == 0 {
            0
        } else {
            let at = percent(sorted.len(), COMMAND_PERCENTILE);
            assert(ints(sorted@)[at as int] == sorted@[at as int] as int);
            sorted[at]
        };
        let command = if typical < 1 {
            1
        } else if typical > cap {
            cap
        } else {
            typical
        };
        Columns { command, room }
    }

    /// The room left for the description after the command and the gap.
    pub fn description(&self) -> (r: usize)
        ensures
            r == if self.room >= self.command + 3 {
                self.room - self.command - 3
            } else {
                0
            },
    {
        if self.command <= self.room && self.room - self.command >= 3 {
            self.room - self.command - 3
        } else {
            0
        }
    }
}

/// `text` cut to `width` characters, ending in `..` when it had to be cut.
pub open spec fn truncated(text: Seq<char>, width: int) -> Seq<char> {
    if text.len() <= width {
        text
    } else if width >= 2 {
        text.take(width - 2) + ".."@
    } else {
        seq![]
    }
}

/// `text` cut to `width` characters.
pub fn truncate(text: &str, width: usize) -> (r: String)
    ensures
        r@ == truncated(text@, width as int),
{
    let cs = chars_of(text);
    if cs.len() <= width {
        return string_of(&cs);
    }
    if width >= 2 {
        let mut out = crate::text::slice(&cs, 0, width - 2);
        crate::text::extend_str(&mut out, "..");
        string_of(&out)
    } else {
        String::new()
    }
}

/// The last `width` characters of `text`, after `..` when it had to be cut.
pub open spec fn tailed(text: Seq<char>, width: int) -> Seq<char> {
    if text.len() <= width {
        text
    } else if width >= 2 {
        ".."@ + text.skip(text.len() - (width - 2))
    } else {
        seq![]
    }
}

/// The last `width` characters, so a value longer than the rail shows the
/// end being typed rather than a beginning that no longer moves.
pub fn tail(text: &str, width: usize) -> (r: String)
    ensures
        r@ == tailed(text@, width as int),
{
    let cs = chars_of(text);
    let length = cs.len();
    if length <= width {
        return string_of(&cs);
    }
    if width >= 2 {
        let mut out = chars_of("..");
        crate::text::extend(&mut out, &crate::text::slice(&cs, length - (width - 2), length));
        assert(cs@.subrange(length - (width - 2), length as int) =~= cs@.skip(
            length - (width - 2),
        ));
        string_of(&out)
    } else {
        String::new()
    }
}

/// How wide a form input is drawn in a terminal `width` columns wide: what
/// the indents and the label leave, at least one column and at most
/// `RAIL_MAX`.
pub fn rail_width(width: u16) -> (r: usize)
    ensures
        r == clamp(
            if width >= 18 {
                width - 18
            } else {
                0
            },
            1,
            RAIL_MAX as int,
        ),
        1 <= r <= RAIL_MAX,
{
    let room: usize = if width >= 18 {
        (width - 18) as usize
    } else {
        0
    };
    if room < 1 {
        1
    } else if room > RAIL_MAX {
        RAIL_MAX
    } else {
        room
    }
}

/// How many columns a line of hints takes: each chord, a space and its
/// action, with a gap between one hint and the next.
pub open spec fn hint_width(hints: Seq<(Seq<char>, Seq<char>)>) -> int
    decreases hints.len(),
{
    if hints.len() == 0 {
        0
    } else if hints.len() == 1 {
        hints[0].0.len() + 1 + hints[0].1.len() as int
    } else {
        hint_width(hints.drop_last()) + 3 + hints.last().0.len() + 1 + hints.last().1.len() as int
    }
}

pub open spec fn hint_views(v: Seq<(&'static str, &'static str)>) -> Seq<(Seq<char>, Seq<char>)> {
    v.map_values(|h: (&'static str, &'static str)| (h.0@, h.1@))
}

/// The width of a line of hints.
pub fn hints_width(hints: &Vec<(&'static str, &'static str)>) -> (r: usize)
    requires
        hint_width(hint_views(hints@)) <= usize::MAX,
    ensures
        r == hint_width(hint_views(hints@)),
{
    let ghost hv = hint_views(hints@);
    let mut total: usize = 0;
    let mut i: usize = 0;
    while i < hints.len()
        invariant
            i <= hints@.len(),
            hv == hint_views(hints@),
            hint_width(hv) <= usize::MAX,
            total == hint_width(hv.take(i as int)),
        decreases hints@.len() - i,
    {
        proof {
            lemma_hint_width_grows(hv, i as int);
        }
        assert(hv.take(i + 1).drop_last() =~= hv.take(i as int));
        assert(hv.take(i + 1).last() == hv[i as int]);
        let (chord, action) = hints[i];
        let n = chars_of(chord).len() + 1 + chars_of(action).len();
        if i == 0 {
            total = n;
        } else {
            total = total + 3 + n;
        }
        i += 1;
    }
    assert(hv.take(i as int) =~= hv);
    total
}

proof fn lemma_hint_width_grows(hv: Seq<(Seq<char>, Seq<char>)>, i: int)
    requires
        0 <= i < hv.len(),
    ensures
        hint_width(hv.take(i + 1)) <= hint_width(hv),
        hint_width(hv.take(i)) <= hint_width(hv.take(i + 1)),
    decreases hv.len() - i,
{
    assert(hv.take(i + 1).drop_last() =~= hv.take(i));
    if i + 1 < hv.len() {
        lemma_hint_width_grows(hv, i + 1);
    } else {
        assert(hv.take(i + 1) =~= hv);
    }
}

/// Fixed, whatever the shell handed over. A line that changes shape
/// depending on what happened before the picker opened cannot be learned.
pub fn browse_hints() -> (r: Vec<(&'static str, &'static str)>)
    ensures
        hint_views(r@) == seq![
            ("enter"@, "insert"@),
            ("esc"@, "close"@),
            ("^s"@, "save"@),
            ("^e"@, "edit"@),
            ("^p"@, "pin"@),
            ("^x"@, "remove"@),
        ],
        hint_width(hint_views(r@)) <= 80,
{
    let r = vec![
        ("enter", "insert"),
        ("esc", "close"),
        ("^s", "save"),
        ("^e", "edit"),
        ("^p", "pin"),
        ("^x", "remove"),
    ];
    proof {
        reveal_strlit("enter");
        reveal_strlit("insert");
        reveal_strlit("esc");
        reveal_strlit("close");
        reveal_strlit("^s");
        reveal_strlit("save");
        reveal_strlit("^e");
        reveal_strlit("edit");
        reveal_strlit("^p");
        reveal_strlit("pin");
        reveal_strlit("^x");
        reveal_strlit("remove");
    }
    assert(hint_views(r@) =~= seq![
        ("enter"@, "insert"@),
        ("esc"@, "close"@),
        ("^s"@, "save"@),
        ("^e"@, "edit"@),
        ("^p"@, "pin"@),
        ("^x"@, "remove"@),
    ]);
    assert(hint_width(hint_views(r@)) <= 80) by {
        reveal_with_fuel(hint_width, 7);
    }
    r
}

/// What the keys do in a form; escape leaves it, in the way `escape` says.
pub fn form_hints(escape: &'static str) -> (r: Vec<(&'static str, &'static str)>)
    ensures
        hint_views(r@) == seq![("enter"@, "next"@), ("esc"@, escape@), ("^u"@, "clear"@)],
{
    let r = vec![("enter", "next"), ("esc", escape), ("^u", "clear")];
    assert(hint_views(r@) =~= seq![("enter"@, "next"@), ("esc"@, escape@), ("^u"@, "clear"@)]);
    r
}

/// The screens that write something can be submitted from any field, so the
/// chord that does it belongs on the line. The placeholder screen has no such
/// chord: what it does at the end is insert a command, not save one.
pub fn saving_hints() -> (r: Vec<(&'static str, &'static str)>)
    ensures
        hint_views(r@) == seq![
            ("enter"@, "next"@),
            ("esc"@, "cancel"@),
            ("^u"@, "clear"@),
            ("^s"@, "save"@),
        ],
        hint_width(hint_views(r@)) <= 80,
{
    let mut r = form_hints("cancel");
    let ghost before = r@;
    r.push(("^s", "save"));
    assert(hint_views(r@) =~= hint_views(before).push(("^s"@, "save"@)));
    proof {
        reveal_strlit("enter");
        reveal_strlit("next");
        reveal_strlit("esc");
        reveal_strlit("cancel");
        reveal_strlit("^u");
        reveal_strlit("clear");
        reveal_strlit("^s");
        reveal_strlit("save");
    }
    assert(hint_width(hint_views(r@)) <= 80) by {
        reveal_with_fuel(hint_width, 5);
    }
    r
}

/// Up means something different on each line of a save, so the line says
/// which.
pub fn save_hints(step: SaveStep) -> (r: Vec<(&'static str, &'static str)>)
    ensures
        hint_views(r@) == match step {
            SaveStep::Command => seq![("enter"@, "next"@), ("up"@, "history"@), ("esc"@, "cancel"@)],
            SaveStep::Purpose => seq![
                ("enter"@, "save"@),
                ("up"@, "back"@),
                ("#word"@, "tag"@),
                ("esc"@, "cancel"@),
            ],
        },
        hint_width(hint_views(r@)) <= 80,
{
    proof {
        reveal_strlit("enter");
        reveal_strlit("next");
        reveal_strlit("up");
        reveal_strlit("history");
        reveal_strlit("esc");
        reveal_strlit("cancel");
        reveal_strlit("save");
        reveal_strlit("back");
        reveal_strlit("#word");
        reveal_strlit("tag");
    }
    match step {
        SaveStep::Command => {
            let r = vec![("enter", "next"), ("up", "history"), ("esc", "cancel")];
            assert(hint_views(r@) =~= seq![("enter"@, "next"@), ("up"@, "history"@), ("esc"@, "cancel"@)]);
            assert(hint_width(hint_views(r@)) <= 80) by {
                reveal_with_fuel(hint_width, 4);
            }
            r
        },
        SaveStep::Purpose => {
            let r = vec![("enter", "save"), ("up", "back"), ("#word", "tag"), ("esc", "cancel")];
            assert(hint_views(r@) =~= seq![
                ("enter"@, "save"@),
                ("up"@, "back"@),
                ("#word"@, "tag"@),
                ("esc"@, "cancel"@),
            ]);
            assert(hint_width(hint_views(r@)) <= 80) by {
                reveal_with_fuel(hint_width, 5);
            }
            r
        },
    }
}


// ---------------------------------------------------------------------------
// What a line is drawn with
// ---------------------------------------------------------------------------

/// The colours the picker draws with.
#[derive(Debug, Clone, Copy, PartialEq, Eq, Structural)]
pub enum Colour {
    Cyan,
    Yellow,
    Red,
    LightYellow,
    DarkGray,
}

/// The cursor's colour. Light yellow rather than one of the darker tones, which
/// disappear on a dark background.
pub const SELECTION: Colour = Colour::LightYellow;

/// What the shipped entries are drawn in, behind the user's own.
pub const BUILTIN: Colour = Colour::DarkGray;

/// How a piece of text is drawn.
#[derive(Debug, Clone, Copy, PartialEq, Eq, Structural)]
pub struct Style {
    pub fg: Option<Colour>,
    pub bold: bool,
    pub underlined: bool,
    pub dim: bool,
}

/// A run of text drawn one way.
#[derive(Debug)]
pub struct Piece {
    pub text: String,
    pub style: Style,
}

pub struct PieceView {
    pub text: Seq<char>,
    pub style: Style,
}

impl View for Piece {
    type V = PieceView;

    open spec fn view(&self) -> PieceView {
        PieceView { text: self.text@, style: self.style }
    }
}

pub open spec fn piece_views(v: Seq<Piece>) -> Seq<PieceView> {
    v.map_values(|p: Piece| p@)
}

pub open spec fn line_views(v: Seq<Vec<Piece>>) -> Seq<Seq<PieceView>> {
    v.map_values(|l: Vec<Piece>| piece_views(l@))
}

pub open spec fn plain_style() -> Style {
    Style { fg: None, bold: false, underlined: false, dim: false }
}

pub open spec fn dim_style() -> Style {
    Style { dim: true, ..plain_style() }
}

pub open spec fn bold_style() -> Style {
    Style { bold: true, ..plain_style() }
}

pub open spec fn fg_style(c: Colour) -> Style {
    Style { fg: Some(c), ..plain_style() }
}

pub fn plain() -> (r: Style)
    ensures
        r == plain_style(),
{
    Style { fg: None, bold: false, underlined: false, dim: false }
}

pub fn dim() -> (r: Style)
    ensures
        r == dim_style(),
{
    Style { fg: None, bold: false, underlined: false, dim: true }
}

pub fn bold() -> (r: Style)
    ensures
        r == bold_style(),
{
    Style { fg: None, bold: true, underlined: false, dim: false }
}

pub fn coloured(c: Colour) -> (r: Style)
    ensures
        r == fg_style(c),
{
    Style { fg: Some(c), bold: false, underlined: false, dim: false }
}

fn piece(text: &str, style: Style) -> (r: Piece)
    ensures
        r@ == (PieceView { text: text@, style }),
{
    Piece { text: owned(text), style }
}

/// `n` spaces.
pub open spec fn spaces(n: int) -> Seq<char> {
    Seq::new(n as nat, |i: int| ' ')
}

/// `n` of the rail's underscores.
pub open spec fn rails(n: int) -> Seq<char> {
    Seq::new(n as nat, |i: int| '_')
}

fn repeated(c: char, n: usize) -> (r: String)
    ensures
        r@ == Seq::new(n as nat, |i: int| c),
{
    let mut out: Vec<char> = Vec::new();
    let mut i: usize = 0;
    while i < n
        invariant
            i <= n,
            out@ == Seq::new(i as nat, |k: int| c),
        decreases n - i,
    {
        out.push(c);
        i += 1;
        assert(out@ =~= Seq::new(i as nat, |k: int| c));
    }
    string_of(&out)
}

// ---------------------------------------------------------------------------
// Highlighted runs
// ---------------------------------------------------------------------------

/// Whether the character at `k` is one the query matched.
pub open spec fn hit(matched: Seq<u32>, k: int) -> bool {
    matched.contains(k as u32)
}

/// `text` cut into runs of matched and unmatched characters, each as long as
/// it can be.
pub open spec fn runs(text: Seq<char>, matched: Seq<u32>) -> Seq<(Seq<char>, bool)>
    decreases text.len(),
{
    if text.len() == 0 {
        seq![]
    } else {
        let before = runs(text.drop_last(), matched);
        let h = hit(matched, text.len() - 1);
        if before.len() > 0 && before.last().1 == h {
            before.update(before.len() - 1, (before.last().0.push(text.last()), h))
        } else {
            before.push((seq![text.last()], h))
        }
    }
}

/// Runs drawn in `accent` where they matched and in `base` elsewhere.
pub open spec fn painted(rs: Seq<(Seq<char>, bool)>, base: Style, accent: Style) -> Seq<PieceView> {
    rs.map_values(
        |r: (Seq<char>, bool)|
            PieceView {
                text: r.0,
                style: if r.1 {
                    accent
                } else {
                    base
                },
            },
    )
}

fn has_index(matched: &[u32], k: u32) -> (r: bool)
    ensures
        r == matched@.contains(k),
{
    let mut i: usize = 0;
    while i < matched.len()
        invariant
            i <= matched@.len(),
            forall|j: int| 0 <= j < i ==> matched@[j] != k,
        decreases matched@.len() - i,
    {
        if matched[i] == k {
            assert(matched@[i as int] == k);
            return true;
        }
        i += 1;
    }
    false
}

/// Splits `text` into runs of matched and unmatched characters.
///
/// One piece per character would work, but every piece becomes its own
/// cursor move in the rendered output, so a long command turns into a great
/// deal of terminal traffic on each keystroke.
pub fn highlighted(text: &str, matched: &[u32], base: Style, accent: Style) -> (r: Vec<Piece>)
    ensures
        piece_views(r@) == painted(runs(text@, matched@), base, accent),
{
    let cs = chars_of(text);
    let mut spans: Vec<Piece> = Vec::new();
    let mut run: Vec<char> = Vec::new();
    let mut run_matched = false;
    let mut i: usize = 0;
    while i < cs.len()
        invariant
            i <= cs@.len(),
            cs@ == text@,
            i == 0 ==> run@.len() == 0 && spans@.len() == 0,
            i > 0 ==> ({
                let rs = runs(cs@.take(i as int), matched@);
                &&& run@.len() > 0
                &&& rs.len() > 0
                &&& rs.last() == (run@, run_matched)
                &&& piece_views(spans@) == painted(rs.drop_last(), base, accent)
            }),
        decreases cs@.len() - i,
    {
        let c = cs[i];
        #[verifier::truncate]
        let k = i as u32;
        let is_match = has_index(matched, k);
        let ghost rs = runs(cs@.take(i as int), matched@);
        assert(cs@.take(i + 1).drop_last() =~= cs@.take(i as int));
        assert(cs@.take(i + 1).last() == c);
        if is_match != run_matched && run.len() > 0 {
            let style = if run_matched {
                accent
            } else {
                base
            };
            let ghost before = spans@;
            spans.push(Piece { text: string_of(&run), style });
            assert(rs =~= rs.drop_last().push(rs.last()));
            assert(painted(rs, base, accent) =~= painted(rs.drop_last(), base, accent).push(
                PieceView { text: run@, style },
            ));
            assert(piece_views(spans@) =~= piece_views(before).push(PieceView { text: run@, style }));
            assert(piece_views(spans@) =~= painted(rs, base, accent));
            run = Vec::new();
        }
        run_matched = is_match;
        run.push(c);
        proof {
            let rs2 = runs(cs@.take(i + 1), matched@);
            if i > 0 && rs.last().1 == is_match {
                assert(rs2.drop_last() =~= rs.drop_last());
            } else if i > 0 {
                assert(rs2.drop_last() =~= rs);
            } else {
                assert(rs2 =~= seq![(seq![c], is_match)]);
                assert(piece_views(spans@) =~= painted(rs2.drop_last(), base, accent));
            }
        }
        i += 1;
    }
    assert(cs@.take(i as int) =~= cs@);
    if run.len() > 0 {
        let style = if run_matched {
            accent
        } else {
            base
        };
        let ghost before = spans@;
        spans.push(Piece { text: string_of(&run), style });
        proof {
            let rs = runs(cs@, matched@);
            assert(rs =~= rs.drop_last().push(rs.last()));
            assert(painted(rs, base, accent) =~= painted(rs.drop_last(), base, accent).push(
                PieceView { text: run@, style },
            ));
            assert(piece_views(spans@) =~= piece_views(before).push(PieceView { text: run@, style }));
            assert(piece_views(spans@) =~= painted(rs, base, accent));
        }
    } else {
        assert(runs(cs@, matched@) =~= Seq::<(Seq<char>, bool)>::empty());
        assert(piece_views(spans@) =~= Seq::<PieceView>::empty());
    }
    spans
}

// ---------------------------------------------------------------------------
// Rows
// ---------------------------------------------------------------------------

/// One row's content, owned so the line outlives the entry it came from.
pub struct RowText {
    pub selected: bool,
    pub cmd: String,
    pub desc: String,
    pub danger: bool,
    pub pinned: bool,
    pub layer: Layer,
}

/// How a row's matched characters are drawn.
pub open spec fn accent_of(selected: bool) -> Style {
    if selected {
        Style { fg: Some(SELECTION), bold: true, underlined: true, dim: false }
    } else {
        Style { fg: Some(Colour::Cyan), bold: true, underlined: false, dim: false }
    }
}

/// How a row's command and description are drawn. Each row is carried in
/// one colour from end to end; the shipped set recedes behind the user's
/// own.
pub open spec fn row_inks(selected: bool, layer: Layer) -> (Style, Style) {
    if selected {
        (fg_style(SELECTION), fg_style(SELECTION))
    } else if layer == Layer::Builtin {
        (fg_style(BUILTIN), fg_style(BUILTIN))
    } else {
        (plain_style(), dim_style())
    }
}

/// The width left for a row's description.
pub open spec fn description_width(columns: Columns) -> int {
    if columns.room >= columns.command + 3 {
        columns.room - columns.command - 3
    } else {
        0
    }
}

/// The pieces of a row: the marker column, then the command and the
/// description columns.
pub open spec fn row_pieces(row: RowText, matched: Seq<u32>, columns: Columns) -> Seq<PieceView> {
    let (cs, ds) = row_inks(row.selected, row.layer);
    let command = truncated(row.cmd@, columns.command as int);
    let room = description_width(columns);
    seq![
        PieceView {
            text: if row.selected {
                "> "@
            } else {
                "  "@
            },
            style: cs,
        },
        PieceView {
            text: if row.pinned {
                "*"@
            } else {
                " "@
            },
            style: fg_style(Colour::Yellow),
        },
        PieceView {
            text: if row.danger {
                "!"@
            } else {
                " "@
            },
            style: fg_style(Colour::Red),
        },
        PieceView { text: " "@, style: plain_style() },
    ] + painted(runs(command, matched), cs, accent_of(row.selected)) + if room > 2 && row.desc@.len()
        > 0 {
        seq![
            PieceView { text: spaces(columns.command - command.len()), style: plain_style() },
            PieceView { text: "   "@ + truncated(row.desc@, room), style: ds },
        ]
    } else {
        seq![]
    }
}

/// One row: a marker column, then the command and description columns.
///
/// The markers occupy a fixed width whether or not the row has any, so a
/// pinned or destructive entry does not shunt its own columns out of line
/// with the rest of the list. Pinning and danger get a slot each: sharing one
/// would let a preference hide a warning.
pub fn row_line(row: &RowText, matched: &[u32], columns: Columns) -> (r: Vec<Piece>)
    ensures
        piece_views(r@) == row_pieces(*row, matched@, columns),
{
    let accent = if row.selected {
        Style { fg: Some(SELECTION), bold: true, underlined: true, dim: false }
    } else {
        Style { fg: Some(Colour::Cyan), bold: true, underlined: false, dim: false }
    };
    let (command_style, description_style) = if row.selected {
        (coloured(SELECTION), coloured(SELECTION))
    } else if row.layer == Layer::Builtin {
        (coloured(BUILTIN), coloured(BUILTIN))
    } else {
        (plain(), dim())
    };
    let mut spans = vec![
        piece(if row.selected { "> " } else { "  " }, command_style),
        piece(if row.pinned { "*" } else { " " }, coloured(Colour::Yellow)),
        piece(if row.danger { "!" } else { " " }, coloured(Colour::Red)),
        piece(" ", plain()),
    ];
    let ghost head = piece_views(spans@);
    let command = truncate(row.cmd.as_str(), columns.command);
    let filled = chars_of(command.as_str()).len();
    proof {
        reveal_strlit("..");
    }
    assert(filled <= columns.command);
    let runs = highlighted(command.as_str(), matched, command_style, accent);
    let ghost rv = piece_views(runs@);
    let mut k: usize = 0;
    let mut rest = runs;
    let mut taken: Vec<Piece> = Vec::new();
    while rest.len() > 0
        invariant
            piece_views(taken@) + piece_views(rest@) == rv,
        decreases rest@.len(),
    {
        let p = rest.remove(0);
        let ghost before = taken@;
        taken.push(p);
        assert(piece_views(taken@) =~= piece_views(before).push(p@));
    }
    assert(piece_views(rest@) =~= Seq::<PieceView>::empty());
    assert(piece_views(taken@) =~= rv);
    spans.append(&mut taken);
    assert(piece_views(spans@) =~= head + rv);
    let room = columns.description();
    let has_desc = chars_of(row.desc.as_str()).len() > 0;
    if room > 2 && has_desc {
        let ghost before = piece_views(spans@);
        let pad = columns.command - filled;
        spans.push(Piece { text: repeated(' ', pad), style: plain() });
        let mut d = owned("   ");
        crate::text::append_str(&mut d, truncate(row.desc.as_str(), room).as_str());
        spans.push(Piece { text: d, style: description_style });
        assert(piece_views(spans@) =~= before + seq![
            PieceView { text: spaces(columns.command - filled), style: plain_style() },
            PieceView { text: "   "@ + truncated(row.desc@, room as int), style: description_style },
        ]);
    }
    spans
}

// ---------------------------------------------------------------------------
// Forms and prompts
// ---------------------------------------------------------------------------

/// `s` padded with spaces to `w` characters, as `{:<w}` writes it.
pub open spec fn padded(s: Seq<char>, w: int) -> Seq<char> {
    if s.len() >= w {
        s
    } else {
        s + spaces(w - s.len())
    }
}

/// The pieces of a form field.
pub open spec fn field_pieces(f: FieldView, focused: bool, rail: int) -> Seq<PieceView> {
    let value = tailed(f.value, rail);
    let filled = value.len();
    let taken = filled + if focused {
        1int
    } else {
        0int
    };
    seq![
        PieceView { text: "  "@, style: plain_style() },
        PieceView {
            text: padded(f.label, LABEL as int),
            style: if focused {
                fg_style(Colour::Cyan)
            } else {
                dim_style()
            },
        },
        PieceView {
            text: value,
            style: if focused {
                bold_style()
            } else {
                plain_style()
            },
        },
    ] + (if focused && filled < rail {
        seq![PieceView { text: "_"@, style: plain_style() }]
    } else {
        seq![]
    }) + seq![
        PieceView {
            text: rails(
                if rail > taken {
                    rail - taken
                } else {
                    0
                },
            ),
            style: dim_style(),
        },
    ]
}

/// One field: its label, its value, and a rail running under the rest of
/// the room it has.
///
/// The rail is what makes an empty field a place rather than nothing at all,
/// and its right edge is where the value stops growing. The caret is the one
/// undimmed link in the rail, so the eye lands on where the next character
/// goes.
pub fn field_line(field: &Field, focused: bool, rail: usize) -> (r: Vec<Piece>)
    ensures
        piece_views(r@) == field_pieces(field@, focused, rail as int),
{
    let value = tail(field.value.as_str(), rail);
    let filled = chars_of(value.as_str()).len();
    let label = chars_of(field.label.as_str()).len();
    let mut padded_label = owned(field.label.as_str());
    if label < LABEL {
        crate::text::append_str(&mut padded_label, repeated(' ', LABEL - label).as_str());
    }
    let mut spans = vec![
        piece(INDENT, plain()),
        Piece {
            text: padded_label,
            style: if focused {
                coloured(Colour::Cyan)
            } else {
                dim()
            },
        },
        Piece {
            text: value,
            style: if focused {
                bold()
            } else {
                plain()
            },
        },
    ];
    if focused && filled < rail {
        spans.push(piece("_", plain()));
    }
    proof {
        reveal_strlit("..");
    }
    assert(filled <= rail);
    let remaining = if rail > filled {
        if focused {
            rail - filled - 1
        } else {
            rail - filled
        }
    } else {
        0
    };
    spans.push(Piece { text: repeated('_', remaining), style: dim() });
    proof {
        let f = field@;
        assert(piece_views(spans@) =~= field_pieces(f, focused, rail as int));
    }
    spans
}

/// The pieces of a labelled line of text, with a caret when it is the one
/// being typed into.
pub open spec fn prompt_pieces(label: Seq<char>, text: Seq<char>, active: bool) -> Seq<PieceView> {
    if active {
        seq![
            PieceView { text: label, style: fg_style(Colour::Cyan) },
            PieceView { text, style: bold_style() },
            PieceView { text: "_"@, style: dim_style() },
        ]
    } else {
        seq![
            PieceView { text: label, style: fg_style(Colour::Cyan) },
            PieceView { text, style: plain_style() },
        ]
    }
}

/// A labelled line of text in the style of the query, with a caret when it
/// is the one being typed into.
pub fn prompt_line(label: &str, text: &str, active: bool) -> (r: Vec<Piece>)
    ensures
        piece_views(r@) == prompt_pieces(label@, text@, active),
{
    let r = if active {
        vec![piece(label, coloured(Colour::Cyan)), piece(text, bold()), piece("_", dim())]
    } else {
        vec![piece(label, coloured(Colour::Cyan)), piece(text, plain())]
    };
    assert(piece_views(r@) =~= prompt_pieces(label@, text@, active));
    r
}

/// Labels the query, so it is obvious which line accepts typing.
pub const PROMPT: &'static str = "find: ";

/// Labels the command line of a save.
pub const SAVE_LABEL: &'static str = "save: ";

/// Labels the answer to what a saved command is for.
pub const PURPOSE_LABEL: &'static str = " for: ";


// ---------------------------------------------------------------------------
// What the save, detail and hint lines hold
// ---------------------------------------------------------------------------

/// What the command line of a save says under itself.
pub open spec fn save_note(entries: Seq<crate::model::EntryView>, family: crate::model::ShellFamily, s: SaveView) -> Seq<char> {
    if trim(s.command).len() == 0 {
        "type a command, or press up for the ones you ran"@
    } else if saved_in(entries, family, trim(s.command)) {
        "already in your library"@
    } else {
        match s.recalled {
            Some(k) => if k == 0 {
                "the newest command your shell has"@
            } else {
                "from your shell history"@
            },
            None => seq![],
        }
    }
}

/// The tags a save would give, as the line under its answer shows them.
pub open spec fn save_tag_text(s: SaveView) -> Seq<char> {
    let tags = with_new(purpose_parts(words(s.purpose)).1, derived_tags(trim(s.command)));
    if tags.len() == 0 {
        "none yet, add some with #tag"@
    } else {
        joined_by(tags, ", "@)
    }
}

/// The lines of a save: the command on the heading row where the query was;
/// under it, what the command is, or once it is settled the question and the
/// tags the entry will get.
pub open spec fn save_pieces(entries: Seq<crate::model::EntryView>, family: crate::model::ShellFamily, s: SaveView) -> (Seq<PieceView>, Seq<Seq<PieceView>>) {
    let on_command = s.step == SaveStep::Command;
    (
        prompt_pieces("save: "@, s.command, on_command),
        if on_command {
            seq![seq![PieceView { text: spaces(6) + save_note(entries, family, s), style: dim_style() }]]
        } else {
            seq![
                prompt_pieces(" for: "@, s.purpose, true),
                seq![PieceView { text: spaces(6) + "tags: "@ + save_tag_text(s), style: dim_style() }],
            ]
        },
    )
}

/// Saving, drawn as a short exchange at a prompt rather than as a form: the
/// heading row, then the lines under it.
///
/// Once the command is settled, the question takes the row below, and the
/// tags the entry will get are shown under the answer as it is typed, so
/// nothing about the saved entry is a surprise.
pub fn save_lines(app: &App, save: &Save) -> (r: (Vec<Piece>, Vec<Vec<Piece>>))
    ensures
        piece_views(r.0@) == save_pieces(app@.entries, app.family, save@).0,
        line_views(r.1@) == save_pieces(app@.entries, app.family, save@).1,
{
    proof {
        reveal_strlit("save: ");
        reveal_strlit(" for: ");
    }
    let on_command = save.step == SaveStep::Command;
    let heading = prompt_line(SAVE_LABEL, save.command.as_str(), on_command);
    let mut body: Vec<Vec<Piece>> = Vec::new();
    let indent = repeated(' ', 6);
    if on_command {
        let empty = trimmed_len(save.command.as_str()) == 0;
        let note: &str = if empty {
            "type a command, or press up for the ones you ran"
        } else if app.is_saved(save.command.as_str()) {
            "already in your library"
        } else {
            match save.recalled {
                Some(k) => if k == 0 {
                    "the newest command your shell has"
                } else {
                    "from your shell history"
                },
                None => "",
            }
        };
        let mut text = owned(indent.as_str());
        crate::text::append_str(&mut text, note);
        proof {
            reveal_strlit("");
            assert(indent@ =~= spaces(6));
            assert(note@ == save_note(app@.entries, app.family, save@));
        }
        let line = vec![Piece { text, style: dim() }];
        let ghost lv = piece_views(line@);
        assert(lv =~= seq![PieceView { text: spaces(6) + save_note(app@.entries, app.family, save@), style: dim_style() }]);
        body.push(line);
        proof {
            assert(line_views(body@) =~= seq![lv]);
            assert(line_views(body@) =~= save_pieces(app@.entries, app.family, save@).1);
        }
    } else {
        let answer = prompt_line(PURPOSE_LABEL, save.purpose.as_str(), true);
        let ghost av = piece_views(answer@);
        body.push(answer);
        let (_, given) = split_purpose(save.purpose.as_str());
        let command = crate::text::string_of(&crate::text::trimmed(&chars_of(save.command.as_str())));
        let tags = merge_tags(given, command.as_str());
        let mut text = owned(indent.as_str());
        crate::text::append_str(&mut text, "tags: ");
        if tags.len() == 0 {
            crate::text::append_str(&mut text, "none yet, add some with #tag");
        } else {
            crate::text::append_str(&mut text, crate::tui::app::join_strings(&tags, ", ").as_str());
        }
        proof {
            assert(indent@ =~= spaces(6));
            assert(text@ == spaces(6) + "tags: "@ + save_tag_text(save@));
        }
        let line = vec![Piece { text, style: dim() }];
        let ghost lv = piece_views(line@);
        assert(lv =~= seq![PieceView { text: spaces(6) + "tags: "@ + save_tag_text(save@), style: dim_style() }]);
        body.push(line);
        proof {
            assert(line_views(body@) =~= seq![av, lv]);
            assert(line_views(body@) =~= save_pieces(app@.entries, app.family, save@).1);
        }
    }
    (heading, body)
}

/// The number of characters `s` has between its leading and trailing white
/// space.
fn trimmed_len(s: &str) -> (r: usize)
    ensures
        r == trim(s@).len(),
{
    crate::text::trimmed(&chars_of(s)).len()
}

/// What the panel under the list says of the entry `e`, whose command for
/// this shell is `cmd`: the command, what it is for, a warning when it is
/// destructive, and each placeholder with its description.
pub open spec fn detail_pieces(e: crate::model::EntryView, cmd: Seq<char>) -> Seq<Seq<PieceView>> {
    let names = distinct_names(placeholders(cmd));
    seq![
        seq![PieceView { text: cmd, style: bold_style() }],
        seq![PieceView { text: e.desc, style: dim_style() }],
    ] + (if e.danger {
        seq![seq![PieceView { text: "This command is destructive"@, style: fg_style(Colour::Red) }]]
    } else {
        seq![]
    }) + Seq::new(
        names.len(),
        |k: int|
            seq![
                PieceView { text: "<"@ + names[k] + "> "@, style: fg_style(Colour::Cyan) },
                PieceView {
                    text: match param_desc(e.params, names[k]) {
                        Some(d) => d,
                        None => "no description"@,
                    },
                    style: dim_style(),
                },
            ],
    )
}

/// The lines of the panel under the list: the entry under the cursor, or
/// word that nothing matches.
pub fn detail_lines(app: &App) -> (r: Vec<Vec<Piece>>)
    requires
        app.ordered(),
    ensures
        app.order@.len() == 0 ==> line_views(r@) == seq![
            seq![PieceView { text: "Nothing matches that query"@, style: dim_style() }],
        ],
        app.order@.len() > 0 ==> line_views(r@) == detail_pieces(row_entry_of(app@), template_of(app@)),
{
    let mut lines: Vec<Vec<Piece>> = Vec::new();
    match app.selected_row() {
        None => {
            let line = vec![piece("Nothing matches that query", dim())];
            let ghost lv = piece_views(line@);
            assert(lv =~= seq![PieceView { text: "Nothing matches that query"@, style: dim_style() }]);
            lines.push(line);
            assert(line_views(lines@) =~= seq![lv]);
            assert(line_views(lines@) =~= seq![
                seq![PieceView { text: "Nothing matches that query"@, style: dim_style() }],
            ]);
        },
        Some(row) => {
            let ghost e = row.entry@;
            let ghost cmd = row.cmd@;
            assert(e == row_entry_of(app@));
            assert(cmd == template_of(app@));
            let first = vec![piece(row.cmd, bold())];
            let second = vec![piece(row.entry.desc.as_str(), dim())];
            let ghost l1 = piece_views(first@);
            let ghost l2 = piece_views(second@);
            assert(l1 =~= seq![PieceView { text: cmd, style: bold_style() }]);
            assert(l2 =~= seq![PieceView { text: e.desc, style: dim_style() }]);
            lines.push(first);
            lines.push(second);
            assert(line_views(lines@) =~= seq![l1, l2]);
            if row.entry.danger {
                let warn = vec![piece("This command is destructive", coloured(Colour::Red))];
                let ghost l3 = piece_views(warn@);
                assert(l3 =~= seq![PieceView { text: "This command is destructive"@, style: fg_style(Colour::Red) }]);
                lines.push(warn);
                assert(line_views(lines@) =~= seq![l1, l2, l3]);
            }
            let ghost head = line_views(lines@);
            assert(head =~= seq![
                seq![PieceView { text: cmd, style: bold_style() }],
                seq![PieceView { text: e.desc, style: dim_style() }],
            ] + (if e.danger {
                seq![seq![PieceView { text: "This command is destructive"@, style: fg_style(Colour::Red) }]]
            } else {
                seq![]
            }));
            let names = crate::params::names(row.cmd);
            let ghost nv = distinct_names(placeholders(cmd));
            let ghost want = Seq::new(
                nv.len(),
                |k: int|
                    seq![
                        PieceView { text: "<"@ + nv[k] + "> "@, style: fg_style(Colour::Cyan) },
                        PieceView {
                            text: match param_desc(e.params, nv[k]) {
                                Some(d) => d,
                                None => "no description"@,
                            },
                            style: dim_style(),
                        },
                    ],
            );
            let mut k: usize = 0;
            while k < names.len()
                invariant
                    k <= names@.len(),
                    string_views(names@) == nv,
                    want.len() == nv.len(),
                    e == row.entry@,
                    want == Seq::new(
                        nv.len(),
                        |k: int|
                            seq![
                                PieceView { text: "<"@ + nv[k] + "> "@, style: fg_style(Colour::Cyan) },
                                PieceView {
                                    text: match param_desc(e.params, nv[k]) {
                                        Some(d) => d,
                                        None => "no description"@,
                                    },
                                    style: dim_style(),
                                },
                            ],
                    ),
                    line_views(lines@) == head + want.take(k as int),
                decreases names@.len() - k,
            {
                let name = names[k].as_str();
                assert(nv[k as int] == names@[k as int]@);
                let mut label = owned("<");
                crate::text::append_str(&mut label, name);
                crate::text::append_str(&mut label, "> ");
                let desc = match param_description(&row.entry.params, name) {
                    Some(d) => d,
                    None => owned("no description"),
                };
                let line = vec![Piece { text: label, style: coloured(Colour::Cyan) }, Piece { text: desc, style: dim() }];
                assert(piece_views(line@) =~= want[k as int]);
                let ghost before = lines@;
                lines.push(line);
                assert(line_views(lines@) =~= line_views(before).push(want[k as int]));
                assert(want.take(k + 1) =~= want.take(k as int).push(want[k as int]));
                k += 1;
            }
            assert(want.take(k as int) =~= want);
        },
    }
    lines
}

/// The description given for placeholder `name` among `params`.
fn param_description(params: &Vec<(String, crate::model::ParamSpec)>, name: &str) -> (r: Option<String>)
    ensures
        crate::params::opt_view(r) == param_desc(crate::model::param_views(params@), name@),
{
    let ghost pv = crate::model::param_views(params@);
    let mut k: usize = 0;
    assert(pv.skip(0) =~= pv);
    while k < params.len()
        invariant
            k <= params@.len(),
            pv == crate::model::param_views(params@),
            param_desc(pv.skip(k as int), name@) == param_desc(pv, name@),
        decreases params@.len() - k,
    {
        assert(pv.skip(k as int).drop_first() =~= pv.skip(k + 1));
        assert(pv.skip(k as int)[0] == (params@[k as int].0@, params@[k as int].1@));
        if crate::text::same_str(params[k].0.as_str(), name) {
            return match &params[k].1.desc {
                Some(d) => Some(owned(d.as_str())),
                None => None,
            };
        }
        k += 1;
    }
    None
}

/// A line of hints: each chord in the colour of what the user types, then
/// its action, dimmed, with a gap between one hint and the next.
pub open spec fn hint_pieces(hints: Seq<(Seq<char>, Seq<char>)>) -> Seq<PieceView>
    decreases hints.len(),
{
    if hints.len() == 0 {
        seq![]
    } else {
        let before = hint_pieces(hints.drop_last());
        let h = hints.last();
        let pair = seq![
            PieceView { text: h.0, style: fg_style(Colour::Cyan) },
            PieceView { text: " "@ + h.1, style: dim_style() },
        ];
        if hints.len() == 1 {
            pair
        } else {
            before.push(PieceView { text: "   "@, style: plain_style() }) + pair
        }
    }
}

/// The hints that go with what is on screen.
pub open spec fn hints_for(m: ModeView) -> Seq<(Seq<char>, Seq<char>)> {
    match m {
        ModeView::Browse => seq![
            ("enter"@, "insert"@),
            ("esc"@, "close"@),
            ("^s"@, "save"@),
            ("^e"@, "edit"@),
            ("^p"@, "pin"@),
            ("^x"@, "remove"@),
        ],
        ModeView::Params { .. } => seq![("enter"@, "next"@), ("esc"@, "back"@), ("^u"@, "clear"@)],
        ModeView::Save(s) => match s.step {
            SaveStep::Command => seq![("enter"@, "next"@), ("up"@, "history"@), ("esc"@, "cancel"@)],
            SaveStep::Purpose => seq![
                ("enter"@, "save"@),
                ("up"@, "back"@),
                ("#word"@, "tag"@),
                ("esc"@, "cancel"@),
            ],
        },
        ModeView::Edit { .. } => seq![
            ("enter"@, "next"@),
            ("esc"@, "cancel"@),
            ("^u"@, "clear"@),
            ("^s"@, "save"@),
        ],
    }
}

/// The chords, and whatever the last action had to say.
///
/// A status message takes the line while it lasts. Giving it a row of its
/// own would mean the list changing height the moment anything happened.
pub fn hint_line(app: &App) -> (r: Vec<Piece>)
    ensures
        app.status is Some ==> piece_views(r@) == seq![
            PieceView { text: app.status.unwrap()@, style: fg_style(Colour::Yellow) },
        ],
        app.status is None ==> piece_views(r@) == hint_pieces(hints_for(app@.mode)),
{
    match &app.status {
        Some(status) => {
            let r = vec![piece(status.as_str(), coloured(Colour::Yellow))];
            assert(piece_views(r@) =~= seq![
                PieceView { text: status@, style: fg_style(Colour::Yellow) },
            ]);
            r
        },
        None => {
            let hints = match &app.mode {
                Mode::Browse => browse_hints(),
                Mode::Params { .. } => form_hints("back"),
                Mode::Save(save) => save_hints(save.step),
                Mode::Edit { .. } => saving_hints(),
            };
            let ghost hv = hint_views(hints@);
            assert(hv == hints_for(app@.mode));
            let mut spans: Vec<Piece> = Vec::new();
            let mut i: usize = 0;
            while i < hints.len()
                invariant
                    i <= hints@.len(),
                    hv == hint_views(hints@),
                    piece_views(spans@) == hint_pieces(hv.take(i as int)),
                decreases hints@.len() - i,
            {
                assert(hv.take(i + 1).drop_last() =~= hv.take(i as int));
                assert(hv.take(i + 1).last() == hv[i as int]);
                let (chord, action) = hints[i];
                let ghost before = piece_views(spans@);
                if i > 0 {
                    spans.push(piece(HINT_GAP, plain()));
                } else {
                    assert(hv.take(1).len() == 1);
                }
                spans.push(piece(chord, coloured(Colour::Cyan)));
                let mut text = owned(" ");
                crate::text::append_str(&mut text, action);
                spans.push(Piece { text, style: dim() });
                assert(piece_views(spans@) =~= hint_pieces(hv.take(i + 1)));
                i += 1;
            }
            assert(hv.take(i as int) =~= hv);
            spans
        },
    }
}
} // verus!

