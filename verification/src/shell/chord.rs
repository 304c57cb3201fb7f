//! The key that opens the picker, written once and translated per shell.
//!
//! Every shell spells a chord differently, and `init` is not allowed to read a
//! config file, so the chord travels through the init line as a canonical
//! `ctrl-g` and each snippet receives whatever its own binding syntax expects.

use vstd::prelude::*;

use crate::shell::Shell;
use crate::text::{
    ascii_lower, chars_of, concat, find_char, first_of, is_alpha, is_ascii_alpha, owned,
    push_char, same, slice, string_of, to_lower, to_upper, trim, trimmed, upper,
};

verus! {

broadcast use vstd::string::group_string_axioms;

/// The chord used when `--key` is not given.
pub const DEFAULT: &'static str = "ctrl-g";

#[derive(Debug, Clone, PartialEq, Eq)]
pub enum ChordError {
    /// Not written as a modifier, a hyphen and a key.
    Shape,
    /// A modifier other than ctrl or alt.
    Modifier(String),
    /// A key that is not one letter.
    Key(String),
    /// A control key the terminal owns, with what it does.
    Reserved(char, &'static str),
}

pub enum ChordErrorView {
    Shape,
    Modifier(Seq<char>),
    Key(Seq<char>),
    Reserved(char, Seq<char>),
}

impl View for ChordError {
    type V = ChordErrorView;

    open spec fn view(&self) -> ChordErrorView {
        match self {
            ChordError::Shape => ChordErrorView::Shape,
            ChordError::Modifier(m) => ChordErrorView::Modifier(m@),
            ChordError::Key(k) => ChordErrorView::Key(k@),
            ChordError::Reserved(c, why) => ChordErrorView::Reserved(*c, why@),
        }
    }
}

#[derive(Clone, Copy, Debug, PartialEq, Eq, Structural)]
pub enum Modifier {
    Ctrl,
    Alt,
}

/// A keybinding that opens the picker.
///
/// Deliberately narrow. A letter with control or alt is the only combination
/// all four shells spell unambiguously and every terminal actually transmits.
#[derive(Clone, Copy, Debug, PartialEq, Eq, Structural)]
pub struct Chord {
    pub modifier: Modifier,
    /// Always a small ASCII letter.
    pub letter: char,
}

/// Why a control key is not free to bind, for the letters the terminal owns.
pub open spec fn reserved(c: char) -> Option<Seq<char>> {
    if c == 'c' {
        Some("interrupts the running command"@)
    } else if c == 'd' {
        Some("ends input"@)
    } else if c == 'i' {
        Some("is the tab key"@)
    } else if c == 'j' {
        Some("is a line feed"@)
    } else if c == 'm' {
        Some("is the enter key"@)
    } else if c == 'q' {
        Some("resumes a stopped terminal"@)
    } else if c == 's' {
        Some("stops terminal output"@)
    } else if c == 'z' {
        Some("suspends the running command"@)
    } else {
        None
    }
}

/// Control keys the terminal itself consumes or that carry a meaning nothing
/// should take over. Binding `ctrl-m` costs the user the enter key.
pub fn reserved_reason(c: char) -> (r: Option<&'static str>)
    ensures
        match r {
            Some(why) => reserved(c) == Some(why@),
            None => reserved(c) is None,
        },
{
    if c == 'c' {
        Some("interrupts the running command")
    } else if c == 'd' {
        Some("ends input")
    } else if c == 'i' {
        Some("is the tab key")
    } else if c == 'j' {
        Some("is a line feed")
    } else if c == 'm' {
        Some("is the enter key")
    } else if c == 'q' {
        Some("resumes a stopped terminal")
    } else if c == 's' {
        Some("stops terminal output")
    } else if c == 'z' {
        Some("suspends the running command")
    } else {
        None
    }
}

/// The modifier a word names, if it names one.
pub open spec fn modifier_named(m: Seq<char>) -> Option<Modifier> {
    if m == "ctrl"@ || m == "control"@ {
        Some(Modifier::Ctrl)
    } else if m == "alt"@ || m == "meta"@ {
        Some(Modifier::Alt)
    } else {
        None
    }
}

/// What `text` means as a chord: trimmed and lower cased, split at the first
/// hyphen into a modifier and a single letter, and refused with the first
/// reason that applies.
pub open spec fn parse_chord(text: Seq<char>) -> Result<Chord, ChordErrorView> {
    let t = ascii_lower(trim(text));
    match first_of(t, '-') {
        None => Err(ChordErrorView::Shape),
        Some(d) => {
            let m = t.take(d);
            let k = t.skip(d + 1);
            match modifier_named(m) {
                None => Err(ChordErrorView::Modifier(m)),
                Some(modifier) => {
                    if !(k.len() == 1 && is_alpha(k[0])) {
                        Err(ChordErrorView::Key(k))
                    } else if modifier == Modifier::Ctrl && reserved(k[0]) is Some {
                        Err(ChordErrorView::Reserved(k[0], reserved(k[0])->0))
                    } else {
                        Ok(Chord { modifier, letter: k[0] })
                    }
                },
            }
        },
    }
}

pub open spec fn modifier_word(m: Modifier) -> Seq<char> {
    match m {
        Modifier::Ctrl => "ctrl"@,
        Modifier::Alt => "alt"@,
    }
}

/// The chord as the binding syntax of `shell` writes it.
pub open spec fn rendered(c: Chord, shell: Shell) -> Seq<char> {
    match (shell, c.modifier) {
        (Shell::Bash, Modifier::Ctrl) => "\\C-"@.push(c.letter),
        (Shell::Bash, Modifier::Alt) => "\\M-"@.push(c.letter),
        (Shell::Zsh, Modifier::Ctrl) => "^"@.push(upper(c.letter)),
        (Shell::Zsh, Modifier::Alt) => "^["@.push(c.letter),
        (Shell::Fish, Modifier::Ctrl) => "\\c"@.push(c.letter),
        (Shell::Fish, Modifier::Alt) => "\\e"@.push(c.letter),
        (Shell::PowerShell, Modifier::Ctrl) => "Ctrl+"@.push(c.letter),
        (Shell::PowerShell, Modifier::Alt) => "Alt+"@.push(c.letter),
    }
}

fn modifier_text(m: Modifier) -> (r: &'static str)
    ensures
        r@ == modifier_word(m),
{
    match m {
        Modifier::Ctrl => "ctrl",
        Modifier::Alt => "alt",
    }
}

impl Chord {
    /// The chord `DEFAULT` writes, `ctrl-g`.
    pub open spec fn default_chord() -> Chord {
        Chord { modifier: Modifier::Ctrl, letter: 'g' }
    }

    /// Reads a chord written as `ctrl-<letter>` or `alt-<letter>`.
    pub fn parse(text: &str) -> (r: Result<Chord, ChordError>)
        ensures
            match r {
                Ok(c) => parse_chord(text@) == Ok::<Chord, ChordErrorView>(c),
                Err(e) => parse_chord(text@) == Err::<Chord, ChordErrorView>(e@),
            },
    {
        let raw = chars_of(text);
        let trimmed_text = trimmed(&raw);
        let mut t: Vec<char> = Vec::new();
        let mut i: usize = 0;
        while i < trimmed_text.len()
            invariant
                i <= trimmed_text@.len(),
                t@ == ascii_lower(trimmed_text@).take(i as int),
            decreases trimmed_text@.len() - i,
        {
            t.push(to_lower(trimmed_text[i]));
            i += 1;
            assert(t@ =~= ascii_lower(trimmed_text@).take(i as int));
        }
        assert(t@ =~= ascii_lower(trim(text@)));
        let d = match find_char(&t, '-') {
            None => return Err(ChordError::Shape),
            Some(d) => d,
        };
        let m = slice(&t, 0, d);
        let k = slice(&t, d + 1, t.len());
        assert(m@ =~= t@.take(d as int));
        assert(k@ =~= t@.skip(d + 1));
        let modifier = if same(&m, &chars_of("ctrl")) || same(&m, &chars_of("control")) {
            Modifier::Ctrl
        } else if same(&m, &chars_of("alt")) || same(&m, &chars_of("meta")) {
            Modifier::Alt
        } else {
            return Err(ChordError::Modifier(string_of(&m)));
        };
        if !(k.len() == 1 && is_ascii_alpha(k[0])) {
            return Err(ChordError::Key(string_of(&k)));
        }
        let letter = k[0];
        if modifier == Modifier::Ctrl {
            if let Some(why) = reserved_reason(letter) {
                return Err(ChordError::Reserved(letter, why));
            }
        }
        Ok(Chord { modifier, letter })
    }

    /// The chord in the binding syntax `shell` expects.
    pub fn render(self, shell: Shell) -> (r: String)
        ensures
            r@ == rendered(self, shell),
    {
        let letter = self.letter;
        let (prefix, last) = match (shell, self.modifier) {
            (Shell::Bash, Modifier::Ctrl) => ("\\C-", letter),
            (Shell::Bash, Modifier::Alt) => ("\\M-", letter),
            // A control key is written as the letter it is typed with, which is
            // the upper case one; alt is the escape prefix.
            (Shell::Zsh, Modifier::Ctrl) => ("^", to_upper(letter)),
            (Shell::Zsh, Modifier::Alt) => ("^[", letter),
            (Shell::Fish, Modifier::Ctrl) => ("\\c", letter),
            (Shell::Fish, Modifier::Alt) => ("\\e", letter),
            (Shell::PowerShell, Modifier::Ctrl) => ("Ctrl+", letter),
            (Shell::PowerShell, Modifier::Alt) => ("Alt+", letter),
        };
        let mut s = owned(prefix);
        push_char(&mut s, last);
        s
    }

    /// How to name the chord when telling the user which key to press.
    pub fn spoken(self) -> (r: String)
        ensures
            r@ == modifier_word(self.modifier).push('+').push(self.letter),
    {
        let mut s = owned(modifier_text(self.modifier));
        push_char(&mut s, '+');
        push_char(&mut s, self.letter);
        s
    }

    /// The chord written the way `--key` takes it, such as `ctrl-g`.
    pub fn canonical(self) -> (r: String)
        ensures
            r@ == modifier_word(self.modifier).push('-').push(self.letter),
    {
        let mut s = owned(modifier_text(self.modifier));
        push_char(&mut s, '-');
        push_char(&mut s, self.letter);
        s
    }

    pub fn is_default(self) -> (r: bool)
        ensures
            r == (self == Chord { modifier: Modifier::Ctrl, letter: 'g' }),
    {
        self.modifier == Modifier::Ctrl && self.letter == 'g'
    }
}

impl Default for Chord {
    /// `ctrl-g`, the chord `DEFAULT` writes.
    fn default() -> (r: Self)
        ensures
            r == (Chord { modifier: Modifier::Ctrl, letter: 'g' }),
    {
        Chord { modifier: Modifier::Ctrl, letter: 'g' }
    }
}

impl ChordError {
    /// What to tell the user.
    pub fn message(&self) -> (r: String)
        ensures
            r@ == match self@ {
                ChordErrorView::Shape => "write the key as ctrl-<letter> or alt-<letter>, such as ctrl-g"@,
                ChordErrorView::Modifier(m) => m + " is not a modifier lore can bind, use ctrl or alt"@,
                ChordErrorView::Key(k) => k + " is not a single letter"@,
                ChordErrorView::Reserved(c, why) => "ctrl-"@.push(c) + " cannot be bound because it "@ + why,
            },
    {
        match self {
            ChordError::Shape => owned(
                "write the key as ctrl-<letter> or alt-<letter>, such as ctrl-g",
            ),
            ChordError::Modifier(m) => concat(
                m.as_str(),
                " is not a modifier lore can bind, use ctrl or alt",
            ),
            ChordError::Key(k) => concat(k.as_str(), " is not a single letter"),
            ChordError::Reserved(c, why) => {
                let mut s = owned("ctrl-");
                push_char(&mut s, *c);
                let tail = concat(" cannot be bound because it ", why);
                crate::text::append_str(&mut s, tail.as_str());
                s
            },
        }
    }
}


/// Whether a chord could have come from `parse`: a small letter, and not one
/// the terminal owns when held with control.
pub open spec fn valid(c: Chord) -> bool {
    &&& crate::text::is_lower(c.letter)
    &&& (c.modifier == Modifier::Ctrl ==> reserved(c.letter) is None)
}

/// A chord written the way `--key` takes it reads back as the same chord.
pub proof fn lemma_canonical_round_trip(c: Chord)
    requires
        valid(c),
    ensures
        parse_chord(modifier_word(c.modifier).push('-').push(c.letter)) == Ok::<
            Chord,
            ChordErrorView,
        >(c),
{
    reveal_strlit("ctrl");
    reveal_strlit("alt");
    reveal_strlit("control");
    reveal_strlit("meta");
    let w = modifier_word(c.modifier);
    let text = w.push('-').push(c.letter);
    crate::text::lemma_skip_ws(text, 0);
    assert(!crate::text::is_ws(text[0]));
    assert(crate::text::trim_start(text) =~= text);
    crate::text::lemma_back_ws(text, text.len() as int);
    assert(text[text.len() - 1] == c.letter);
    assert(trim(text) =~= text);
    assert(ascii_lower(text) =~= text);
    crate::text::lemma_first_from(text, '-', 0);
    assert(text[w.len() as int] == '-');
    assert(first_of(text, '-') == Some(w.len() as int));
    assert(text.take(w.len() as int) =~= w);
    assert(text.skip(w.len() as int + 1) =~= seq![c.letter]);
}


/// Reading a chord ignores case and the white space around it: the text reads
/// as the same chord, or fails the same way, as its trimmed and lowered form.
pub proof fn lemma_parse_ignores_case(text: Seq<char>)
    ensures
        parse_chord(text) == parse_chord(ascii_lower(trim(text))),
{
    crate::text::lemma_trim_lower_settled(text);
}

} // verus!
