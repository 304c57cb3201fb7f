//! Shell integration: the snippet each shell needs, and where it goes.
//!
//! The keybinding has to live inside the shell process, so there is no way to
//! set it up without touching a profile file. Every tool in this category works
//! the same way.

pub mod chord;

use vstd::prelude::*;

use crate::store::patterns::PathStyle;
use crate::model::ShellFamily;
use crate::shell::chord::{modifier_word, rendered, Chord};
use crate::text::{
    append_str, chars_of, concat, joined, join_lines, lines, owned, push_all, push_char, same,
    split_lines, string_of, trim, trimmed, unicode_lower, lowercase, views,
};

verus! {

/// Shells that lore ships a keybinding integration for.
#[derive(Clone, Copy, Debug, PartialEq, Eq, Structural)]
pub enum Shell {
    Bash,
    Zsh,
    Fish,
    PowerShell,
}

pub open spec fn family_of(shell: Shell) -> ShellFamily {
    match shell {
        Shell::Bash | Shell::Zsh | Shell::Fish => ShellFamily::Posix,
        Shell::PowerShell => ShellFamily::PowerShell,
    }
}

impl From<Shell> for ShellFamily {
    fn from(shell: Shell) -> (r: Self)
        ensures
            r == family_of(shell),
    {
        match shell {
            Shell::Bash | Shell::Zsh | Shell::Fish => ShellFamily::Posix,
            Shell::PowerShell => ShellFamily::PowerShell,
        }
    }
}

impl vstd::std_specs::convert::FromSpecImpl<Shell> for ShellFamily {
    open spec fn obeys_from_spec() -> bool {
        true
    }

    open spec fn from_spec(shell: Shell) -> ShellFamily {
        family_of(shell)
    }
}

/// Marks the place in every snippet where the chord goes.
pub const CHORD: &'static str = "{{chord}}";

/// Wraps the generated block so setup can find and remove it later.
pub const BEGIN: &'static str = "# >>> lore >>>";

pub const END: &'static str = "# <<< lore <<<";

pub open spec fn label_of(shell: Shell) -> Seq<char> {
    match shell {
        Shell::Bash => "bash"@,
        Shell::Zsh => "zsh"@,
        Shell::Fish => "fish"@,
        Shell::PowerShell => "powershell"@,
    }
}

impl Shell {
    /// The shell's name as `--shell` and `init` take it.
    pub fn label(self) -> (r: &'static str)
        ensures
            r@ == label_of(self),
    {
        match self {
            Shell::Bash => "bash",
            Shell::Zsh => "zsh",
            Shell::Fish => "fish",
            Shell::PowerShell => "powershell",
        }
    }
}

/// The integration code for a shell, with the chord written into it.
///
/// `template` is the shell's integration script as the binary carries it,
/// with `{{chord}}` wherever the chord goes. Substituted once: this runs on
/// every shell start, so it does no work beyond that.
pub fn snippet(shell: Shell, chord: Chord, template: &str) -> (r: String)
    ensures
        r@ == crate::text::replaced_from(template@, CHORD@, rendered(chord, shell), 0),
{
    proof {
        reveal_strlit("{{chord}}");
    }
    let keys = chord.render(shell);
    string_of(
        &crate::text::replace_all(&chars_of(template), &chars_of(CHORD), &chars_of(keys.as_str())),
    )
}

/// The `--key` argument the init line carries: nothing for the default chord.
pub open spec fn key_argument(chord: Chord) -> Seq<char> {
    if chord == Chord::default_chord() {
        seq![]
    } else {
        " --key "@ + modifier_word(chord.modifier).push('-').push(chord.letter)
    }
}

/// The single line a profile needs for `shell`.
pub open spec fn init_line_of(shell: Shell, chord: Chord) -> Seq<char> {
    let key = key_argument(chord);
    match shell {
        Shell::Bash => "eval \"$(lore init bash"@ + key + ")\""@,
        Shell::Zsh => "eval \"$(lore init zsh"@ + key + ")\""@,
        Shell::Fish => "lore init fish"@ + key + " | source"@,
        Shell::PowerShell => "Invoke-Expression (& lore init powershell"@ + key + " | Out-String)"@,
    }
}

/// The single line a profile needs.
///
/// The snippet is fetched from the binary rather than written into the profile
/// so that an upgraded binary cannot disagree with a stale copy on disk. The
/// chord travels here rather than in a config file because `init` runs on every
/// shell start and is not allowed to read one.
pub fn init_line(shell: Shell, chord: Chord) -> (r: String)
    ensures
        r@ == init_line_of(shell, chord),
{
    // A profile that keeps the default reads exactly as it always did.
    let key = if chord.is_default() {
        String::new()
    } else {
        concat(" --key ", chord.canonical().as_str())
    };
    assert(key@ == key_argument(chord));
    let (head, tail) = match shell {
        Shell::Bash => ("eval \"$(lore init bash", ")\""),
        Shell::Zsh => ("eval \"$(lore init zsh", ")\""),
        Shell::Fish => ("lore init fish", " | source"),
        Shell::PowerShell => ("Invoke-Expression (& lore init powershell", " | Out-String)"),
    };
    let mut line = owned(head);
    append_str(&mut line, key.as_str());
    append_str(&mut line, tail);
    line
}

/// `s` with every `c` replaced by `by`.
pub open spec fn replaced(s: Seq<char>, c: char, by: Seq<char>) -> Seq<char>
    decreases s.len(),
{
    if s.len() == 0 {
        seq![]
    } else {
        replaced(s.drop_last(), c, by) + if s.last() == c {
            by
        } else {
            seq![s.last()]
        }
    }
}

pub fn replace_char(s: &[char], c: char, by: &str) -> (r: Vec<char>)
    ensures
        r@ == replaced(s@, c, by@),
{
    let by_chars = chars_of(by);
    let mut out: Vec<char> = Vec::new();
    let mut i: usize = 0;
    while i < s.len()
        invariant
            i <= s@.len(),
            by_chars@ == by@,
            out@ == replaced(s@.take(i as int), c, by@),
        decreases s@.len() - i,
    {
        assert(s@.take(i + 1).drop_last() =~= s@.take(i as int));
        if s[i] == c {
            crate::text::extend(&mut out, &by_chars);
        } else {
            out.push(s[i]);
        }
        i += 1;
    }
    assert(s@.take(i as int) =~= s@);
    out
}

/// `text` in single quotes, the way a posix shell reads it literally.
pub open spec fn posix_quote(text: Seq<char>) -> Seq<char> {
    seq!['\''] + replaced(text, '\'', "'\\''"@) + seq!['\'']
}

/// `text` in single quotes the way fish reads it, where a backslash escapes.
pub open spec fn fish_quote(text: Seq<char>) -> Seq<char> {
    seq!['\''] + replaced(replaced(text, '\\', "\\\\"@), '\'', "\\'"@) + seq!['\'']
}

/// Wraps a path so a shell reads it literally, whatever it contains.
pub fn posix_quoted(text: &str) -> (r: String)
    ensures
        r@ == posix_quote(text@),
{
    let body = replace_char(&chars_of(text), '\'', "'\\''");
    let mut out: Vec<char> = Vec::new();
    out.push('\'');
    crate::text::extend(&mut out, &body);
    out.push('\'');
    assert(out@ =~= posix_quote(text@));
    string_of(&out)
}

/// Fish reads a backslash inside single quotes as an escape, which no other
/// posix shell does.
pub fn fish_quoted(text: &str) -> (r: String)
    ensures
        r@ == fish_quote(text@),
{
    let once = replace_char(&chars_of(text), '\\', "\\\\");
    let body = replace_char(&once, '\'', "\\'");
    let mut out: Vec<char> = Vec::new();
    out.push('\'');
    crate::text::extend(&mut out, &body);
    out.push('\'');
    assert(out@ =~= fish_quote(text@));
    string_of(&out)
}

/// Directories a shell already has on its PATH before any profile runs.
/// Guarding one of these would be noise.
pub open spec fn is_system_bin(d: Seq<char>) -> bool {
    ||| d == "/bin"@
    ||| d == "/sbin"@
    ||| d == "/usr/bin"@
    ||| d == "/usr/sbin"@
    ||| d == "/usr/local/bin"@
    ||| d == "/usr/local/sbin"@
}

fn system_bin(d: &str) -> (r: bool)
    ensures
        r == is_system_bin(d@),
{
    let d = chars_of(d);
    same(&d, &chars_of("/bin")) || same(&d, &chars_of("/sbin")) || same(&d, &chars_of("/usr/bin"))
        || same(&d, &chars_of("/usr/sbin")) || same(&d, &chars_of("/usr/local/bin")) || same(
        &d,
        &chars_of("/usr/local/sbin"),
    )
}

/// The line that puts `directory` on PATH for `shell`, when it needs one.
pub open spec fn guard_of(shell: Shell, directory: Seq<char>) -> Option<Seq<char>> {
    if shell == Shell::PowerShell || is_system_bin(directory) {
        None
    } else if shell == Shell::Fish {
        let q = fish_quote(directory);
        Some("contains "@ + q + " $PATH; or set -gx PATH "@ + q + " $PATH"@)
    } else {
        let q = posix_quote(directory);
        Some("case \":$PATH:\" in *:"@ + q + ":*) ;; *) PATH="@ + q + ":\"$PATH\" ;; esac"@)
    }
}

/// The line that puts the binary's own directory on PATH, when it needs one.
///
/// Ubuntu's `~/.profile` sources `~/.bashrc` and only then adds `~/.local/bin`
/// to PATH, so a login shell reaches the block with lore not yet findable.
/// Windows composes a process's PATH before it starts, so a profile there
/// always runs with the whole of it.
pub fn guard_line(shell: Shell, directory: &str) -> (r: Option<String>)
    ensures
        opt_string_view(r) == guard_of(shell, directory@),
{
    if shell == Shell::PowerShell || system_bin(directory) {
        return None;
    }
    if shell == Shell::Fish {
        let q = fish_quoted(directory);
        let mut line = owned("contains ");
        append_str(&mut line, q.as_str());
        append_str(&mut line, " $PATH; or set -gx PATH ");
        append_str(&mut line, q.as_str());
        append_str(&mut line, " $PATH");
        Some(line)
    } else {
        let q = posix_quoted(directory);
        let mut line = owned("case \":$PATH:\" in *:");
        append_str(&mut line, q.as_str());
        append_str(&mut line, ":*) ;; *) PATH=");
        append_str(&mut line, q.as_str());
        append_str(&mut line, ":\"$PATH\" ;; esac");
        Some(line)
    }
}

pub open spec fn opt_string_view(o: Option<String>) -> Option<Seq<char>> {
    match o {
        Some(s) => Some(s@),
        None => None,
    }
}

/// The block setup appends to a profile: the guard line when there is one,
/// then the init line, between the two markers.
pub open spec fn block_of(shell: Shell, chord: Chord, guard: Option<Seq<char>>) -> Seq<char> {
    let body = match guard {
        Some(g) => g + seq!['\n'] + init_line_of(shell, chord),
        None => init_line_of(shell, chord),
    };
    seq!['\n'] + BEGIN@ + seq!['\n'] + body + seq!['\n'] + END@ + seq!['\n']
}

/// The text setup appends to a profile. `guard` is the line `guard_line`
/// gives for the directory the binary runs from.
pub fn block(shell: Shell, chord: Chord, guard: Option<&str>) -> (r: String)
    ensures
        r@ == block_of(
            shell,
            chord,
            match guard {
                Some(g) => Some(g@),
                None => None,
            },
        ),
{
    let mut out = String::new();
    push_char(&mut out, '\n');
    append_str(&mut out, BEGIN);
    push_char(&mut out, '\n');
    if let Some(g) = guard {
        append_str(&mut out, g);
        push_char(&mut out, '\n');
    }
    let line = init_line(shell, chord);
    append_str(&mut out, line.as_str());
    push_char(&mut out, '\n');
    append_str(&mut out, END);
    push_char(&mut out, '\n');
    proof {
        let body = match guard {
            Some(g) => g@ + seq!['\n'] + init_line_of(shell, chord),
            None => init_line_of(shell, chord),
        };
        assert(out@ =~= seq!['\n'] + BEGIN@ + seq!['\n'] + body + seq!['\n'] + END@ + seq![
            '\n',
        ]);
    }
    out
}

/// The lines from `i` on that lie outside the marked block, `inside` saying
/// whether line `i` starts inside it.
pub open spec fn kept_from(ls: Seq<Seq<char>>, i: int, inside: bool) -> Seq<Seq<char>>
    decreases ls.len() - i,
{
    if 0 <= i < ls.len() {
        let t = trim(ls[i]);
        if t == BEGIN@ {
            kept_from(ls, i + 1, true)
        } else if t == END@ {
            kept_from(ls, i + 1, false)
        } else if inside {
            kept_from(ls, i + 1, inside)
        } else {
            seq![ls[i]] + kept_from(ls, i + 1, inside)
        }
    } else {
        seq![]
    }
}

/// A profile without the marked block: every other line, each ended by a
/// line feed.
pub open spec fn stripped(existing: Seq<char>) -> Seq<char> {
    joined(kept_from(lines(existing), 0, false))
}

/// Drops the marked block, leaving everything the user wrote untouched.
pub fn strip(existing: &str) -> (r: String)
    ensures
        r@ == stripped(existing@),
{
    let ls = split_lines(&chars_of(existing));
    let ghost all = views(ls@);
    let begin = chars_of(BEGIN);
    let end = chars_of(END);
    let mut kept: Vec<Vec<char>> = Vec::new();
    let mut inside = false;
    let mut i: usize = 0;
    while i < ls.len()
        invariant
            i <= ls@.len(),
            all == views(ls@),
            all == lines(existing@),
            begin@ == BEGIN@,
            end@ == END@,
            views(kept@) + kept_from(all, i as int, inside) == kept_from(all, 0, false),
        decreases ls@.len() - i,
    {
        let t = trimmed(&ls[i]);
        let ghost before = kept@;
        if same(&t, &begin) {
            inside = true;
        } else if same(&t, &end) {
            inside = false;
        } else if !inside {
            kept.push(crate::text::slice(&ls[i], 0, ls[i].len()));
            assert(ls@[i as int]@.subrange(0, ls@[i as int]@.len() as int) =~= ls@[i as int]@);
            assert(views(kept@) =~= views(before).push(all[i as int]));
            assert(views(kept@) + kept_from(all, i + 1, inside) =~= views(before) + kept_from(
                all,
                i as int,
                inside,
            ));
        }
        i += 1;
    }
    assert(views(kept@) + kept_from(all, i as int, inside) =~= views(kept@));
    string_of(&join_lines(&kept))
}

/// Whether `c` separates the components of a path: `/` everywhere, and `\`
/// where the platform says a backslash separates paths, as on Windows.
pub open spec fn is_sep(c: char, backslash: bool) -> bool {
    c == '/' || (backslash && c == '\\')
}

/// The end of `s` before `j` once trailing separators are dropped.
pub open spec fn back_sep(s: Seq<char>, j: int, backslash: bool) -> int
    decreases j,
{
    if 0 < j <= s.len() && is_sep(s[j - 1], backslash) {
        back_sep(s, j - 1, backslash)
    } else {
        j
    }
}

/// Where the last component before `j` starts.
pub open spec fn component_start(s: Seq<char>, j: int, backslash: bool) -> int
    decreases j,
{
    if 0 < j <= s.len() && !is_sep(s[j - 1], backslash) {
        component_start(s, j - 1, backslash)
    } else {
        j
    }
}

proof fn lemma_back_sep(s: Seq<char>, j: int, backslash: bool)
    requires
        0 <= j <= s.len(),
    ensures
        0 <= back_sep(s, j, backslash) <= j,
    decreases j,
{
    if 0 < j && is_sep(s[j - 1], backslash) {
        lemma_back_sep(s, j - 1, backslash);
    }
}

proof fn lemma_component_start(s: Seq<char>, j: int, backslash: bool)
    requires
        0 <= j <= s.len(),
    ensures
        0 <= component_start(s, j, backslash) <= j,
    decreases j,
{
    if 0 < j && !is_sep(s[j - 1], backslash) {
        lemma_component_start(s, j - 1, backslash);
    }
}

/// The last component of a path, as `Path::file_name` reads it on a platform
/// where a backslash separates paths exactly when `backslash` holds.
pub open spec fn file_name(path: Seq<char>, backslash: bool) -> Option<Seq<char>> {
    let e = back_sep(path, path.len() as int, backslash);
    let b = component_start(path, e, backslash);
    let n = path.subrange(b, e);
    if n.len() == 0 || n == seq!['.'] || n == seq!['.', '.'] {
        None
    } else {
        Some(n)
    }
}

/// The last position of `c` in `s` before `j`.
pub open spec fn last_before(s: Seq<char>, c: char, j: int) -> Option<int>
    decreases j,
{
    if 0 < j <= s.len() {
        if s[j - 1] == c {
            Some(j - 1)
        } else {
            last_before(s, c, j - 1)
        }
    } else {
        None
    }
}

/// A file name without its extension, as `Path::file_stem` reads it: a name
/// whose only dot leads it keeps it.
pub open spec fn stem_of(name: Seq<char>) -> Seq<char> {
    match last_before(name, '.', name.len() as int) {
        Some(d) if d > 0 => name.take(d),
        _ => name,
    }
}

/// The shell a program name stands for.
pub open spec fn shell_named(name: Seq<char>) -> Option<Shell> {
    if name == "bash"@ || name == "sh"@ {
        Some(Shell::Bash)
    } else if name == "zsh"@ {
        Some(Shell::Zsh)
    } else if name == "fish"@ {
        Some(Shell::Fish)
    } else if name == "pwsh"@ || name == "powershell"@ {
        Some(Shell::PowerShell)
    } else {
        None
    }
}

/// The shell a program path such as `$SHELL` names, if it is one lore knows.
pub open spec fn program_shell(path: Seq<char>, backslash: bool) -> Option<Shell> {
    match file_name(path, backslash) {
        Some(n) => shell_named(unicode_lower(stem_of(n))),
        None => None,
    }
}

/// The shell a program path names, such as `/bin/bash` or `pwsh.exe`.
///
/// The path is split the way the platform splits it: a backslash separates
/// directories only where `style` says it does, as on Windows, which is also
/// the only place a path shaped like that names the shell.
pub fn from_program(path: &str, style: &PathStyle) -> (r: Option<Shell>)
    ensures
        r == program_shell(path@, style.backslash()),
{
    let backslash = !style.escapes();
    let p = chars_of(path);
    let mut e = p.len();
    while e > 0 && (p[e - 1] == '/' || (backslash && p[e - 1] == '\\'))
        invariant
            e <= p@.len(),
            backslash == style.backslash(),
            back_sep(p@, e as int, backslash) == back_sep(p@, p@.len() as int, backslash),
        decreases e,
    {
        e -= 1;
    }
    let mut b = e;
    while b > 0 && !(p[b - 1] == '/' || (backslash && p[b - 1] == '\\'))
        invariant
            b <= e <= p@.len(),
            component_start(p@, b as int, backslash) == component_start(p@, e as int, backslash),
        decreases b,
    {
        b -= 1;
    }
    let n = crate::text::slice(&p, b, e);
    if n.len() == 0 {
        return None;
    }
    if n.len() == 1 && n[0] == '.' {
        assert(n@ =~= seq!['.']);
        return None;
    }
    if n.len() == 2 && n[0] == '.' && n[1] == '.' {
        assert(n@ =~= seq!['.', '.']);
        return None;
    }
    assert(!(n@ =~= seq!['.']));
    assert(!(n@ =~= seq!['.', '.']));
    let mut d = n.len();
    while d > 0 && n[d - 1] != '.'
        invariant
            d <= n@.len(),
            last_before(n@, '.', d as int) == last_before(n@, '.', n@.len() as int),
        decreases d,
    {
        d -= 1;
    }
    let stem = if d > 1 {
        crate::text::slice(&n, 0, d - 1)
    } else {
        crate::text::slice(&n, 0, n.len())
    };
    assert(stem@ =~= stem_of(n@));
    let lower = lowercase(string_of(&stem).as_str());
    let l = chars_of(lower.as_str());
    if same(&l, &chars_of("bash")) || same(&l, &chars_of("sh")) {
        Some(Shell::Bash)
    } else if same(&l, &chars_of("zsh")) {
        Some(Shell::Zsh)
    } else if same(&l, &chars_of("fish")) {
        Some(Shell::Fish)
    } else if same(&l, &chars_of("pwsh")) || same(&l, &chars_of("powershell")) {
        Some(Shell::PowerShell)
    } else {
        None
    }
}


// ---------------------------------------------------------------------------
// Installing and stripping leave the user's own lines alone
// ---------------------------------------------------------------------------

/// Whether `line` neither opens nor closes the marked block.
pub open spec fn unmarked(line: Seq<char>) -> bool {
    trim(line) != BEGIN@ && trim(line) != END@
}

proof fn lemma_kept_run(ls: Seq<Seq<char>>, i: int, j: int)
    requires
        0 <= i <= j <= ls.len(),
        forall|k: int| i <= k < j ==> unmarked(#[trigger] ls[k]),
    ensures
        kept_from(ls, i, false) == ls.subrange(i, j) + kept_from(ls, j, false),
    decreases j - i,
{
    if i < j {
        lemma_kept_run(ls, i + 1, j);
        assert(ls.subrange(i, j) =~= seq![ls[i]] + ls.subrange(i + 1, j));
    } else {
        assert(ls.subrange(i, j) =~= Seq::<Seq<char>>::empty());
    }
}

/// A line whose first character is neither white space nor `#` is not a
/// marker.
proof fn lemma_plain_first(line: Seq<char>)
    requires
        line.len() > 0,
        !crate::text::is_ws(line[0]),
        line[0] != '#',
    ensures
        unmarked(line),
{
    reveal_strlit("# >>> lore >>>");
    reveal_strlit("# <<< lore <<<");
    crate::text::lemma_skip_ws(line, 0);
    let t = crate::text::trim_start(line);
    assert(t =~= line);
    crate::text::lemma_back_ws(t, t.len() as int);
    assert(crate::text::back_ws(t, t.len() as int) >= 1);
    assert(trim(line)[0] == line[0]);
}

proof fn lemma_markers()
    ensures
        crate::text::clean_line(BEGIN@),
        crate::text::clean_line(END@),
        trim(BEGIN@) == BEGIN@,
        trim(END@) == END@,
        BEGIN@ != END@,
        unmarked(seq![]),
{
    reveal_strlit("# >>> lore >>>");
    reveal_strlit("# <<< lore <<<");
    let b = BEGIN@;
    let e = END@;
    assert(b[2] != e[2]);
    assert(!b.contains('\n'));
    assert(!e.contains('\n'));
    crate::text::lemma_skip_ws(b, 0);
    crate::text::lemma_skip_ws(e, 0);
    assert(crate::text::trim_start(b) =~= b);
    assert(crate::text::trim_start(e) =~= e);
    crate::text::lemma_back_ws(b, b.len() as int);
    crate::text::lemma_back_ws(e, e.len() as int);
    assert(trim(b) =~= b);
    assert(trim(e) =~= e);
    assert(trim(seq![]) =~= Seq::<char>::empty());
}

/// The init line is one clean line that is not a marker.
proof fn lemma_init_line(shell: Shell, chord: Chord)
    requires
        crate::text::is_lower(chord.letter),
    ensures
        crate::text::clean_line(init_line_of(shell, chord)),
        unmarked(init_line_of(shell, chord)),
{
    reveal_strlit("eval \"$(lore init bash");
    reveal_strlit("eval \"$(lore init zsh");
    reveal_strlit(")\"");
    reveal_strlit("lore init fish");
    reveal_strlit(" | source");
    reveal_strlit("Invoke-Expression (& lore init powershell");
    reveal_strlit(" | Out-String)");
    reveal_strlit(" --key ");
    reveal_strlit("ctrl");
    reveal_strlit("alt");
    let key = key_argument(chord);
    assert(!key.contains('\n')) by {
        if key.contains('\n') {
            let k = choose|k: int| 0 <= k < key.len() && key[k] == '\n';
            assert(key != Seq::<char>::empty());
        }
    }
    let line = init_line_of(shell, chord);
    assert(!line.contains('\n')) by {
        if line.contains('\n') {
            let k = choose|k: int| 0 <= k < line.len() && line[k] == '\n';
            assert(key.contains('\n') || false) by {
                let (head, tail) = match shell {
                    Shell::Bash => ("eval \"$(lore init bash"@, ")\""@),
                    Shell::Zsh => ("eval \"$(lore init zsh"@, ")\""@),
                    Shell::Fish => ("lore init fish"@, " | source"@),
                    Shell::PowerShell => ("Invoke-Expression (& lore init powershell"@, " | Out-String)"@),
                };
                assert(line == head + key + tail);
                if k >= head.len() && k < head.len() + key.len() {
                    assert(key[k - head.len()] == '\n');
                }
            }
        }
    }
    assert(line[line.len() - 1] != '\r');
    lemma_plain_first(line);
}


/// The lines of the block setup appends, after the user's own.
pub open spec fn block_lines(shell: Shell, chord: Chord, guard: Option<Seq<char>>) -> Seq<Seq<char>> {
    match guard {
        Some(g) => seq![seq![], BEGIN@, g, init_line_of(shell, chord), END@],
        None => seq![seq![], BEGIN@, init_line_of(shell, chord), END@],
    }
}

proof fn lemma_block_lines(shell: Shell, chord: Chord, guard: Option<Seq<char>>)
    ensures
        block_of(shell, chord, guard) == joined(block_lines(shell, chord, guard)),
{
    let bl = block_lines(shell, chord, guard);
    reveal_with_fuel(joined, 6);
    let init = init_line_of(shell, chord);
    match guard {
        Some(g) => {
            assert(bl.drop_last() =~= seq![seq![], BEGIN@, g, init]);
            assert(bl.drop_last().drop_last() =~= seq![seq![], BEGIN@, g]);
            assert(bl.drop_last().drop_last().drop_last() =~= seq![seq![], BEGIN@]);
            assert(bl.drop_last().drop_last().drop_last().drop_last() =~= seq![Seq::<char>::empty()]);
            assert(seq![Seq::<char>::empty()].drop_last() =~= Seq::<Seq<char>>::empty());
            assert(joined(bl) =~= block_of(shell, chord, guard));
        },
        None => {
            assert(bl.drop_last() =~= seq![seq![], BEGIN@, init]);
            assert(bl.drop_last().drop_last() =~= seq![seq![], BEGIN@]);
            assert(bl.drop_last().drop_last().drop_last() =~= seq![Seq::<char>::empty()]);
            assert(seq![Seq::<char>::empty()].drop_last() =~= Seq::<Seq<char>>::empty());
            assert(joined(bl) =~= block_of(shell, chord, guard));
        },
    }
}

/// Stripping a profile that holds no marked block changes nothing.
pub proof fn lemma_strip_unmarked(ls: Seq<Seq<char>>)
    requires
        forall|k: int| 0 <= k < ls.len() ==> crate::text::clean_line(#[trigger] ls[k]),
        forall|k: int| 0 <= k < ls.len() ==> unmarked(#[trigger] ls[k]),
    ensures
        stripped(joined(ls)) == joined(ls),
{
    crate::text::lemma_lines_joined(ls);
    lemma_kept_run(ls, 0, ls.len() as int);
    assert(ls.subrange(0, ls.len() as int) =~= ls);
    assert(kept_from(ls, ls.len() as int, false) =~= Seq::<Seq<char>>::empty());
    assert(ls + Seq::<Seq<char>>::empty() =~= ls);
}

/// Installing the integration and then stripping it gives back the profile as
/// it was, followed by the blank line that set the block apart.
///
/// This holds of a profile made of whole lines, none of them a marker, and of
/// a guard that is one clean line that does not close the block.
pub proof fn lemma_install_then_strip(
    ls: Seq<Seq<char>>,
    shell: Shell,
    chord: Chord,
    guard: Option<Seq<char>>,
)
    requires
        forall|k: int| 0 <= k < ls.len() ==> crate::text::clean_line(#[trigger] ls[k]),
        forall|k: int| 0 <= k < ls.len() ==> unmarked(#[trigger] ls[k]),
        crate::text::is_lower(chord.letter),
        guard matches Some(g) ==> crate::text::clean_line(g) && trim(g) != END@,
    ensures
        stripped(joined(ls) + block_of(shell, chord, guard)) == joined(ls.push(seq![])),
{
    lemma_markers();
    lemma_init_line(shell, chord);
    lemma_block_lines(shell, chord, guard);
    let bl = block_lines(shell, chord, guard);
    let all = ls + bl;
    crate::text::lemma_joined_add(ls, bl);
    assert forall|k: int| 0 <= k < all.len() implies crate::text::clean_line(#[trigger] all[k]) by {
        if k < ls.len() {
            assert(all[k] == ls[k]);
        } else {
            assert(all[k] == bl[k - ls.len()]);
            assert(crate::text::clean_line(Seq::<char>::empty()));
        }
    }
    crate::text::lemma_lines_joined(all);
    assert forall|k: int| 0 <= k < ls.len() + 1 implies unmarked(#[trigger] all[k]) by {
        if k < ls.len() {
            assert(all[k] == ls[k]);
        } else {
            assert(all[k] == Seq::<char>::empty());
        }
    }
    let n = ls.len() as int;
    lemma_kept_run(all, 0, n + 1);
    assert(all.subrange(0, n + 1) =~= ls.push(seq![]));
    assert(all[n + 1] == BEGIN@);
    let init = init_line_of(shell, chord);
    match guard {
        Some(g) => {
            assert(all[n + 2] == g);
            assert(all[n + 3] == init);
            assert(all[n + 4] == END@);
            assert(all.len() == n + 5);
            assert(kept_from(all, n + 5, false) =~= Seq::<Seq<char>>::empty());
            assert(kept_from(all, n + 4, true) == kept_from(all, n + 5, false));
            assert(kept_from(all, n + 3, true) == kept_from(all, n + 4, true));
            if trim(g) == BEGIN@ {
                assert(kept_from(all, n + 2, true) == kept_from(all, n + 3, true));
            } else {
                assert(kept_from(all, n + 2, true) == kept_from(all, n + 3, true));
            }
            assert(kept_from(all, n + 1, false) == kept_from(all, n + 2, true));
        },
        None => {
            assert(all[n + 2] == init);
            assert(all[n + 3] == END@);
            assert(all.len() == n + 4);
            assert(kept_from(all, n + 4, false) =~= Seq::<Seq<char>>::empty());
            assert(kept_from(all, n + 3, true) == kept_from(all, n + 4, false));
            assert(kept_from(all, n + 2, true) == kept_from(all, n + 3, true));
            assert(kept_from(all, n + 1, false) == kept_from(all, n + 2, true));
        },
    }
    assert(ls.push(seq![]) + Seq::<Seq<char>>::empty() =~= ls.push(seq![]));
}


/// No two dashes stand side by side in `s`, so no `--key` flag is in it.
proof fn lemma_no_flag(s: Seq<char>)
    requires
        forall|i: int| 0 <= i < s.len() - 1 ==> !(#[trigger] s[i] == '-' && s[i + 1] == '-'),
    ensures
        !crate::text::contains(s, "--key"@),
{
    reveal_strlit("--key");
    if crate::text::contains(s, "--key"@) {
        let at = choose|at: int| crate::text::occurs_at(s, "--key"@, at);
        assert(s.subrange(at, at + 5)[0] == '-');
        assert(s.subrange(at, at + 5)[1] == '-');
        assert(s[at] == '-' && s[at + 1] == '-');
    }
}

/// The init line runs `lore init` for the shell, and carries `--key` exactly
/// when the chord is not the default, followed by the chord as `--key` takes
/// it.
pub proof fn lemma_init_line_key(shell: Shell, chord: Chord)
    ensures
        crate::text::contains(init_line_of(shell, chord), "lore init "@ + label_of(shell)),
        chord == Chord::default_chord() ==> !crate::text::contains(init_line_of(shell, chord), "--key"@),
        chord != Chord::default_chord() ==> crate::text::contains(
            init_line_of(shell, chord),
            " --key "@ + modifier_word(chord.modifier).push('-').push(chord.letter),
        ),
{
    reveal_strlit("eval \"$(lore init bash");
    reveal_strlit("eval \"$(lore init zsh");
    reveal_strlit("lore init fish");
    reveal_strlit("Invoke-Expression (& lore init powershell");
    reveal_strlit(")\"");
    reveal_strlit(" | source");
    reveal_strlit(" | Out-String)");
    reveal_strlit("lore init ");
    reveal_strlit("bash");
    reveal_strlit("zsh");
    reveal_strlit("fish");
    reveal_strlit("powershell");
    let line = init_line_of(shell, chord);
    let key = key_argument(chord);
    let (head, tail, at): (Seq<char>, Seq<char>, int) = match shell {
        Shell::Bash => ("eval \"$(lore init bash"@, ")\""@, 8),
        Shell::Zsh => ("eval \"$(lore init zsh"@, ")\""@, 8),
        Shell::Fish => ("lore init fish"@, " | source"@, 0),
        Shell::PowerShell => ("Invoke-Expression (& lore init powershell"@, " | Out-String)"@, 21),
    };
    assert(line == head + key + tail);
    let name = "lore init "@ + label_of(shell);
    assert(line.subrange(at, (at + name.len()) as int) =~= name);
    assert(crate::text::occurs_at(line, name, at));
    if chord == Chord::default_chord() {
        assert(line =~= head + tail);
        assert forall|i: int| 0 <= i < line.len() - 1 implies !(#[trigger] line[i] == '-' && line[i + 1] == '-') by {
        }
        lemma_no_flag(line);
    } else {
        let flag = " --key "@ + modifier_word(chord.modifier).push('-').push(chord.letter);
        assert(key == flag);
        assert(line.subrange(head.len() as int, (head.len() + flag.len()) as int) =~= flag);
        assert(crate::text::occurs_at(line, flag, head.len() as int));
    }
}


/// Whether a profile already holds the integration: it carries the opening
/// marker somewhere.
pub fn is_installed(profile: &str) -> (r: bool)
    ensures
        r == crate::text::contains(profile@, BEGIN@),
{
    crate::text::has(&chars_of(profile), &chars_of(BEGIN))
}


/// Installing the integration and then stripping it gives back the profile
/// text as it was, up to white space at its end, whatever the shell and the
/// chord.
pub proof fn lemma_install_then_strip_text(
    ls: Seq<Seq<char>>,
    shell: Shell,
    chord: Chord,
    guard: Option<Seq<char>>,
)
    requires
        forall|k: int| 0 <= k < ls.len() ==> crate::text::clean_line(#[trigger] ls[k]),
        forall|k: int| 0 <= k < ls.len() ==> unmarked(#[trigger] ls[k]),
        crate::text::is_lower(chord.letter),
        guard matches Some(g) ==> crate::text::clean_line(g) && trim(g) != END@,
    ensures
        crate::text::trim_end(stripped(joined(ls) + block_of(shell, chord, guard))) == crate::text::trim_end(
            joined(ls),
        ),
{
    lemma_install_then_strip(ls, shell, chord, guard);
    let empty: Seq<char> = seq![];
    assert(ls.push(empty).drop_last() =~= ls);
    assert(joined(ls.push(empty)) =~= joined(ls).push('\n'));
    crate::text::lemma_trim_end_ws(joined(ls), '\n');
}


/// The line a profile gets loads lore's script into the shell rather than
/// printing it: bash and zsh evaluate what `lore init` prints inside
/// `eval "$(...)"`, fish pipes it into `source`, and PowerShell pipes it
/// through `Out-String` into `Invoke-Expression`. The chord, when it is not
/// the default, goes in between as the `--key` argument.
pub proof fn lemma_init_line_loads(shell: Shell, chord: Chord)
    ensures
        shell == Shell::Bash ==> crate::text::starts_with(init_line_of(shell, chord), "eval \"$(lore init bash"@)
            && crate::text::ends_with(init_line_of(shell, chord), ")\""@),
        shell == Shell::Zsh ==> crate::text::starts_with(init_line_of(shell, chord), "eval \"$(lore init zsh"@)
            && crate::text::ends_with(init_line_of(shell, chord), ")\""@),
        shell == Shell::Fish ==> crate::text::starts_with(init_line_of(shell, chord), "lore init fish"@)
            && crate::text::ends_with(init_line_of(shell, chord), " | source"@),
        shell == Shell::PowerShell ==> crate::text::starts_with(
            init_line_of(shell, chord),
            "Invoke-Expression (& lore init powershell"@,
        ) && crate::text::ends_with(init_line_of(shell, chord), " | Out-String)"@),
{
    let line = init_line_of(shell, chord);
    let key = key_argument(chord);
    let (head, tail): (Seq<char>, Seq<char>) = match shell {
        Shell::Bash => ("eval \"$(lore init bash"@, ")\""@),
        Shell::Zsh => ("eval \"$(lore init zsh"@, ")\""@),
        Shell::Fish => ("lore init fish"@, " | source"@),
        Shell::PowerShell => ("Invoke-Expression (& lore init powershell"@, " | Out-String)"@),
    };
    assert(line == head + key + tail);
    assert(line.take(head.len() as int) =~= head);
    assert(line.skip(line.len() - tail.len()) =~= tail);
}

} // verus!
