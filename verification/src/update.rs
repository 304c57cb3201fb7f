//! Telling people a newer lore exists, without ever installing one.
//!
//! lore never replaces its own binary. A tool that quietly downloads and runs
//! new code is a way in for anyone who takes over the project's releases, it
//! fights whichever package manager installed it, and a keystroke that has to
//! open a panel is no place to wait on a download. So this only ever prints a
//! line naming the command the user would run themselves.
//!
//! Only a new first or second number is worth saying anything about. Patch
//! releases are frequent and each one would be another line in front of
//! somebody who did not ask.

use vstd::prelude::*;

use crate::text::{
    append_str, chars_of, contains, decimal, decimal_of, has, is_digit, joined_with, join_with,
    lines, owned, push_all, push_char, split_char, split_lines, split_on, string_of, trim,
    trimmed, views,
};

verus! {

broadcast use vstd::string::group_string_axioms;

/// The project's own repository, which is where releases are announced.
pub const REPOSITORY: &'static str = "https://github.com/alpcakin/lore";

/// A released version, compared by what the release numbers mean.
#[derive(Debug, Clone, Copy, PartialEq, Eq, Structural, PartialOrd, Ord)]
pub struct Version {
    pub major: u32,
    pub minor: u32,
    pub patch: u32,
}

/// The value of a run of decimal digits.
pub open spec fn digits_value(s: Seq<char>) -> nat
    decreases s.len(),
{
    if s.len() == 0 {
        0
    } else {
        digits_value(s.drop_last()) * 10 + ((s.last() as nat) - 48) as nat
    }
}

pub open spec fn all_digits(s: Seq<char>) -> bool {
    forall|i: int| 0 <= i < s.len() ==> is_digit(#[trigger] s[i])
}

/// What `str::parse::<u32>` makes of `s`: an optional plus sign, then at
/// least one digit, within range.
pub open spec fn parse_u32(s: Seq<char>) -> Option<u32> {
    let d = if s.len() > 0 && s[0] == '+' {
        s.drop_first()
    } else {
        s
    };
    if d.len() > 0 && all_digits(d) && digits_value(d) <= u32::MAX {
        Some(digits_value(d) as u32)
    } else {
        None
    }
}

proof fn lemma_digits_grow(s: Seq<char>, i: int)
    requires
        0 <= i <= s.len(),
        all_digits(s),
    ensures
        digits_value(s.take(i)) <= digits_value(s),
    decreases s.len() - i,
{
    if i < s.len() {
        lemma_digits_grow(s, i + 1);
        assert(s.take(i + 1).drop_last() =~= s.take(i));
        assert(is_digit(s[i]));
    } else {
        assert(s.take(i) =~= s);
    }
}

fn number(s: &[char]) -> (r: Option<u32>)
    ensures
        r == parse_u32(s@),
{
    let start: usize = if s.len() > 0 && s[0] == '+' {
        1
    } else {
        0
    };
    let ghost d = if s@.len() > 0 && s@[0] == '+' {
        s@.drop_first()
    } else {
        s@
    };
    assert(d =~= s@.skip(start as int));
    if start >= s.len() {
        return None;
    }
    let mut value: u64 = 0;
    let mut i = start;
    while i < s.len()
        invariant
            start <= i <= s@.len(),
            d =~= s@.skip(start as int),
            d == (if s@.len() > 0 && s@[0] == '+' {
                s@.drop_first()
            } else {
                s@
            }),
            all_digits(d.take(i - start)),
            value == digits_value(d.take(i - start)),
            value <= u32::MAX,
        decreases s@.len() - i,
    {
        let c = s[i];
        if !('0' <= c && c <= '9') {
            assert(d[i - start] == c);
            assert(!is_digit(d[i - start]));
            assert(!all_digits(d));
            return None;
        }
        assert(d.take(i - start + 1).drop_last() =~= d.take(i - start));
        assert(d.take(i - start + 1).last() == c);
        let next = value * 10 + ((c as u32) - 48) as u64;
        assert(all_digits(d.take(i - start + 1)));
        assert(next == digits_value(d.take(i - start + 1)));
        if next > u32::MAX as u64 {
            proof {
                if all_digits(d) {
                    lemma_digits_grow(d, i - start + 1);
                }
            }
            return None;
        }
        value = next;
        i += 1;
    }
    assert(d.take(i - start) =~= d);
    Some(value as u32)
}

/// The position in `s` after any leading `c`, from `i` on.
pub open spec fn skip_char(s: Seq<char>, c: char, i: int) -> int
    decreases s.len() - i,
{
    if 0 <= i < s.len() && s[i] == c {
        skip_char(s, c, i + 1)
    } else {
        i
    }
}

/// What `Version::parse` reads: `1.2.3`, trimmed, with any leading `v`s.
pub open spec fn parse_version(text: Seq<char>) -> Option<Version> {
    let t = trim(text);
    let parts = split_on(t.skip(skip_char(t, 'v', 0)), '.');
    if parts.len() == 3 && parse_u32(parts[0]) is Some && parse_u32(parts[1]) is Some
        && parse_u32(parts[2]) is Some {
        Some(
            Version {
                major: parse_u32(parts[0])->0,
                minor: parse_u32(parts[1])->0,
                patch: parse_u32(parts[2])->0,
            },
        )
    } else {
        None
    }
}

/// Whether `a` is a later release than `b`.
pub open spec fn later(a: Version, b: Version) -> bool {
    a.major > b.major || (a.major == b.major && (a.minor > b.minor || (a.minor == b.minor
        && a.patch > b.patch)))
}

/// `major.minor.patch`.
pub open spec fn label_of(v: Version) -> Seq<char> {
    decimal_of(v.major as nat).push('.') + decimal_of(v.minor as nat).push('.') + decimal_of(
        v.patch as nat,
    )
}

/// Releases are ordered by their major number, then their minor number, then
/// their patch number: one is later than another exactly when its three
/// numbers, read as one number with the major most significant, are larger.
/// So a new major release is later whatever the other numbers say, and of
/// two releases one is later, or they are the same.
pub proof fn lemma_later_is_version_order(a: Version, b: Version)
    ensures
        later(a, b) <==> a.major * 0x1_0000_0000_0000_0000int + a.minor * 0x1_0000_0000int + a.patch
            > b.major * 0x1_0000_0000_0000_0000int + b.minor * 0x1_0000_0000int + b.patch,
        a.major > b.major ==> later(a, b),
        a.major == b.major && a.minor > b.minor ==> later(a, b),
        later(a, b) ==> !later(b, a),
        a != b ==> later(a, b) || later(b, a),
{
    let ka = a.major * 0x1_0000_0000_0000_0000int + a.minor * 0x1_0000_0000int + a.patch;
    let kb = b.major * 0x1_0000_0000_0000_0000int + b.minor * 0x1_0000_0000int + b.patch;
    assert(later(a, b) <==> ka > kb) by (nonlinear_arith)
        requires
            a.major <= u32::MAX && a.minor <= u32::MAX && a.patch <= u32::MAX,
            b.major <= u32::MAX && b.minor <= u32::MAX && b.patch <= u32::MAX,
            later(a, b) == (a.major > b.major || (a.major == b.major && (a.minor > b.minor || (a.minor
                == b.minor && a.patch > b.patch)))),
            ka == a.major * 0x1_0000_0000_0000_0000int + a.minor * 0x1_0000_0000int + a.patch,
            kb == b.major * 0x1_0000_0000_0000_0000int + b.minor * 0x1_0000_0000int + b.patch,
    ;
}

impl Version {
    /// Parses `1.2.3`, with or without a leading `v`. Anything else, such as
    /// a release candidate, is not a version this offers to anyone.
    pub fn parse(text: &str) -> (r: Option<Version>)
        ensures
            r == parse_version(text@),
    {
        let t = trimmed(&chars_of(text));
        let mut i: usize = 0;
        while i < t.len() && t[i] == 'v'
            invariant
                i <= t@.len(),
                skip_char(t@, 'v', i as int) == skip_char(t@, 'v', 0),
            decreases t@.len() - i,
        {
            i += 1;
        }
        let rest = crate::text::slice(&t, i, t.len());
        assert(rest@ =~= t@.skip(i as int));
        let parts = split_char(&rest, '.');
        if parts.len() != 3 {
            return None;
        }
        assert(parts@[0]@ == views(parts@)[0]);
        assert(parts@[1]@ == views(parts@)[1]);
        assert(parts@[2]@ == views(parts@)[2]);
        let major = match number(&parts[0]) {
            Some(n) => n,
            None => return None,
        };
        let minor = match number(&parts[1]) {
            Some(n) => n,
            None => return None,
        };
        let patch = match number(&parts[2]) {
            Some(n) => n,
            None => return None,
        };
        Some(Version { major, minor, patch })
    }

    /// Whether this is a later release than `other`.
    pub fn newer_than(&self, other: &Version) -> (r: bool)
        ensures
            r == later(*self, *other),
    {
        self.major > other.major || (self.major == other.major && (self.minor > other.minor || (
        self.minor == other.minor && self.patch > other.patch)))
    }

    /// Whether `self` is a release worth interrupting someone about: a new
    /// first or second number, never a third.
    pub fn worth_announcing_over(&self, current: &Version) -> (r: bool)
        ensures
            r == (self.major > current.major || (self.major == current.major && self.minor
                > current.minor)),
    {
        self.major > current.major || (self.major == current.major && self.minor > current.minor)
    }

    /// The version written as `major.minor.patch`.
    pub fn label(&self) -> (r: String)
        ensures
            r@ == label_of(*self),
    {
        let mut out: Vec<char> = decimal(self.major as u128);
        out.push('.');
        crate::text::extend(&mut out, &decimal(self.minor as u128));
        out.push('.');
        crate::text::extend(&mut out, &decimal(self.patch as u128));
        assert(out@ =~= label_of(*self));
        string_of(&out)
    }
}

/// Which command upgrades an install living at `exe`, by the package manager
/// whose directory it sits in.
pub open spec fn upgrade_of(exe: Seq<char>) -> Seq<char> {
    let path = crate::shell::replaced(exe, '\\', seq!['/']);
    if contains(path, "/Cellar/"@) || contains(path, "/homebrew/"@) || contains(
        path,
        "/linuxbrew/"@,
    ) {
        "Run: brew upgrade lore"@
    } else if contains(path, "/scoop/"@) {
        "Run: scoop update lore"@
    } else if contains(path, "/.cargo/"@) {
        "Run: cargo install cmdlore --force"@
    } else {
        "Upgrade from "@ + REPOSITORY@ + "/releases"@
    }
}

fn with_releases(head: &str) -> (r: String)
    ensures
        r@ == head@ + REPOSITORY@ + "/releases"@,
{
    let mut s = owned(head);
    append_str(&mut s, REPOSITORY);
    append_str(&mut s, "/releases");
    s
}

/// How to upgrade an install that lives at `exe`.
///
/// Whoever installed lore through a package manager has to upgrade it through
/// the same one, or the package manager is left believing something that is no
/// longer true.
pub fn upgrade_command(exe: &str) -> (r: String)
    ensures
        r@ == upgrade_of(exe@),
{
    let path = crate::shell::replace_char(&chars_of(exe), '\\', "/");
    proof {
        crate::text::reveal_slash();
    }
    if has(&path, &chars_of("/Cellar/")) || has(&path, &chars_of("/homebrew/")) || has(
        &path,
        &chars_of("/linuxbrew/"),
    ) {
        owned("Run: brew upgrade lore")
    } else if has(&path, &chars_of("/scoop/")) {
        owned("Run: scoop update lore")
    } else if has(&path, &chars_of("/.cargo/")) {
        owned("Run: cargo install cmdlore --force")
    } else {
        with_releases("Upgrade from ")
    }
}

/// What to tell someone running `current` when `latest` is out, if anything.
pub open spec fn advice_of(current: Version, latest: Version, exe: Seq<char>) -> Option<Seq<char>> {
    if latest.major > current.major || (latest.major == current.major && latest.minor
        > current.minor) {
        Some("lore "@ + label_of(latest) + " is out. "@ + upgrade_of(exe))
    } else {
        None
    }
}

/// What to tell someone running `current` when `latest` is out.
pub fn advice(current: &Version, latest: &Version, exe: &str) -> (r: Option<String>)
    ensures
        crate::shell::opt_string_view(r) == advice_of(*current, *latest, exe@),
{
    if !latest.worth_announcing_over(current) {
        return None;
    }
    let mut s = owned("lore ");
    append_str(&mut s, latest.label().as_str());
    append_str(&mut s, " is out. ");
    append_str(&mut s, upgrade_command(exe).as_str());
    Some(s)
}

/// The lines `lore version` prints.
pub open spec fn report_lines(current: Version, latest: Option<Version>, exe: Option<Seq<char>>) -> Seq<
    Seq<char>,
> {
    let first = "lore "@ + label_of(current);
    match latest {
        None => seq![
            first,
            "Could not check for a newer release"@,
            "Releases are listed at "@ + REPOSITORY@ + "/releases"@,
        ],
        Some(l) => if later(l, current) {
            seq![
                first,
                "The newest release is "@ + label_of(l),
                match exe {
                    Some(e) => upgrade_of(e),
                    None => "Upgrade from "@ + REPOSITORY@ + "/releases"@,
                },
            ]
        } else {
            seq![first, "This is the newest release"@]
        },
    }
}

/// What `lore version` prints: this version, the newest release, and what to
/// do about the difference. A patch release counts here: somebody who asked
/// outright is told about it.
pub fn report(current: &Version, latest: Option<Version>, exe: Option<&str>) -> (r: String)
    ensures
        r@ == joined_with(
            report_lines(
                *current,
                latest,
                match exe {
                    Some(e) => Some(e@),
                    None => None,
                },
            ),
            '\n',
        ),
{
    let mut lines: Vec<Vec<char>> = Vec::new();
    lines.push(chars_of(concat_label("lore ", current).as_str()));
    match latest {
        None => {
            lines.push(chars_of("Could not check for a newer release"));
            lines.push(chars_of(with_releases("Releases are listed at ").as_str()));
        },
        Some(l) => {
            if l.newer_than(current) {
                lines.push(chars_of(concat_label("The newest release is ", &l).as_str()));
                let how = match exe {
                    Some(e) => upgrade_command(e),
                    None => with_releases("Upgrade from "),
                };
                lines.push(chars_of(how.as_str()));
            } else {
                lines.push(chars_of("This is the newest release"));
            }
        },
    }
    let ghost want = report_lines(
        *current,
        latest,
        match exe {
            Some(e) => Some(e@),
            None => None,
        },
    );
    assert(views(lines@) =~= want);
    string_of(&join_with(&lines, '\n'))
}

fn concat_label(head: &str, v: &Version) -> (r: String)
    ensures
        r@ == head@ + label_of(*v),
{
    let mut s = owned(head);
    append_str(&mut s, v.label().as_str());
    s
}

/// The part of `line` after the last `refs/tags/`, or all of it.
pub open spec fn tag_of(line: Seq<char>) -> Seq<char> {
    match crate::text::last_occurrence(line, "refs/tags/"@) {
        Some(at) => line.skip(at + "refs/tags/"@.len()),
        None => line,
    }
}

/// The highest release named in `ls`, each line read as `tag_of` gives it.
pub open spec fn newest_of(ls: Seq<Seq<char>>) -> Option<Version>
    decreases ls.len(),
{
    if ls.len() == 0 {
        None
    } else {
        let before = newest_of(ls.drop_last());
        match parse_version(tag_of(ls.last())) {
            None => before,
            Some(v) => match before {
                Some(b) => if later(b, v) {
                    Some(b)
                } else {
                    Some(v)
                },
                None => Some(v),
            },
        }
    }
}

/// The highest release in the output of `git ls-remote --tags`.
pub fn newest(refs: &str) -> (r: Option<Version>)
    ensures
        r == newest_of(lines(refs@)),
{
    let ls = split_lines(&chars_of(refs));
    let marker = chars_of("refs/tags/");
    let mut best: Option<Version> = None;
    let mut i: usize = 0;
    while i < ls.len()
        invariant
            i <= ls@.len(),
            marker@ == "refs/tags/"@,
            views(ls@) == lines(refs@),
            best == newest_of(views(ls@).take(i as int)),
        decreases ls@.len() - i,
    {
        assert(views(ls@).take(i + 1).drop_last() =~= views(ls@).take(i as int));
        assert(views(ls@).take(i + 1).last() == ls@[i as int]@);
        assert(ls@[i as int]@.len() == ls[i as int].len());
        let tag = match crate::text::find_last(&ls[i], &marker) {
            Some(at) => crate::text::slice(&ls[i], at + marker.len(), ls[i].len()),
            None => crate::text::slice(&ls[i], 0, ls[i].len()),
        };
        assert(tag@ =~= tag_of(ls@[i as int]@));
        match Version::parse(string_of(&tag).as_str()) {
            None => {},
            Some(v) => {
                best = match best {
                    Some(b) => if b.newer_than(&v) {
                        Some(b)
                    } else {
                        Some(v)
                    },
                    None => Some(v),
                };
            },
        }
        i += 1;
    }
    assert(views(ls@).take(i as int) =~= views(ls@));
    best
}

} // verus!
