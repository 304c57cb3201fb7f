//! Types describing a command library.

use vstd::prelude::*;

use crate::params::{opt_view, string_views};

verus! {

/// Shells that share a command dialect.
#[derive(Debug, Clone, Copy, PartialEq, Eq, Structural, PartialOrd, Ord)]
pub enum ShellFamily {
    Posix,
    PowerShell,
}

/// Where an entry came from. Later layers shadow earlier ones by id.
#[derive(Debug, Clone, Copy, PartialEq, Eq, Structural, PartialOrd, Ord)]
pub enum Layer {
    Builtin,
    Project,
    User,
}

impl Default for Layer {
    fn default() -> (r: Self)
        ensures
            r == Layer::Builtin,
    {
        Layer::Builtin
    }
}

/// The rank of a layer, weakest first.
pub open spec fn layer_rank(layer: Layer) -> int {
    match layer {
        Layer::Builtin => 0,
        Layer::Project => 1,
        Layer::User => 2,
    }
}

/// One command definition file.
#[derive(Debug)]
pub struct Library {
    pub version: u32,
    pub commands: Vec<Entry>,
    /// Glob patterns matched against entry ids, used to hide entries from
    /// earlier layers without redefining them.
    pub disabled: Vec<String>,
}

/// A command string, optionally specialised per shell family.
///
/// A per shell command lists each family at most once; the first pair for a
/// family is the one used.
#[derive(Debug, Clone)]
pub enum CommandBody {
    Shared(String),
    PerShell(Vec<(ShellFamily, String)>),
}

/// Optional metadata for a placeholder used in a command.
#[derive(Debug, Clone, Default)]
pub struct ParamSpec {
    pub desc: Option<String>,
    /// Command whose output supplies selectable values for this placeholder.
    /// Reserved by the schema; the current runtime ignores it and falls back to
    /// a free text prompt.
    pub from: Option<String>,
}

/// A single command a user can pick.
#[derive(Debug, Clone)]
pub struct Entry {
    pub id: String,
    pub cmd: CommandBody,
    pub desc: String,
    pub tags: Vec<String>,
    /// Placeholder metadata by name, each name at most once.
    pub params: Vec<(String, ParamSpec)>,
    /// Marks a destructive command so the picker can warn before it is inserted.
    pub danger: bool,
    pub layer: Layer,
}

pub enum BodyView {
    Shared(Seq<char>),
    PerShell(Seq<(ShellFamily, Seq<char>)>),
}

pub struct ParamView {
    pub desc: Option<Seq<char>>,
    pub from: Option<Seq<char>>,
}

pub struct EntryView {
    pub id: Seq<char>,
    pub cmd: BodyView,
    pub desc: Seq<char>,
    pub tags: Seq<Seq<char>>,
    pub params: Seq<(Seq<char>, ParamView)>,
    pub danger: bool,
    pub layer: Layer,
}

pub open spec fn variant_views(v: Seq<(ShellFamily, String)>) -> Seq<(ShellFamily, Seq<char>)> {
    v.map_values(|p: (ShellFamily, String)| (p.0, p.1@))
}

impl View for CommandBody {
    type V = BodyView;

    open spec fn view(&self) -> BodyView {
        match self {
            CommandBody::Shared(s) => BodyView::Shared(s@),
            CommandBody::PerShell(v) => BodyView::PerShell(variant_views(v@)),
        }
    }
}

impl View for ParamSpec {
    type V = ParamView;

    open spec fn view(&self) -> ParamView {
        ParamView { desc: opt_view(self.desc), from: opt_view(self.from) }
    }
}

pub open spec fn param_views(v: Seq<(String, ParamSpec)>) -> Seq<(Seq<char>, ParamView)> {
    v.map_values(|p: (String, ParamSpec)| (p.0@, p.1@))
}

impl View for Entry {
    type V = EntryView;

    open spec fn view(&self) -> EntryView {
        EntryView {
            id: self.id@,
            cmd: self.cmd@,
            desc: self.desc@,
            tags: string_views(self.tags@),
            params: param_views(self.params@),
            danger: self.danger,
            layer: self.layer,
        }
    }
}

pub open spec fn entry_views(v: Seq<Entry>) -> Seq<EntryView> {
    v.map_values(|e: Entry| e@)
}

/// The first variant written for `family`.
pub open spec fn variant_for(v: Seq<(ShellFamily, Seq<char>)>, family: ShellFamily) -> Option<
    Seq<char>,
>
    decreases v.len(),
{
    if v.len() == 0 {
        None
    } else if v[0].0 == family {
        Some(v[0].1)
    } else {
        variant_for(v.drop_first(), family)
    }
}

/// The command text of `body` for `family`, if it has one.
pub open spec fn body_for(body: BodyView, family: ShellFamily) -> Option<Seq<char>> {
    match body {
        BodyView::Shared(s) => Some(s),
        BodyView::PerShell(v) => variant_for(v, family),
    }
}

impl Entry {
    /// The command text for `family`, or `None` when this entry has no variant
    /// for it and should be hidden from that shell.
    pub fn cmd_for(&self, family: ShellFamily) -> (r: Option<&str>)
        ensures
            match r {
                Some(s) => body_for(self.cmd@, family) == Some(s@),
                None => body_for(self.cmd@, family) is None,
            },
    {
        match &self.cmd {
            CommandBody::Shared(cmd) => Some(cmd.as_str()),
            CommandBody::PerShell(variants) => {
                let mut i: usize = 0;
                assert(variant_views(variants@).skip(0) =~= variant_views(variants@));
                while i < variants.len()
                    invariant
                        i <= variants@.len(),
                        body_for(self.cmd@, family) == variant_for(
                            variant_views(variants@).skip(i as int),
                            family,
                        ),
                        self.cmd == CommandBody::PerShell(*variants),
                    decreases variants@.len() - i,
                {
                    let ghost rest = variant_views(variants@).skip(i as int);
                    assert(rest.drop_first() =~= variant_views(variants@).skip(i + 1));
                    if variants[i].0 == family {
                        return Some(variants[i].1.as_str());
                    }
                    i += 1;
                }
                None
            },
        }
    }
}


/// A copy of each string of `v`.
pub fn copy_strings(v: &Vec<String>) -> (r: Vec<String>)
    ensures
        string_views(r@) == string_views(v@),
{
    let mut out: Vec<String> = Vec::new();
    let mut i: usize = 0;
    while i < v.len()
        invariant
            i <= v@.len(),
            string_views(out@) == string_views(v@).take(i as int),
        decreases v@.len() - i,
    {
        let ghost before = out@;
        let c = v[i].clone();
        out.push(c);
        assert(string_views(out@) =~= string_views(before).push(v@[i as int]@));
        assert(string_views(v@).take(i + 1) =~= string_views(v@).take(i as int).push(
            v@[i as int]@,
        ));
        i += 1;
    }
    assert(string_views(v@).take(i as int) =~= string_views(v@));
    out
}

/// Whether two lists hold the same strings in the same order.
pub fn same_strings(a: &Vec<String>, b: &Vec<String>) -> (r: bool)
    ensures
        r == (string_views(a@) == string_views(b@)),
{
    if a.len() != b.len() {
        assert(string_views(a@).len() != string_views(b@).len());
        return false;
    }
    let mut i: usize = 0;
    while i < a.len()
        invariant
            i <= a@.len(),
            a@.len() == b@.len(),
            forall|k: int| 0 <= k < i ==> string_views(a@)[k] == string_views(b@)[k],
        decreases a@.len() - i,
    {
        if a[i] != b[i] {
            assert(string_views(a@)[i as int] != string_views(b@)[i as int]);
            return false;
        }
        i += 1;
    }
    assert(string_views(a@) =~= string_views(b@));
    true
}

fn copy_opt(o: &Option<String>) -> (r: Option<String>)
    ensures
        opt_view(r) == opt_view(*o),
{
    match o {
        Some(s) => Some(s.clone()),
        None => None,
    }
}

fn same_opt(a: &Option<String>, b: &Option<String>) -> (r: bool)
    ensures
        r == (opt_view(*a) == opt_view(*b)),
{
    match (a, b) {
        (Some(x), Some(y)) => *x == *y,
        (None, None) => true,
        _ => false,
    }
}

impl CommandBody {
    /// A copy of this command.
    pub fn copied(&self) -> (r: CommandBody)
        ensures
            r@ == self@,
    {
        match self {
            CommandBody::Shared(s) => CommandBody::Shared(s.clone()),
            CommandBody::PerShell(v) => {
                let mut out: Vec<(ShellFamily, String)> = Vec::new();
                let mut i: usize = 0;
                while i < v.len()
                    invariant
                        i <= v@.len(),
                        variant_views(out@) == variant_views(v@).take(i as int),
                    decreases v@.len() - i,
                {
                    let (f, t) = &v[i];
                    let ghost before = out@;
                    out.push((*f, t.clone()));
                    assert(variant_views(out@) =~= variant_views(before).push((v@[i as int].0, v@[i as int].1@)));
                    assert(variant_views(v@).take(i + 1) =~= variant_views(v@).take(i as int).push(
                        (v@[i as int].0, v@[i as int].1@),
                    ));
                    i += 1;
                }
                assert(variant_views(v@).take(i as int) =~= variant_views(v@));
                CommandBody::PerShell(out)
            },
        }
    }

    /// Whether two commands are written the same way.
    pub fn same_as(&self, other: &CommandBody) -> (r: bool)
        ensures
            r == (self@ == other@),
    {
        match (self, other) {
            (CommandBody::Shared(a), CommandBody::Shared(b)) => *a == *b,
            (CommandBody::PerShell(a), CommandBody::PerShell(b)) => {
                assert(self@ == BodyView::PerShell(variant_views(a@)));
                assert(other@ == BodyView::PerShell(variant_views(b@)));
                if a.len() != b.len() {
                    assert(variant_views(a@).len() != variant_views(b@).len());
                    return false;
                }
                let mut i: usize = 0;
                while i < a.len()
                    invariant
                        i <= a@.len(),
                        a@.len() == b@.len(),
                        self@ == BodyView::PerShell(variant_views(a@)),
                        other@ == BodyView::PerShell(variant_views(b@)),
                        forall|k: int| 0 <= k < i ==> variant_views(a@)[k] == variant_views(b@)[k],
                    decreases a@.len() - i,
                {
                    if a[i].0 != b[i].0 || a[i].1 != b[i].1 {
                        assert(variant_views(a@)[i as int] != variant_views(b@)[i as int]);
                        return false;
                    }
                    i += 1;
                }
                assert(variant_views(a@) =~= variant_views(b@));
                true
            },
            (CommandBody::Shared(_), CommandBody::PerShell(_)) => false,
            (CommandBody::PerShell(_), CommandBody::Shared(_)) => false,
        }
    }
}

/// A copy of each named placeholder description of `v`.
pub fn copy_params(v: &Vec<(String, ParamSpec)>) -> (r: Vec<(String, ParamSpec)>)
    ensures
        param_views(r@) == param_views(v@),
{
    let mut out: Vec<(String, ParamSpec)> = Vec::new();
    let mut i: usize = 0;
    while i < v.len()
        invariant
            i <= v@.len(),
            param_views(out@) == param_views(v@).take(i as int),
        decreases v@.len() - i,
    {
        let (name, spec) = &v[i];
        let copy = ParamSpec { desc: copy_opt(&spec.desc), from: copy_opt(&spec.from) };
        let ghost before = out@;
        assert(copy@ == v@[i as int].1@);
        out.push((name.clone(), copy));
        assert(param_views(out@) =~= param_views(before).push((v@[i as int].0@, v@[i as int].1@)));
        assert(param_views(v@).take(i + 1) =~= param_views(v@).take(i as int).push(
            (v@[i as int].0@, v@[i as int].1@),
        ));
        i += 1;
    }
    assert(param_views(v@).take(i as int) =~= param_views(v@));
    out
}

fn same_params(a: &Vec<(String, ParamSpec)>, b: &Vec<(String, ParamSpec)>) -> (r: bool)
    ensures
        r == (param_views(a@) == param_views(b@)),
{
    if a.len() != b.len() {
        assert(param_views(a@).len() != param_views(b@).len());
        return false;
    }
    let mut i: usize = 0;
    while i < a.len()
        invariant
            i <= a@.len(),
            a@.len() == b@.len(),
            forall|k: int| 0 <= k < i ==> param_views(a@)[k] == param_views(b@)[k],
        decreases a@.len() - i,
    {
        let (na, sa) = &a[i];
        let (nb, sb) = &b[i];
        if *na != *nb || !same_opt(&sa.desc, &sb.desc) || !same_opt(&sa.from, &sb.from) {
            assert(param_views(a@)[i as int] != param_views(b@)[i as int]);
            return false;
        }
        assert(param_views(a@)[i as int] == param_views(b@)[i as int]);
        i += 1;
    }
    assert(param_views(a@) =~= param_views(b@));
    true
}

impl Entry {
    /// A copy of this entry.
    pub fn copied(&self) -> (r: Entry)
        ensures
            r@ == self@,
    {
        Entry {
            id: self.id.clone(),
            cmd: self.cmd.copied(),
            desc: self.desc.clone(),
            tags: copy_strings(&self.tags),
            params: copy_params(&self.params),
            danger: self.danger,
            layer: self.layer,
        }
    }

    /// Whether two entries say the same thing in every field.
    pub fn same_as(&self, other: &Entry) -> (r: bool)
        ensures
            r == (self@ == other@),
    {
        self.id == other.id && self.cmd.same_as(&other.cmd) && self.desc == other.desc
            && same_strings(&self.tags, &other.tags) && same_params(&self.params, &other.params)
            && self.danger == other.danger && self.layer == other.layer
    }
}

} // verus!
