//! Checking command definition files and merging them into one library.
//!
//! Layers are merged weakest first, so a later layer shadows an earlier one by
//! entry id. Any layer may also hide entries by glob pattern without redefining
//! them.

use vstd::prelude::*;

use crate::model::{entry_views, Entry, EntryView, Layer, Library};
use globset::GlobSet;
use crate::params::{list_has, string_views};
use crate::store::definitions::SCHEMA_VERSION;
use crate::store::patterns::{
    add_glob, any_matches, build_set, builder_patterns, escaped, glob_error_text, glob_valid, lemma_escaped_matching,
    new_builder, parse_glob, set_builds, set_matches, set_patterns, PathStyle,
};
use crate::text::{chars_of, decimal, decimal_of, extend, extend_str, string_of, trim, trimmed};

verus! {

broadcast use vstd::string::group_string_axioms;

/// Why a library file, or the layers together, cannot be loaded.
#[derive(Debug, Clone, PartialEq, Eq)]
pub enum LoadError {
    /// The file declares a schema version this build does not understand.
    Version(u32),
    /// An entry has an id made of nothing but white space.
    EmptyId,
    /// The entry with this id has a description made of nothing but white
    /// space.
    EmptyDesc(String),
    /// This id is defined more than once in one file.
    Duplicate(String),
    /// This disable pattern is not a glob, with what `globset` said of it.
    BadPattern(String, String),
    /// The disable patterns could not be compiled together, with what
    /// `globset` said of them.
    Patterns(String),
}

pub enum LoadFault {
    Version(u32),
    EmptyId,
    EmptyDesc(Seq<char>),
    Duplicate(Seq<char>),
    BadPattern(Seq<char>, Seq<char>),
    Patterns(Seq<char>),
}

impl View for LoadError {
    type V = LoadFault;

    open spec fn view(&self) -> LoadFault {
        match self {
            LoadError::Version(v) => LoadFault::Version(*v),
            LoadError::EmptyId => LoadFault::EmptyId,
            LoadError::EmptyDesc(id) => LoadFault::EmptyDesc(id@),
            LoadError::Duplicate(id) => LoadFault::Duplicate(id@),
            LoadError::BadPattern(p, cause) => LoadFault::BadPattern(p@, cause@),
            LoadError::Patterns(cause) => LoadFault::Patterns(cause@),
        }
    }
}

/// What a load error says, for a file named `origin`.
pub open spec fn fault_text(f: LoadFault, origin: Seq<char>) -> Seq<char> {
    match f {
        LoadFault::Version(v) => origin + " declares schema version "@ + decimal_of(v as nat)
            + ", this build understands 1"@,
        LoadFault::EmptyId => origin + " contains an entry with an empty id"@,
        LoadFault::EmptyDesc(id) => origin + " entry `"@ + id + "` has an empty description"@,
        LoadFault::Duplicate(id) => origin + " defines `"@ + id + "` more than once"@,
        LoadFault::BadPattern(p, cause) => "`"@ + p + "` is not a valid disable pattern: "@ + cause,
        LoadFault::Patterns(cause) => "failed to compile disable patterns: "@ + cause,
    }
}

impl LoadError {
    /// What went wrong, in words, for a file named `origin`.
    pub fn message(&self, origin: &str) -> (r: String)
        ensures
            r@ == fault_text(self@, origin@),
    {
        let mut out = chars_of(origin);
        match self {
            LoadError::Version(v) => {
                extend_str(&mut out, " declares schema version ");
                extend(&mut out, &decimal(*v as u128));
                extend_str(&mut out, ", this build understands 1");
            },
            LoadError::EmptyId => {
                extend_str(&mut out, " contains an entry with an empty id");
            },
            LoadError::EmptyDesc(id) => {
                extend_str(&mut out, " entry `");
                extend_str(&mut out, id.as_str());
                extend_str(&mut out, "` has an empty description");
            },
            LoadError::Duplicate(id) => {
                extend_str(&mut out, " defines `");
                extend_str(&mut out, id.as_str());
                extend_str(&mut out, "` more than once");
            },
            LoadError::BadPattern(p, cause) => {
                out = chars_of("`");
                extend_str(&mut out, p.as_str());
                extend_str(&mut out, "` is not a valid disable pattern: ");
                extend_str(&mut out, cause.as_str());
            },
            LoadError::Patterns(cause) => {
                out = chars_of("failed to compile disable patterns: ");
                extend_str(&mut out, cause.as_str());
            },
        }
        string_of(&out)
    }
}

/// What is wrong with entry `i` of a file, given the entries before it.
pub open spec fn entry_fault(es: Seq<EntryView>, i: int) -> Option<LoadFault> {
    if trim(es[i].id).len() == 0 {
        Some(LoadFault::EmptyId)
    } else if trim(es[i].desc).len() == 0 {
        Some(LoadFault::EmptyDesc(es[i].id))
    } else if exists|j: int| 0 <= j < i && (#[trigger] es[j]).id == es[i].id {
        Some(LoadFault::Duplicate(es[i].id))
    } else {
        None
    }
}

/// What is wrong with the first faulty entry at or after `i`.
pub open spec fn first_fault(es: Seq<EntryView>, i: int) -> Option<LoadFault>
    decreases es.len() - i,
{
    if 0 <= i < es.len() {
        match entry_fault(es, i) {
            Some(f) => Some(f),
            None => first_fault(es, i + 1),
        }
    } else {
        None
    }
}

/// What stops a file with this version and these entries from loading.
pub open spec fn library_fault(version: u32, es: Seq<EntryView>) -> Option<LoadFault> {
    if version != SCHEMA_VERSION {
        Some(LoadFault::Version(version))
    } else {
        first_fault(es, 0)
    }
}

/// `e` as it stands in `layer`.
pub open spec fn stamp(e: EntryView, layer: Layer) -> EntryView {
    EntryView {
        id: e.id,
        cmd: e.cmd,
        desc: e.desc,
        tags: e.tags,
        params: e.params,
        danger: e.danger,
        layer: layer,
    }
}

/// The entries of `es`, each stamped with `layer`.
pub open spec fn stamped_all(es: Seq<EntryView>, layer: Layer) -> Seq<EntryView> {
    es.map_values(|e: EntryView| stamp(e, layer))
}

/// The ids of `es`.
pub open spec fn ids(es: Seq<EntryView>) -> Seq<Seq<char>> {
    es.map_values(|e: EntryView| e.id)
}

fn blank(s: &String) -> (r: bool)
    ensures
        r == (trim(s@).len() == 0),
{
    trimmed(&chars_of(s.as_str())).len() == 0
}

/// Checks one parsed library file and stamps its entries with the layer it
/// came from.
///
/// A file is refused for a schema version other than this build's, and for
/// its first entry with an empty id, an empty description, or an id already
/// used above it.
pub fn stamped(library: Library, layer: Layer) -> (r: Result<Library, LoadError>)
    ensures
        match r {
            Ok(l) => {
                &&& library_fault(library.version, entry_views(library.commands@)) is None
                &&& l.version == library.version
                &&& string_views(l.disabled@) == string_views(library.disabled@)
                &&& entry_views(l.commands@) == stamped_all(entry_views(library.commands@), layer)
            },
            Err(e) => library_fault(library.version, entry_views(library.commands@)) == Some(
                e@,
            ),
        },
{
    if library.version != SCHEMA_VERSION {
        return Err(LoadError::Version(library.version));
    }
    let ghost es = entry_views(library.commands@);
    let mut seen: Vec<String> = Vec::new();
    let mut i: usize = 0;
    while i < library.commands.len()
        invariant
            i <= library.commands@.len(),
            library.version == SCHEMA_VERSION,
            es == entry_views(library.commands@),
            first_fault(es, 0) == first_fault(es, i as int),
            string_views(seen@) == ids(es.take(i as int)),
        decreases library.commands@.len() - i,
    {
        let e = &library.commands[i];
        assert(es[i as int] == e@);
        if blank(&e.id) {
            assert(first_fault(es, i as int) == Some(LoadFault::EmptyId));
            return Err(LoadError::EmptyId);
        }
        if blank(&e.desc) {
            let id = e.id.clone();
            assert(first_fault(es, i as int) == Some(LoadFault::EmptyDesc(id@)));
            return Err(LoadError::EmptyDesc(id));
        }
        let dup = list_has(&seen, &e.id);
        assert(dup == exists|j: int| 0 <= j < i && (#[trigger] es[j]).id == es[i as int].id) by {
            if dup {
                let k = choose|k: int| 0 <= k < seen@.len() && string_views(seen@)[k] == e.id@;
                assert(ids(es.take(i as int))[k] == es[k].id);
            } else {
                assert forall|j: int| 0 <= j < i implies (#[trigger] es[j]).id != es[i as int].id by {
                    assert(ids(es.take(i as int))[j] == es[j].id);
                    assert(string_views(seen@)[j] == es[j].id);
                }
            }
        }
        if dup {
            let id = e.id.clone();
            assert(first_fault(es, i as int) == Some(LoadFault::Duplicate(id@)));
            return Err(LoadError::Duplicate(id));
        }
        let ghost before = seen@;
        seen.push(e.id.clone());
        assert(string_views(seen@) =~= string_views(before).push(e.id@));
        assert(ids(es.take(i + 1)) =~= ids(es.take(i as int)).push(es[i as int].id));
        i += 1;
    }
    let Library { version, commands, disabled } = library;
    let ghost n = commands@.len();
    let mut rest = commands;
    let mut out: Vec<Entry> = Vec::new();
    while rest.len() > 0
        invariant
            out@.len() + rest@.len() == n,
            es.len() == n,
            entry_views(rest@) == es.skip(out@.len() as int),
            entry_views(out@) == stamped_all(es.take(out@.len() as int), layer),
        decreases rest@.len(),
    {
        let ghost k = out@.len() as int;
        let ghost old_rest = rest@;
        let ghost old_out = out@;
        let mut e = rest.remove(0);
        assert(entry_views(old_rest)[0] == es.skip(k)[0]);
        assert(e@ == es[k]);
        assert(rest@ =~= old_rest.subrange(1, old_rest.len() as int));
        e.layer = layer;
        assert(e@ == stamp(es[k], layer));
        out.push(e);
        assert(out@ =~= old_out.push(e));
        assert(entry_views(out@) =~= entry_views(old_out).push(stamp(es[k], layer)));
        assert forall|j: int| 0 <= j < rest@.len() implies (#[trigger] entry_views(rest@)[j]) == es.skip(
            k + 1,
        )[j] by {
            assert(rest@[j] == old_rest[j + 1]);
            assert(entry_views(old_rest)[j + 1] == es.skip(k)[j + 1]);
        }
        assert(entry_views(rest@) =~= es.skip(k + 1));
        assert(entry_views(out@) =~= stamped_all(es.take(k + 1), layer));
    }
    assert(es.take(n as int) =~= es);
    Ok(Library { version, commands: out, disabled })
}


// ---------------------------------------------------------------------------
// Ordering by id
// ---------------------------------------------------------------------------

/// Whether id `a` sorts before id `b`, character by character, as strings
/// compare.
pub open spec fn id_lt(a: Seq<char>, b: Seq<char>) -> bool
    decreases a.len(),
{
    if a.len() == 0 {
        b.len() > 0
    } else if b.len() == 0 {
        false
    } else if a[0] != b[0] {
        a[0] < b[0]
    } else {
        id_lt(a.drop_first(), b.drop_first())
    }
}

pub proof fn lemma_id_lt_irreflexive(a: Seq<char>)
    ensures
        !id_lt(a, a),
    decreases a.len(),
{
    if a.len() > 0 {
        lemma_id_lt_irreflexive(a.drop_first());
    }
}

pub proof fn lemma_id_lt_transitive(a: Seq<char>, b: Seq<char>, c: Seq<char>)
    requires
        id_lt(a, b),
        id_lt(b, c),
    ensures
        id_lt(a, c),
    decreases a.len(),
{
    if a.len() > 0 && b.len() > 0 && c.len() > 0 && a[0] == b[0] && b[0] == c[0] {
        lemma_id_lt_transitive(a.drop_first(), b.drop_first(), c.drop_first());
    }
}

pub proof fn lemma_id_lt_total(a: Seq<char>, b: Seq<char>)
    ensures
        a == b || id_lt(a, b) || id_lt(b, a),
    decreases a.len(),
{
    if a.len() > 0 && b.len() > 0 && a[0] == b[0] {
        lemma_id_lt_total(a.drop_first(), b.drop_first());
        if a.drop_first() == b.drop_first() {
            assert(a =~= seq![a[0]] + a.drop_first());
            assert(b =~= seq![b[0]] + b.drop_first());
        }
    } else if a.len() == 0 && b.len() == 0 {
        assert(a =~= b);
    }
}

pub proof fn lemma_id_lt_asymmetric(a: Seq<char>, b: Seq<char>)
    requires
        id_lt(a, b),
    ensures
        !id_lt(b, a),
{
    if id_lt(b, a) {
        lemma_id_lt_transitive(a, b, a);
        lemma_id_lt_irreflexive(a);
    }
}

/// Whether id `a` sorts before id `b`.
pub fn id_before(a: &str, b: &str) -> (r: bool)
    ensures
        r == id_lt(a@, b@),
{
    let x = chars_of(a);
    let y = chars_of(b);
    let mut i: usize = 0;
    assert(x@.skip(0) =~= x@);
    assert(y@.skip(0) =~= y@);
    while i < x.len() && i < y.len() && x[i] == y[i]
        invariant
            i <= x@.len(),
            i <= y@.len(),
            id_lt(x@.skip(i as int), y@.skip(i as int)) == id_lt(a@, b@),
        decreases x@.len() - i,
    {
        assert(x@.skip(i as int).drop_first() =~= x@.skip(i + 1));
        assert(y@.skip(i as int).drop_first() =~= y@.skip(i + 1));
        i += 1;
    }
    if i == x.len() {
        i < y.len()
    } else if i == y.len() {
        false
    } else {
        assert(x@.skip(i as int)[0] == x@[i as int]);
        assert(y@.skip(i as int)[0] == y@[i as int]);
        x[i] < y[i]
    }
}

// ---------------------------------------------------------------------------
// Merging layers
// ---------------------------------------------------------------------------

/// Whether the ids of `v` strictly increase.
pub open spec fn ids_sorted(v: Seq<EntryView>) -> bool {
    forall|i: int, j: int| 0 <= i < j < v.len() ==> id_lt(#[trigger] v[i].id, #[trigger] v[j].id)
}

/// The last entry of `all` declared as `id`.
pub open spec fn last_def(all: Seq<EntryView>, id: Seq<char>) -> Option<EntryView>
    decreases all.len(),
{
    if all.len() == 0 {
        None
    } else if all.last().id == id {
        Some(all.last())
    } else {
        last_def(all.drop_last(), id)
    }
}

/// Whether `v` holds, ordered by id, the last definition of every id that
/// `all` declares.
pub open spec fn shadows(all: Seq<EntryView>, v: Seq<EntryView>) -> bool {
    &&& ids_sorted(v)
    &&& forall|i: int| 0 <= i < v.len() ==> last_def(all, (#[trigger] v[i]).id) == Some(v[i])
    &&& forall|k: int|
        0 <= k < all.len() ==> exists|i: int| 0 <= i < v.len() && (#[trigger] v[i]).id == (
        #[trigger] all[k]).id
}

/// Whether `v` is the library made of the entries `all`, declared weakest
/// layer first, with those whose id one of `patterns` matches left out:
/// ordered by id, and for each id the last definition.
pub open spec fn merged(all: Seq<EntryView>, patterns: Seq<Seq<char>>, sep: bool, v: Seq<EntryView>) -> bool {
    &&& ids_sorted(v)
    &&& forall|i: int|
        0 <= i < v.len() ==> last_def(all, (#[trigger] v[i]).id) == Some(v[i]) && !any_matches(patterns, sep,
            v[i].id,
        )
    &&& forall|k: int|
        0 <= k < all.len() && !any_matches(patterns, sep, (#[trigger] all[k]).id) ==> exists|i: int|
            0 <= i < v.len() && (#[trigger] v[i]).id == all[k].id
}

/// The entries of `layers`, weakest layer first, each in file order.
pub open spec fn all_entries(layers: Seq<Library>) -> Seq<EntryView>
    decreases layers.len(),
{
    if layers.len() == 0 {
        seq![]
    } else {
        all_entries(layers.drop_last()) + entry_views(layers.last().commands@)
    }
}

/// The disable patterns of `layers`, weakest layer first.
pub open spec fn all_patterns(layers: Seq<Library>) -> Seq<Seq<char>>
    decreases layers.len(),
{
    if layers.len() == 0 {
        seq![]
    } else {
        all_patterns(layers.drop_last()) + string_views(layers.last().disabled@)
    }
}

/// The first of `patterns` that is not a glob, read with `globset`'s default
/// escaping on a platform where a backslash separates paths exactly when
/// `sep` holds.
pub open spec fn first_invalid(patterns: Seq<Seq<char>>, sep: bool) -> Option<Seq<char>>
    decreases patterns.len(),
{
    if patterns.len() == 0 {
        None
    } else if !glob_valid(patterns[0], !sep, sep) {
        Some(patterns[0])
    } else {
        first_invalid(patterns.drop_first(), sep)
    }
}

proof fn lemma_last_def_push(all: Seq<EntryView>, e: EntryView, id: Seq<char>)
    ensures
        last_def(all.push(e), id) == if e.id == id {
            Some(e)
        } else {
            last_def(all, id)
        },
{
    assert(all.push(e).drop_last() =~= all);
}

/// Adding one more definition keeps `v` a shadowing of what was read.
proof fn lemma_shadow_step(all: Seq<EntryView>, v: Seq<EntryView>, e: EntryView, pos: int)
    requires
        shadows(all, v),
        0 <= pos <= v.len(),
        forall|k: int| 0 <= k < pos ==> id_lt((#[trigger] v[k]).id, e.id),
        pos < v.len() ==> !id_lt(v[pos].id, e.id),
    ensures
        pos < v.len() && v[pos].id == e.id ==> shadows(all.push(e), v.update(pos, e)),
        !(pos < v.len() && v[pos].id == e.id) ==> shadows(all.push(e), v.insert(pos, e)),
{
    let all2 = all.push(e);
    assert forall|id: Seq<char>| true implies last_def(all2, id) == if e.id == id {
        Some(e)
    } else {
        last_def(all, id)
    } by {
        lemma_last_def_push(all, e, id);
    }
    if pos < v.len() && v[pos].id == e.id {
        let w = v.update(pos, e);
        assert forall|i: int| 0 <= i < w.len() implies last_def(all2, (#[trigger] w[i]).id) == Some(
            w[i],
        ) by {
            if i != pos {
                if i < pos {
                    lemma_id_lt_irreflexive(e.id);
                } else {
                    assert(id_lt(v[pos].id, v[i].id));
                    lemma_id_lt_irreflexive(e.id);
                }
            }
        }
        assert forall|k: int| 0 <= k < all2.len() implies exists|i: int|
            0 <= i < w.len() && (#[trigger] w[i]).id == (#[trigger] all2[k]).id by {
            if k < all.len() {
                assert(all2[k] == all[k]);
                let i = choose|i: int| 0 <= i < v.len() && (#[trigger] v[i]).id == all[k].id;
                assert(w[i].id == v[i].id);
            } else {
                assert(w[pos].id == all2[k].id);
            }
        }
    } else {
        let w = v.insert(pos, e);
        if pos < v.len() {
            lemma_id_lt_total(v[pos].id, e.id);
        }
        // Every id in v differs from the new one.
        assert forall|i: int| 0 <= i < v.len() implies (#[trigger] v[i]).id != e.id by {
            if i < pos {
                lemma_id_lt_irreflexive(e.id);
            } else if i == pos {
            } else {
                assert(id_lt(v[pos].id, v[i].id));
                lemma_id_lt_transitive(e.id, v[pos].id, v[i].id);
                lemma_id_lt_irreflexive(e.id);
            }
        }
        assert forall|i: int, j: int| 0 <= i < j < w.len() implies id_lt(
            #[trigger] w[i].id,
            #[trigger] w[j].id,
        ) by {
            if j < pos {
                assert(w[i] == v[i] && w[j] == v[j]);
            } else if j == pos {
                assert(w[i] == v[i]);
            } else if i < pos {
                assert(w[i] == v[i] && w[j] == v[j - 1]);
                if j - 1 > i {
                    assert(id_lt(v[i].id, v[j - 1].id));
                }
            } else if i == pos {
                assert(w[j] == v[j - 1]);
                if j - 1 > pos {
                    assert(id_lt(v[pos].id, v[j - 1].id));
                    lemma_id_lt_transitive(e.id, v[pos].id, v[j - 1].id);
                }
            } else {
                assert(w[i] == v[i - 1] && w[j] == v[j - 1]);
                assert(id_lt(v[i - 1].id, v[j - 1].id));
            }
        }
        assert forall|i: int| 0 <= i < w.len() implies last_def(all2, (#[trigger] w[i]).id) == Some(
            w[i],
        ) by {
            if i < pos {
                assert(w[i] == v[i]);
            } else if i > pos {
                assert(w[i] == v[i - 1]);
            }
        }
        assert forall|k: int| 0 <= k < all2.len() implies exists|i: int|
            0 <= i < w.len() && (#[trigger] w[i]).id == (#[trigger] all2[k]).id by {
            if k < all.len() {
                assert(all2[k] == all[k]);
                let i = choose|i: int| 0 <= i < v.len() && (#[trigger] v[i]).id == all[k].id;
                if i < pos {
                    assert(w[i] == v[i]);
                } else {
                    assert(w[i + 1] == v[i]);
                }
            } else {
                assert(w[pos].id == all2[k].id);
            }
        }
    }
}

/// The entries of `v` that none of `patterns` matches.
pub open spec fn visible(v: Seq<EntryView>, patterns: Seq<Seq<char>>, sep: bool) -> Seq<EntryView>
    decreases v.len(),
{
    if v.len() == 0 {
        seq![]
    } else if any_matches(patterns, sep, v.last().id) {
        visible(v.drop_last(), patterns, sep)
    } else {
        visible(v.drop_last(), patterns, sep).push(v.last())
    }
}

proof fn lemma_visible_members(v: Seq<EntryView>, patterns: Seq<Seq<char>>, sep: bool)
    ensures
        forall|i: int|
            0 <= i < visible(v, patterns, sep).len() ==> exists|k: int|
                0 <= k < v.len() && v[k] == (#[trigger] visible(v, patterns, sep)[i]) && !any_matches(patterns, sep,
                    v[k].id,
                ),
    decreases v.len(),
{
    if v.len() > 0 {
        let u = v.drop_last();
        lemma_visible_members(u, patterns, sep);
        let before = visible(u, patterns, sep);
        let after = visible(v, patterns, sep);
        assert forall|i: int| 0 <= i < after.len() implies exists|k: int|
            0 <= k < v.len() && v[k] == (#[trigger] after[i]) && !any_matches(patterns, sep, v[k].id) by {
            if i < before.len() {
                assert(after[i] == before[i]);
                let k = choose|k: int|
                    0 <= k < u.len() && u[k] == (#[trigger] before[i]) && !any_matches(patterns, sep,
                        u[k].id,
                    );
                assert(v[k] == u[k]);
            } else {
                assert(v[v.len() - 1] == after[i]);
            }
        }
    }
}

proof fn lemma_visible_covers(v: Seq<EntryView>, patterns: Seq<Seq<char>>, sep: bool)
    ensures
        forall|k: int|
            0 <= k < v.len() && !any_matches(patterns, sep, (#[trigger] v[k]).id) ==> exists|i: int|
                0 <= i < visible(v, patterns, sep).len() && (#[trigger] visible(v, patterns, sep)[i]) == v[k],
    decreases v.len(),
{
    if v.len() > 0 {
        let u = v.drop_last();
        lemma_visible_covers(u, patterns, sep);
        let before = visible(u, patterns, sep);
        let after = visible(v, patterns, sep);
        assert forall|k: int| 0 <= k < v.len() && !any_matches(patterns, sep, (#[trigger] v[k]).id) implies exists|
            i: int,
        | 0 <= i < after.len() && (#[trigger] after[i]) == v[k] by {
            if k < u.len() {
                assert(u[k] == v[k]);
                let i = choose|i: int| 0 <= i < before.len() && (#[trigger] before[i]) == u[k];
                assert(after[i] == before[i]);
            } else {
                assert(after[before.len() as int] == v[k]);
            }
        }
    }
}

proof fn lemma_visible_sorted(v: Seq<EntryView>, patterns: Seq<Seq<char>>, sep: bool)
    requires
        ids_sorted(v),
    ensures
        ids_sorted(visible(v, patterns, sep)),
    decreases v.len(),
{
    if v.len() > 0 {
        let u = v.drop_last();
        assert forall|i: int, j: int| 0 <= i < j < u.len() implies id_lt(
            #[trigger] u[i].id,
            #[trigger] u[j].id,
        ) by {
            assert(u[i] == v[i] && u[j] == v[j]);
        }
        lemma_visible_sorted(u, patterns, sep);
        lemma_visible_members(u, patterns, sep);
        let before = visible(u, patterns, sep);
        if !any_matches(patterns, sep, v.last().id) {
            let after = before.push(v.last());
            assert forall|i: int, j: int| 0 <= i < j < after.len() implies id_lt(
                #[trigger] after[i].id,
                #[trigger] after[j].id,
            ) by {
                if j == before.len() {
                    let k = choose|k: int|
                        0 <= k < u.len() && u[k] == (#[trigger] before[i]) && !any_matches(patterns, sep,
                            u[k].id,
                        );
                    assert(v[k] == u[k]);
                    assert(id_lt(v[k].id, v[v.len() - 1].id));
                } else {
                    assert(after[i] == before[i] && after[j] == before[j]);
                }
            }
        }
    }
}

/// Where `e` goes among the entries of `v`, ordered by id: after every entry
/// whose id sorts before it.
fn position(v: &Vec<Entry>, id: &str) -> (r: usize)
    requires
        ids_sorted(entry_views(v@)),
    ensures
        r <= v@.len(),
        forall|k: int| 0 <= k < r ==> id_lt((#[trigger] v@[k])@.id, id@),
        r < v@.len() ==> !id_lt(v@[r as int]@.id, id@),
{
    let mut i: usize = 0;
    while i < v.len() && id_before(v[i].id.as_str(), id)
        invariant
            i <= v@.len(),
            forall|k: int| 0 <= k < i ==> id_lt((#[trigger] v@[k])@.id, id@),
        decreases v@.len() - i,
    {
        i += 1;
    }
    i
}

/// Every entry and every disable pattern of `layers`, weakest layer first.
fn flatten(layers: Vec<Library>) -> (r: (Vec<Entry>, Vec<String>))
    ensures
        entry_views(r.0@) == all_entries(layers@),
        string_views(r.1@) == all_patterns(layers@),
{
    let ghost ls = layers@;
    let mut entries: Vec<Entry> = Vec::new();
    let mut patterns: Vec<String> = Vec::new();
    let mut rest = layers;
    let ghost mut done: int = 0;
    assert(ls.skip(0) =~= ls);
    assert(ls.take(0) =~= Seq::<Library>::empty());
    while rest.len() > 0
        invariant
            0 <= done <= ls.len(),
            rest@ == ls.skip(done),
            entry_views(entries@) == all_entries(ls.take(done)),
            string_views(patterns@) == all_patterns(ls.take(done)),
        decreases rest@.len(),
    {
        let layer = rest.remove(0);
        assert(layer == ls[done]);
        assert(rest@ =~= ls.skip(done + 1));
        assert(ls.take(done + 1).drop_last() =~= ls.take(done));
        let Library { version: _, commands, disabled } = layer;
        let ghost start = entry_views(entries@);
        let ghost cs = entry_views(commands@);
        let mut cmds = commands;
        assert(cs.skip(0) =~= cs);
        let ghost mut c: int = 0;
        while cmds.len() > 0
            invariant
                0 <= c <= cs.len(),
                cmds@.len() == cs.len() - c,
                entry_views(cmds@) == cs.skip(c),
                entry_views(entries@) == start + cs.take(c),
            decreases cmds@.len(),
        {
            let ghost old_cmds = cmds@;
            let ghost old_entries = entries@;
            let e = cmds.remove(0);
            assert(cmds@ =~= old_cmds.subrange(1, old_cmds.len() as int));
            assert(entry_views(old_cmds)[0] == cs.skip(c)[0]);
            assert forall|j: int| 0 <= j < cmds@.len() implies (#[trigger] entry_views(cmds@)[j])
                == cs.skip(c + 1)[j] by {
                assert(cmds@[j] == old_cmds[j + 1]);
                assert(entry_views(old_cmds)[j + 1] == cs.skip(c)[j + 1]);
            }
            assert(entry_views(cmds@) =~= cs.skip(c + 1));
            entries.push(e);
            assert(entry_views(entries@) =~= entry_views(old_entries).push(cs[c]));
            assert(start + cs.take(c + 1) =~= (start + cs.take(c)).push(cs[c]));
            proof {
                c = c + 1;
            }
        }
        assert(cs.take(c) =~= cs);
        let ghost pstart = string_views(patterns@);
        let mut k: usize = 0;
        while k < disabled.len()
            invariant
                k <= disabled@.len(),
                string_views(patterns@) == pstart + string_views(disabled@).take(k as int),
            decreases disabled@.len() - k,
        {
            let ghost before = patterns@;
            patterns.push(disabled[k].clone());
            assert(string_views(patterns@) =~= string_views(before).push(disabled@[k as int]@));
            assert(string_views(disabled@).take(k + 1) =~= string_views(disabled@).take(
                k as int,
            ).push(disabled@[k as int]@));
            k += 1;
        }
        assert(string_views(disabled@).take(k as int) =~= string_views(disabled@));
        proof {
            done = done + 1;
        }
    }
    assert(ls.take(done) =~= ls);
    (entries, patterns)
}

/// The last definition of each id among `entries`, ordered by id.
fn shadow(entries: Vec<Entry>) -> (r: Vec<Entry>)
    ensures
        shadows(entry_views(entries@), entry_views(r@)),
{
    let ghost all = entry_views(entries@);
    let ghost n = entries@.len();
    let mut shadowed: Vec<Entry> = Vec::new();
    let mut pending = entries;
    assert(all.skip(0) =~= all);
    assert(all.take(0) =~= Seq::<EntryView>::empty());
    let ghost mut read: int = 0;
    while pending.len() > 0
        invariant
            0 <= read <= n,
            n == all.len(),
            pending@.len() == n - read,
            entry_views(pending@) == all.skip(read),
            shadows(all.take(read), entry_views(shadowed@)),
        decreases pending@.len(),
    {
        let ghost old_pending = pending@;
        let e = pending.remove(0);
        assert(pending@ =~= old_pending.subrange(1, old_pending.len() as int));
        assert(entry_views(old_pending)[0] == all.skip(read)[0]);
        assert forall|j: int| 0 <= j < pending@.len() implies (#[trigger] entry_views(
            pending@,
        )[j]) == all.skip(read + 1)[j] by {
            assert(pending@[j] == old_pending[j + 1]);
            assert(entry_views(old_pending)[j + 1] == all.skip(read)[j + 1]);
        }
        assert(entry_views(pending@) =~= all.skip(read + 1));
        let pos = position(&shadowed, e.id.as_str());
        let ghost sv = entry_views(shadowed@);
        proof {
            lemma_shadow_step(all.take(read), sv, e@, pos as int);
        }
        assert(all.take(read + 1) =~= all.take(read).push(e@));
        if pos < shadowed.len() && shadowed[pos].id == e.id {
            shadowed.set(pos, e);
            assert(entry_views(shadowed@) =~= sv.update(pos as int, e@));
        } else {
            let ghost ev = e@;
            shadowed.insert(pos, e);
            assert(entry_views(shadowed@) =~= sv.insert(pos as int, ev));
        }
        proof {
            read = read + 1;
        }
    }
    assert(all.take(read) =~= all);
    shadowed
}

/// The disable patterns compiled into one set, each with `globset`'s default
/// escaping. It fails on the first pattern that is not a glob, and otherwise
/// exactly when `globset` cannot compile the patterns together, which never
/// happens when there are none.
fn compile(patterns: &Vec<String>, style: &PathStyle) -> (r: Result<GlobSet, LoadError>)
    ensures
        r is Ok <==> first_invalid(string_views(patterns@), style.backslash()) is None && set_builds(
            escaped(string_views(patterns@), !style.backslash()),
            style.backslash(),
        ),
        patterns@.len() == 0 ==> r is Ok,
        match r {
            Ok(set) => set_patterns(set) == escaped(string_views(patterns@), !style.backslash()),
            Err(LoadError::BadPattern(p, _)) => first_invalid(string_views(patterns@), style.backslash())
                == Some(p@),
            Err(LoadError::Patterns(_)) => first_invalid(string_views(patterns@), style.backslash()) is None
                && !set_builds(escaped(string_views(patterns@), !style.backslash()), style.backslash()),
            Err(_) => false,
        },
{
    let ghost pats = string_views(patterns@);
    let ghost sep = style.backslash();
    let escape = style.escapes();
    let mut builder = new_builder();
    let mut j: usize = 0;
    assert(pats.skip(0) =~= pats);
    while j < patterns.len()
        invariant
            j <= patterns@.len(),
            pats == string_views(patterns@),
            sep == style.backslash(),
            escape == !sep,
            builder_patterns(builder) == escaped(pats.take(j as int), escape),
            first_invalid(pats, sep) == first_invalid(pats.skip(j as int), sep),
        decreases patterns@.len() - j,
    {
        assert(pats.skip(j as int)[0] == patterns@[j as int]@);
        assert(pats.skip(j as int).drop_first() =~= pats.skip(j + 1));
        match parse_glob(patterns[j].as_str(), escape, style) {
            Err(e) => {
                let p = patterns[j].clone();
                assert(first_invalid(pats.skip(j as int), sep) == Some(p@));
                return Err(LoadError::BadPattern(p, glob_error_text(&e)));
            },
            Ok(g) => {
                let ghost before = builder_patterns(builder);
                add_glob(&mut builder, g);
                assert(escaped(pats.take(j + 1), escape) =~= before.push((patterns@[j as int]@, escape)));
            },
        }
        j += 1;
    }
    assert(pats.take(j as int) =~= pats);
    assert(pats.skip(j as int) =~= Seq::<Seq<char>>::empty());
    match build_set(&builder, style) {
        Err(e) => Err(LoadError::Patterns(glob_error_text(&e))),
        Ok(set) => Ok(set),
    }
}

/// The entries of `v` that none of `pats` matches, where `set` is compiled
/// from them.
fn unhidden(v: Vec<Entry>, set: &GlobSet, style: &PathStyle, Ghost(pats): Ghost<Seq<Seq<char>>>) -> (r: Vec<Entry>)
    requires
        set_patterns(*set) == escaped(pats, !style.backslash()),
    ensures
        entry_views(r@) == visible(entry_views(v@), pats, style.backslash()),
{
    let ghost sv = entry_views(v@);
    let ghost sep = style.backslash();
    let mut out: Vec<Entry> = Vec::new();
    let mut left = v;
    assert(sv.skip(0) =~= sv);
    assert(sv.take(0) =~= Seq::<EntryView>::empty());
    let ghost mut seen: int = 0;
    while left.len() > 0
        invariant
            0 <= seen <= sv.len(),
            left@.len() == sv.len() - seen,
            entry_views(left@) == sv.skip(seen),
            entry_views(out@) == visible(sv.take(seen), pats, sep),
            sep == style.backslash(),
            set_patterns(*set) == escaped(pats, !sep),
        decreases left@.len(),
    {
        let ghost old_left = left@;
        let e = left.remove(0);
        assert(left@ =~= old_left.subrange(1, old_left.len() as int));
        assert(entry_views(old_left)[0] == sv.skip(seen)[0]);
        assert forall|i: int| 0 <= i < left@.len() implies (#[trigger] entry_views(left@)[i])
            == sv.skip(seen + 1)[i] by {
            assert(left@[i] == old_left[i + 1]);
            assert(entry_views(old_left)[i + 1] == sv.skip(seen)[i + 1]);
        }
        assert(entry_views(left@) =~= sv.skip(seen + 1));
        assert(sv.take(seen + 1).drop_last() =~= sv.take(seen));
        assert(sv.take(seen + 1).last() == e@);
        let hidden = set_matches(set, e.id.as_str(), style);
        proof {
            lemma_escaped_matching(pats, sep, e@.id);
        }
        if !hidden {
            let ghost before = out@;
            out.push(e);
            assert(entry_views(out@) =~= entry_views(before).push(sv[seen]));
        }
        proof {
            seen = seen + 1;
        }
    }
    assert(sv.take(seen) =~= sv);
    out
}

proof fn lemma_merged_covers(all: Seq<EntryView>, pats: Seq<Seq<char>>, sep: bool, sv: Seq<EntryView>)
    requires
        forall|k: int|
            0 <= k < all.len() ==> exists|i: int| 0 <= i < sv.len() && (#[trigger] sv[i]).id == (
            #[trigger] all[k]).id,
    ensures
        forall|k: int|
            0 <= k < all.len() && !any_matches(pats, sep, (#[trigger] all[k]).id) ==> exists|i: int|
                0 <= i < visible(sv, pats, sep).len() && (#[trigger] visible(sv, pats, sep)[i]).id == all[k].id,
{
    lemma_visible_covers(sv, pats, sep);
    let ov = visible(sv, pats, sep);
    assert forall|k: int| 0 <= k < all.len() && !any_matches(pats, sep, (#[trigger] all[k]).id) implies exists|
        i: int,
    | 0 <= i < ov.len() && (#[trigger] ov[i]).id == all[k].id by {
        let j = choose|j: int| 0 <= j < sv.len() && (#[trigger] sv[j]).id == all[k].id;
        assert(!any_matches(pats, sep, sv[j].id));
        let i = choose|i: int| 0 <= i < ov.len() && (#[trigger] ov[i]) == sv[j];
        assert(ov[i].id == all[k].id);
    }
}

proof fn lemma_merged_defs(all: Seq<EntryView>, pats: Seq<Seq<char>>, sep: bool, sv: Seq<EntryView>)
    requires
        forall|i: int| 0 <= i < sv.len() ==> last_def(all, (#[trigger] sv[i]).id) == Some(sv[i]),
    ensures
        forall|i: int|
            0 <= i < visible(sv, pats, sep).len() ==> last_def(all, (#[trigger] visible(sv, pats, sep)[i]).id)
                == Some(visible(sv, pats, sep)[i]) && !any_matches(pats, sep, visible(sv, pats, sep)[i].id),
{
    lemma_visible_members(sv, pats, sep);
    let ov = visible(sv, pats, sep);
    assert forall|i: int| 0 <= i < ov.len() implies last_def(all, (#[trigger] ov[i]).id) == Some(
        ov[i],
    ) && !any_matches(pats, sep, ov[i].id) by {
        let k = choose|k: int|
            0 <= k < sv.len() && sv[k] == (#[trigger] ov[i]) && !any_matches(pats, sep, sv[k].id);
        assert(last_def(all, sv[k].id) == Some(sv[k]));
    }
}

proof fn lemma_merged(all: Seq<EntryView>, pats: Seq<Seq<char>>, sep: bool, sv: Seq<EntryView>)
    requires
        shadows(all, sv),
    ensures
        merged(all, pats, sep, visible(sv, pats, sep)),
{
    lemma_visible_sorted(sv, pats, sep);
    lemma_merged_covers(all, pats, sep, sv);
    lemma_merged_defs(all, pats, sep, sv);
}

/// Collapses layers into one library, weakest layer first, ordered by id.
///
/// A later layer shadows an earlier one by entry id, and an entry whose id one
/// of the layers' disable patterns matches is left out, whichever layer
/// defines it. The patterns are read the way `globset` reads them on the
/// platform `style` describes. Loading fails on the first pattern that is not
/// a glob, or when `globset` cannot compile the patterns together; with no
/// pattern at all it always succeeds.
pub fn merge(layers: Vec<Library>, style: &PathStyle) -> (r: Result<Vec<Entry>, LoadError>)
    ensures
        r is Ok <==> first_invalid(all_patterns(layers@), style.backslash()) is None && set_builds(
            escaped(all_patterns(layers@), !style.backslash()),
            style.backslash(),
        ),
        all_patterns(layers@).len() == 0 ==> r is Ok,
        match r {
            Ok(v) => merged(all_entries(layers@), all_patterns(layers@), style.backslash(), entry_views(v@)),
            Err(LoadError::BadPattern(p, _)) => first_invalid(all_patterns(layers@), style.backslash()) == Some(
                p@,
            ),
            Err(LoadError::Patterns(_)) => first_invalid(all_patterns(layers@), style.backslash()) is None
                && !set_builds(escaped(all_patterns(layers@), !style.backslash()), style.backslash()),
            Err(_) => false,
        },
{
    let ghost all = all_entries(layers@);
    let ghost pats = all_patterns(layers@);
    let ghost sep = style.backslash();
    let (entries, patterns) = flatten(layers);
    let shadowed = shadow(entries);
    let set = match compile(&patterns, style) {
        Ok(set) => set,
        Err(e) => return Err(e),
    };
    let ghost sv = entry_views(shadowed@);
    let out = unhidden(shadowed, &set, style, Ghost(pats));
    proof {
        lemma_merged(all, pats, sep, sv);
    }
    Ok(out)
}

} // verus!
