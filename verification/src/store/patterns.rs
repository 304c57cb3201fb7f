//! Glob patterns that hide entries by id, compiled by `globset`.
//!
//! A pattern is handed to `globset` as written and matched against an entry's
//! id as if the id were a path. What a pattern matches is `globset`'s to say;
//! the library only relies on a set matching exactly when one of its patterns
//! does.
//!
//! How `globset` reads a backslash depends on the platform: where `\` does not
//! separate paths it escapes the character after it, and where it does, as on
//! Windows, it is a separator, in patterns and in the ids matched alike. Every
//! name below therefore takes whether a backslash separates paths as an
//! argument, and that flag is read from the platform once, as a `PathStyle`.

use vstd::prelude::*;

use globset::{Glob, GlobBuilder, GlobSet, GlobSetBuilder};

verus! {

#[verifier::external_type_specification]
#[verifier::external_body]
pub struct ExGlob(Glob);

#[verifier::external_type_specification]
#[verifier::external_body]
pub struct ExGlobSetBuilder(GlobSetBuilder);

#[verifier::external_type_specification]
#[verifier::external_body]
pub struct ExGlobSet(GlobSet);

#[verifier::external_type_specification]
#[verifier::external_body]
pub struct ExGlobError(globset::Error);

/// How the platform lore runs on writes paths, as far as globs care: whether
/// a backslash separates path components, as it does on Windows. Only
/// `PathStyle::current` makes one, so a value of this type always tells the
/// truth about the platform it is on.
#[derive(Debug, Clone, Copy)]
pub struct PathStyle {
    backslash_separates: bool,
}

impl PathStyle {
    /// Whether a backslash separates path components here.
    pub closed spec fn backslash(self) -> bool {
        self.backslash_separates
    }

    /// The style of the platform this runs on.
    pub fn current() -> PathStyle {
        read_path_style()
    }

    /// Whether a backslash in a pattern escapes the character after it:
    /// `globset`'s default, on wherever a backslash does not separate paths.
    pub fn escapes(&self) -> (r: bool)
        ensures
            r == !self.backslash(),
    {
        !self.backslash_separates
    }
}

/// `std::path::is_separator('\\')`, read from the platform. Nothing is
/// promised of it: it is whatever the platform says.
#[verifier::external_body]
fn read_path_style() -> PathStyle {
    PathStyle { backslash_separates: std::path::is_separator('\\') }
}

/// Whether `globset` accepts `pattern` as a glob, built with `escape` as its
/// backslash escaping and every other option at its default, on a platform
/// where a backslash separates paths exactly when `separates` holds.
pub uninterp spec fn glob_valid(pattern: Seq<char>, escape: bool, separates: bool) -> bool;

/// Whether the glob `pattern`, built with `escape` as its backslash
/// escaping, matches `id` on a platform where a backslash separates paths
/// exactly when `separates` holds.
pub uninterp spec fn glob_matches(pattern: Seq<char>, escape: bool, separates: bool, id: Seq<char>) -> bool;

/// The pattern a glob was parsed from, with its backslash escaping.
pub uninterp spec fn glob_pattern(glob: Glob) -> (Seq<char>, bool);

/// The patterns added to a builder so far, each with its backslash
/// escaping.
pub uninterp spec fn builder_patterns(builder: GlobSetBuilder) -> Seq<(Seq<char>, bool)>;

/// The patterns a set was built from, each with its backslash escaping.
pub uninterp spec fn set_patterns(set: GlobSet) -> Seq<(Seq<char>, bool)>;

/// Whether `globset` compiles the globs written as `globs` into one set, on
/// a platform where a backslash separates paths exactly when `separates`
/// holds.
pub uninterp spec fn set_builds(globs: Seq<(Seq<char>, bool)>, separates: bool) -> bool;

/// Each of `patterns`, to be built with `escape` as its backslash escaping.
pub open spec fn escaped(patterns: Seq<Seq<char>>, escape: bool) -> Seq<(Seq<char>, bool)> {
    patterns.map_values(|p: Seq<char>| (p, escape))
}

/// Whether one of `patterns`, built the way `globset` builds them by default
/// on a platform where a backslash separates paths exactly when `separates`
/// holds, matches `id`.
pub open spec fn any_matches(patterns: Seq<Seq<char>>, separates: bool, id: Seq<char>) -> bool {
    exists|k: int| 0 <= k < patterns.len() && glob_matches(#[trigger] patterns[k], !separates, separates, id)
}

/// Whether one of the globs written as `globs` matches `id`.
pub open spec fn set_matching(globs: Seq<(Seq<char>, bool)>, separates: bool, id: Seq<char>) -> bool {
    exists|k: int| 0 <= k < globs.len() && glob_matches(#[trigger] globs[k].0, globs[k].1, separates, id)
}

/// A set built from `patterns` with the default escaping matches exactly
/// where one of the patterns does.
pub proof fn lemma_escaped_matching(patterns: Seq<Seq<char>>, separates: bool, id: Seq<char>)
    ensures
        set_matching(escaped(patterns, !separates), separates, id) == any_matches(patterns, separates, id),
{
    let g = escaped(patterns, !separates);
    if set_matching(g, separates, id) {
        let k = choose|k: int| 0 <= k < g.len() && glob_matches(#[trigger] g[k].0, g[k].1, separates, id);
        assert(patterns[k] == g[k].0);
    }
    if any_matches(patterns, separates, id) {
        let k = choose|k: int| 0 <= k < patterns.len() && glob_matches(#[trigger] patterns[k], !separates, separates, id);
        assert(g[k].0 == patterns[k]);
    }
}

/// `GlobBuilder::new(pattern).backslash_escape(escape).build()`: parses a
/// pattern with the escaping given and the other options at their defaults.
/// It succeeds exactly for the patterns `globset` accepts, and the glob it
/// gives back remembers the pattern as written and its escaping. `style` is
/// the platform's, the only one a `PathStyle` can hold.
#[verifier::external_body]
pub(crate) fn parse_glob(pattern: &str, escape: bool, style: &PathStyle) -> (r: Result<Glob, globset::Error>)
    ensures
        r is Ok <==> glob_valid(pattern@, escape, style.backslash()),
        r matches Ok(g) ==> glob_pattern(g) == (pattern@, escape),
{
    GlobBuilder::new(pattern).backslash_escape(escape).build()
}

/// `GlobSetBuilder::new`: a builder holding no pattern.
#[verifier::external_body]
pub(crate) fn new_builder() -> (r: GlobSetBuilder)
    ensures
        builder_patterns(r) == Seq::<(Seq<char>, bool)>::empty(),
{
    GlobSetBuilder::new()
}

/// `GlobSetBuilder::add`: adds one glob after those already added.
#[verifier::external_body]
pub(crate) fn add_glob(builder: &mut GlobSetBuilder, glob: Glob)
    ensures
        builder_patterns(*final(builder)) == builder_patterns(*old(builder)).push(glob_pattern(glob)),
{
    builder.add(glob);
}

/// `GlobSetBuilder::build`: compiles the globs added so far into one set.
/// Whether it succeeds is named `set_builds`; with no glob at all it always
/// does, giving the empty set. When it succeeds the set is made of exactly
/// those globs. `style` is the platform's, the only one a `PathStyle` can
/// hold.
#[verifier::external_body]
pub(crate) fn build_set(builder: &GlobSetBuilder, style: &PathStyle) -> (r: Result<GlobSet, globset::Error>)
    ensures
        r is Ok <==> set_builds(builder_patterns(*builder), style.backslash()),
        builder_patterns(*builder).len() == 0 ==> r is Ok,
        r matches Ok(set) ==> set_patterns(set) == builder_patterns(*builder),
{
    builder.build()
}

/// `GlobSet::is_match`: whether any glob of the set matches `id`, read as a
/// path the way the platform reads one. `style` is the platform's, the only
/// one a `PathStyle` can hold.
#[verifier::external_body]
pub(crate) fn set_matches(set: &GlobSet, id: &str, style: &PathStyle) -> (r: bool)
    ensures
        r == (exists|k: int|
            0 <= k < set_patterns(*set).len() && glob_matches(
                #[trigger] set_patterns(*set)[k].0,
                set_patterns(*set)[k].1,
                style.backslash(),
                id@,
            )),
{
    set.is_match(id)
}


/// What `globset` says of an error, as its `Display` writes it. Nothing is
/// promised of the words.
#[verifier::external_body]
pub(crate) fn glob_error_text(error: &globset::Error) -> String {
    error.to_string()
}

} // verus!
