//! The glob matching of the `globset` crate, as the file selection uses it.
//!
//! A `GlobSetBuilder` and a `GlobSet` are collections of glob patterns; their
//! contents are named here by the pattern texts they hold.  Whether a pattern
//! parses, whether a set of patterns compiles, and whether a glob matches a
//! path are what the crate computes from those texts alone; they are named,
//! not restated.  Those names speak of globs with the default options, as
//! `Glob::new` builds them; which globs, builders and sets were made only of
//! such globs is tracked by the names `glob_plain`, `builder_plain` and
//! `set_plain`, and the claims about matching hold of plain sets.

use vstd::prelude::*;

use globset::{Glob, GlobSet, GlobSetBuilder};

verus! {

/// A compiled glob pattern.
#[verifier::external_type_specification]
#[verifier::external_body]
pub struct ExGlob(globset::Glob);

/// A builder of a set of glob patterns.
#[verifier::external_type_specification]
#[verifier::external_body]
pub struct ExGlobSetBuilder(globset::GlobSetBuilder);

/// A set of glob patterns matched together.
#[verifier::external_type_specification]
#[verifier::external_body]
pub struct ExGlobSet(globset::GlobSet);

/// An invalid glob pattern, or a set that could not be compiled.
#[verifier::external_type_specification]
#[verifier::external_body]
pub struct ExGlobError(globset::Error);

/// Whether the glob was built by `Glob::new` (default options).
pub uninterp spec fn glob_plain(g: Glob) -> bool;

/// Whether every glob added to the builder was built by `Glob::new`.
pub uninterp spec fn builder_plain(b: GlobSetBuilder) -> bool;

/// Whether the set was built by `GlobSetBuilder::build` from a builder whose
/// globs were all built by `Glob::new`.
pub uninterp spec fn set_plain(s: GlobSet) -> bool;

/// Whether `Glob::new` accepts `pattern`.
pub uninterp spec fn glob_parses(pattern: Seq<char>) -> bool;

/// The pattern text a glob was built from (what `Glob::glob` returns).
pub uninterp spec fn glob_text(g: Glob) -> Seq<char>;

/// The pattern texts added to a builder, in order.
pub uninterp spec fn builder_patterns(b: GlobSetBuilder) -> Seq<Seq<char>>;

/// The pattern texts a set was built from, in order.
pub uninterp spec fn set_patterns(s: GlobSet) -> Seq<Seq<char>>;

/// Whether the glob that `Glob::new` builds from `pattern` matches `path`
/// (as its compiled matcher's `is_match` answers).
pub uninterp spec fn glob_matches(pattern: Seq<char>, path: Seq<char>) -> bool;

/// Whether a set of globs can be compiled from `patterns` (each of which
/// parses): `GlobSetBuilder::build` fails only when the compiled matchers
/// exceed the regex size limits, which depends on the pattern texts alone.
pub uninterp spec fn set_builds(patterns: Seq<Seq<char>>) -> bool;

/// Some one of `patterns` matches `path`.
pub open spec fn matches_any(patterns: Seq<Seq<char>>, path: Seq<char>) -> bool {
    exists|i: int| 0 <= i < patterns.len() && glob_matches(#[trigger] patterns[i], path)
}

/// `Glob::new`.  Claims that it succeeds exactly on the patterns named
/// `glob_parses`, and that the glob it returns holds the pattern's text, as
/// `Glob::glob` documents.
#[verifier::external_body]
pub(crate) fn glob_new(pattern: &str) -> (r: Result<Glob, globset::Error>)
    ensures
        r is Ok <==> glob_parses(pattern@),
        r matches Ok(g) ==> glob_text(g) == pattern@ && glob_plain(g),
{
    Glob::new(pattern)
}

/// `GlobSetBuilder::new`.  Claims that the new builder holds no pattern (its
/// source starts from an empty vector).
#[verifier::external_body]
pub(crate) fn builder_new() -> (b: GlobSetBuilder)
    ensures
        builder_patterns(b) == Seq::<Seq<char>>::empty(),
        builder_plain(b),
{
    GlobSetBuilder::new()
}

/// `GlobSetBuilder::add`.  Claims that the glob's pattern is appended to
/// the builder's patterns (its source pushes the glob onto its vector).
#[verifier::external_body]
pub(crate) fn builder_add(b: &mut GlobSetBuilder, g: Glob)
    ensures
        builder_patterns(*final(b)) == builder_patterns(*old(b)).push(glob_text(g)),
        builder_plain(*final(b)) == (builder_plain(*old(b)) && glob_plain(g)),
{
    b.add(g);
}

/// `GlobSetBuilder::build`.  Claims that a set it returns holds the builder's
/// patterns and is plain when the builder is, that on a plain builder it
/// succeeds exactly when the patterns compile (named `set_builds`), and that
/// it succeeds when there is no pattern (the source then returns the empty
/// set).
#[verifier::external_body]
pub(crate) fn builder_build(b: &GlobSetBuilder) -> (r: Result<GlobSet, globset::Error>)
    ensures
        r matches Ok(s) ==> set_patterns(s) == builder_patterns(*b) && set_plain(s) == builder_plain(
            *b,
        ),
        builder_plain(*b) ==> (r is Ok <==> set_builds(builder_patterns(*b))),
        builder_patterns(*b).len() == 0 ==> r is Ok,
{
    b.build()
}

/// `GlobSet::is_match` on a relative path.  Claims what its documentation
/// says: it is true exactly when some glob of the set matches the path (so a
/// set without patterns matches nothing), for a set made of globs that
/// `Glob::new` built.  Of other sets nothing is claimed.
#[verifier::external_body]
pub(crate) fn set_is_match(s: &GlobSet, path: &str) -> (r: bool)
    ensures
        set_plain(*s) ==> r == (exists|i: int|
            0 <= i < set_patterns(*s).len() && glob_matches(#[trigger] set_patterns(*s)[i], path@)),
{
    s.is_match(path)
}

} // verus!
