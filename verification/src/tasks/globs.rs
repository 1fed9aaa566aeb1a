//! Compiled watch globs of a task.
use vstd::prelude::*;

verus! {

#[verifier::external_type_specification]
#[verifier::external_body]
pub struct ExGlobSet(globset::GlobSet);

#[verifier::external_type_specification]
#[verifier::external_body]
pub struct ExGlobSetBuilder(globset::GlobSetBuilder);

#[verifier::external_type_specification]
#[verifier::external_body]
pub struct ExGlobError(globset::Error);

/// Whether `globset::Glob::new` accepts a pattern.
pub uninterp spec fn glob_is_valid(pattern: Seq<char>) -> bool;

/// Whether a set built from globs of the given patterns, in order, matches a path.
pub uninterp spec fn glob_set_matches(patterns: Seq<Seq<char>>, path: Seq<char>) -> bool;

/// Whether `globset::GlobSetBuilder::build` compiles a set from globs of the given valid
/// patterns, in order (it can refuse patterns that pass the limits of the regex engine).
pub uninterp spec fn glob_set_builds(patterns: Seq<Seq<char>>) -> bool;

/// The patterns of the globs a builder holds, in the order they were added (each glob
/// gives back its pattern with `Glob::glob`).
pub uninterp spec fn builder_patterns(b: globset::GlobSetBuilder) -> Seq<Seq<char>>;

/// The patterns of the globs a set was built from, in order.
pub uninterp spec fn set_patterns(s: globset::GlobSet) -> Seq<Seq<char>>;

/// An empty builder, from `globset::GlobSetBuilder::new`, which starts with no globs.
#[verifier::external_body]
fn set_builder_new() -> (b: globset::GlobSetBuilder)
    ensures
        builder_patterns(b) == Seq::<Seq<char>>::empty(),
{
    globset::GlobSetBuilder::new()
}

/// Adds the glob of a pattern to a builder with `globset::GlobSetBuilder::add`, which
/// pushes the glob at the end. The pattern is turned into the glob the call takes by
/// `globset::Glob::new`; when that fails, its error is returned and the builder is left
/// alone. Claimed: the pattern is accepted exactly when [`glob_is_valid`] holds of it.
#[verifier::external_body]
fn set_builder_add(builder: &mut globset::GlobSetBuilder, pattern: &str) -> (r: Result<
    (),
    globset::Error,
>)
    ensures
        r is Ok == glob_is_valid(pattern@),
        r is Ok ==> builder_patterns(*final(builder)) == builder_patterns(*old(builder)).push(
            pattern@,
        ),
        r is Err ==> builder_patterns(*final(builder)) == builder_patterns(*old(builder)),
{
    match globset::Glob::new(pattern) {
        Ok(glob) => {
            builder.add(glob);
            Ok(())
        },
        Err(e) => Err(e),
    }
}

/// Compiles a builder's globs with `globset::GlobSetBuilder::build`, which builds the set
/// from the globs the builder holds. Claimed: it succeeds exactly when
/// [`glob_set_builds`] holds of their patterns, and the set is built from those globs.
#[verifier::external_body]
fn set_builder_build(builder: &globset::GlobSetBuilder) -> (r: Result<
    globset::GlobSet,
    globset::Error,
>)
    ensures
        r is Ok == glob_set_builds(builder_patterns(*builder)),
        r matches Ok(s) ==> set_patterns(s) == builder_patterns(*builder),
{
    builder.build()
}

/// Whether a path matches any glob of a set, by `globset::GlobSet::is_match`.
/// Claimed: the answer is [`glob_set_matches`] of the set's patterns and the path.
#[verifier::external_body]
fn set_is_match(set: &globset::GlobSet, path: &str) -> (b: bool)
    ensures
        b == glob_set_matches(set_patterns(*set), path@),
{
    set.is_match(path)
}

/// The message of a glob error, from its `Display` implementation. Nothing is claimed of
/// the text.
#[verifier::external_body]
fn glob_error_text(e: &globset::Error) -> (text: String) {
    e.to_string()
}

/// Why a task's watch globs did not compile.
#[derive(Clone, Debug)]
pub struct GlobError {
    pub message: String,
}

/// Whether a list of watch patterns compiles: every pattern is a valid glob and the set
/// of them builds.
pub open spec fn globs_compile(patterns: Seq<Seq<char>>) -> bool {
    (forall|k: int| 0 <= k < patterns.len() ==> glob_is_valid(#[trigger] patterns[k]))
        && glob_set_builds(patterns)
}

/// A compiled set of watch globs.
pub struct WatchGlobs {
    set: globset::GlobSet,
}

impl View for WatchGlobs {
    type V = Seq<Seq<char>>;

    /// The patterns the set was compiled from, in order.
    closed spec fn view(&self) -> Seq<Seq<char>> {
        set_patterns(self.set)
    }
}

impl WatchGlobs {
    /// Whether a path matches any glob of the set.
    pub(crate) fn is_match(&self, path: &str) -> (b: bool)
        ensures
            b == glob_set_matches(self@, path@),
    {
        set_is_match(&self.set, path)
    }
}

/// Compiles the watch globs of a task. Fails on the first pattern that is not a valid
/// glob, with that pattern's error; when every pattern is valid the set is built.
pub fn build_globset(patterns: &Vec<String>) -> (r: Result<WatchGlobs, GlobError>)
    ensures
        r is Ok <==> globs_compile(patterns@.map_values(|p: String| p@)),
        r matches Ok(g) ==> g@ == patterns@.map_values(|p: String| p@),
{
    let ghost pv = patterns@.map_values(|p: String| p@);
    let mut builder = set_builder_new();
    let mut i: usize = 0;
    while i < patterns.len()
        invariant
            i <= patterns.len(),
            pv == patterns@.map_values(|p: String| p@),
            builder_patterns(builder) == pv.take(i as int),
            forall|k: int| 0 <= k < i ==> glob_is_valid(#[trigger] pv[k]),
        decreases patterns.len() - i,
    {
        match set_builder_add(&mut builder, patterns[i].as_str()) {
            Ok(()) => {
                assert(pv.take(i + 1) =~= pv.take(i as int).push(pv[i as int]));
            },
            Err(e) => {
                assert(!glob_is_valid(pv[i as int]));
                return Err(GlobError { message: glob_error_text(&e) });
            },
        }
        i = i + 1;
    }
    assert(pv.take(i as int) =~= pv);
    match set_builder_build(&builder) {
        Ok(set) => Ok(WatchGlobs { set }),
        Err(e) => Err(GlobError { message: glob_error_text(&e) }),
    }
}

} // verus!
