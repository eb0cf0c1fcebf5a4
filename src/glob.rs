//! Compiled sets of glob patterns, backed by the `globset` crate.
//!
//! What a glob pattern is and what it matches is globset's business: the
//! library names those facts (`glob_parses`, `glob_matches`) and builds its
//! own reasoning on the one property the crate documents for a set, namely that
//! a set matches a path when any of its globs does.
use vstd::prelude::*;
use globset::{Glob, GlobSet, GlobSetBuilder};

verus! {

#[verifier::external_type_specification]
#[verifier::external_body]
pub struct ExGlob(Glob);

#[verifier::external_type_specification]
#[verifier::external_body]
pub struct ExGlobSet(GlobSet);

#[verifier::external_type_specification]
#[verifier::external_body]
pub struct ExGlobSetBuilder(GlobSetBuilder);

#[verifier::external_type_specification]
#[verifier::external_body]
pub struct ExGlobError(globset::Error);

/// Whether `globset::Glob::new` accepts `pattern` (default options).
pub uninterp spec fn glob_parses(pattern: Seq<char>) -> bool;

/// The pattern text that a compiled glob was built from (`Glob::glob`).
pub uninterp spec fn glob_text(glob: Glob) -> Seq<char>;

/// Whether the glob written `pattern` (default options) matches `path`.
pub uninterp spec fn glob_matches(pattern: Seq<char>, path: Seq<char>) -> bool;

/// The pattern texts added to a builder so far, in order.
pub uninterp spec fn builder_patterns(builder: GlobSetBuilder) -> Seq<Seq<char>>;

/// Whether globset compiles a set of the globs written `patterns` (default
/// options); it may refuse valid globs whose combined matcher is too large.
pub uninterp spec fn set_builds(patterns: Seq<Seq<char>>) -> bool;

/// The pattern texts that a built set was compiled from, in order.
pub uninterp spec fn set_patterns(set: GlobSet) -> Seq<Seq<char>>;

/// Relies on `globset::Glob::new`: it succeeds exactly on syntactically valid
/// patterns, and the glob it returns remembers its pattern text.
pub assume_specification[ Glob::new ](glob: &str) -> (r: Result<Glob, globset::Error>)
    ensures
        r is Ok <==> glob_parses(glob@),
        r matches Ok(g) ==> glob_text(g) == glob@,
;

/// Relies on `globset::GlobSetBuilder::new`: a fresh builder holds no glob.
pub assume_specification[ GlobSetBuilder::new ]() -> (r: GlobSetBuilder)
    ensures
        builder_patterns(r) == Seq::<Seq<char>>::empty(),
;

/// Relies on `globset::GlobSetBuilder::build` (which calls `GlobSet::new`):
/// whether it succeeds depends on the globs added alone, a builder with no
/// glob always builds, and the set holds the globs added to the builder.
pub assume_specification[ GlobSetBuilder::build ](builder: &GlobSetBuilder) -> (r: Result<
    GlobSet,
    globset::Error,
>)
    ensures
        r is Ok <==> set_builds(builder_patterns(*builder)),
        builder_patterns(*builder).len() == 0 ==> r is Ok,
        r matches Ok(s) ==> set_patterns(s) == builder_patterns(*builder),
;

/// Relies on `globset::GlobSet::len`: the number of globs in the set.
pub assume_specification[ GlobSet::len ](set: &GlobSet) -> (r: usize)
    ensures
        r == set_patterns(*set).len(),
;

/// Relies on `globset::GlobSetBuilder::add`, which appends the glob to the
/// builder's list.
#[verifier::external_body]
fn add_glob(builder: &mut GlobSetBuilder, glob: Glob)
    ensures
        builder_patterns(*final(builder)) == builder_patterns(*old(builder)).push(glob_text(glob)),
{
    builder.add(glob);
}

/// Relies on `globset::GlobSet::is_match`: true when any glob of the set
/// matches the path.
#[verifier::external_body]
fn set_is_match(set: &GlobSet, path: &str) -> (r: bool)
    ensures
        r == (exists|i: int|
            #![trigger set_patterns(*set)[i]]
            0 <= i && i < set_patterns(*set).len() && glob_matches(set_patterns(*set)[i], path@)),
{
    set.is_match(path)
}

/// Whether any of `patterns` matches `path`.
pub open spec fn any_matches(patterns: Seq<Seq<char>>, path: Seq<char>) -> bool {
    exists|i: int| 0 <= i < patterns.len() && #[trigger] glob_matches(patterns[i], path)
}

/// Why a set of patterns could not be compiled.
#[derive(Debug, PartialEq, Eq)]
pub enum PatternError {
    /// The pattern, quoted in full, is not a valid glob.
    InvalidPattern(String),
    /// Every pattern is valid but the combined matcher could not be built.
    BuildFailed,
}

/// Index of the first pattern that is not a valid glob, if any.
pub open spec fn first_invalid(patterns: Seq<Seq<char>>) -> Option<int>
    decreases patterns.len(),
{
    if patterns.len() == 0 {
        None
    } else if !glob_parses(patterns[0]) {
        Some(0)
    } else {
        match first_invalid(patterns.drop_first()) {
            Some(i) => Some(i + 1),
            None => None,
        }
    }
}

/// A compiled set of glob patterns. It matches a path when any of its
/// patterns does; an empty set matches nothing.
pub struct PatternSet {
    globs: GlobSet,
}

impl View for PatternSet {
    type V = Seq<Seq<char>>;

    /// The patterns of the set, in the order they were given.
    closed spec fn view(&self) -> Seq<Seq<char>> {
        set_patterns(self.globs)
    }
}

impl PatternSet {
    /// Whether the set matches `path`.
    pub open spec fn matches(self, path: Seq<char>) -> bool {
        any_matches(self@, path)
    }

    /// Compiles `patterns`. Fails with the text of the first pattern that is
    /// not a valid glob; with all patterns valid it fails exactly when globset
    /// cannot build their combined matcher. An empty list always compiles.
    pub fn new(patterns: Vec<String>) -> (r: Result<PatternSet, PatternError>)
        ensures
            match first_invalid(patterns@.map_values(|p: String| p@)) {
                Some(i) => r == Err::<PatternSet, PatternError>(PatternError::InvalidPattern(patterns@[i])),
                None => {
                    &&& (r is Ok <==> set_builds(patterns@.map_values(|p: String| p@)))
                    &&& match r {
                        Ok(set) => set@ == patterns@.map_values(|p: String| p@),
                        Err(e) => e == PatternError::BuildFailed,
                    }
                },
            },
            patterns@.len() == 0 ==> r is Ok,
    {
        let ghost texts = patterns@.map_values(|p: String| p@);
        let mut builder = GlobSetBuilder::new();
        let mut k: usize = 0;
        assert(texts.skip(0) == texts);
        while k < patterns.len()
            invariant
                0 <= k <= patterns.len(),
                texts == patterns@.map_values(|p: String| p@),
                builder_patterns(builder) == texts.take(k as int),
                first_invalid(texts) == (match first_invalid(texts.skip(k as int)) {
                    Some(i) => Some(i + k),
                    None => None::<int>,
                }),
            decreases patterns.len() - k,
        {
            proof {
                lemma_first_invalid_step(texts, k as int);
            }
            match Glob::new(patterns[k].as_str()) {
                Ok(glob) => {
                    add_glob(&mut builder, glob);
                    assert(texts.take(k + 1) == texts.take(k as int).push(texts[k as int]));
                },
                Err(_) => {
                    return Err(PatternError::InvalidPattern(patterns[k].clone()));
                },
            }
            k = k + 1;
        }
        assert(texts.take(k as int) == texts);
        assert(texts.skip(k as int).len() == 0);
        match builder.build() {
            Ok(globs) => Ok(PatternSet { globs }),
            Err(_) => Err(PatternError::BuildFailed),
        }
    }

    /// Number of patterns in the set.
    pub fn len(&self) -> (r: usize)
        ensures
            r == self@.len(),
    {
        self.globs.len()
    }

    /// Whether any pattern of the set matches `path`.
    pub fn is_match(&self, path: &str) -> (r: bool)
        ensures
            r == self.matches(path@),
    {
        set_is_match(&self.globs, path)
    }
}

/// Scanning one more pattern: where `texts[k]` is invalid it is the first
/// invalid one from `k` on, and otherwise the search goes on from `k + 1`.
proof fn lemma_first_invalid_step(texts: Seq<Seq<char>>, k: int)
    requires
        0 <= k < texts.len(),
    ensures
        !glob_parses(texts[k]) ==> first_invalid(texts.skip(k)) == Some(0int),
        glob_parses(texts[k]) ==> first_invalid(texts.skip(k)) == (match first_invalid(
            texts.skip(k + 1),
        ) {
            Some(i) => Some(i + 1),
            None => None::<int>,
        }),
{
    assert(texts.skip(k)[0] == texts[k]);
    assert(texts.skip(k).drop_first() == texts.skip(k + 1));
}

} // verus!
