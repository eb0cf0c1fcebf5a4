//! The three-stage selection policy: filter, then exclude, then override.
use vstd::prelude::*;
use vstd::string::*;
use crate::glob::{first_invalid, set_builds, PatternError, PatternSet};
use crate::path::texts;

verus! {

/// Decides which relative paths are selected.
///
/// A non-empty filter set is an allow-list that nothing bypasses; an empty one
/// lets every path through. A path that passes the filter is kept unless an
/// exclude pattern matches it, and an excluded path is kept again when an
/// override pattern matches it.
pub struct FileFilter {
    pub filter_globs: PatternSet,
    pub exclude_globs: PatternSet,
    pub include_globs: PatternSet,
}

impl FileFilter {
    /// Whether the policy selects `path`.
    pub open spec fn admits(self, path: Seq<char>) -> bool {
        if self.filter_globs@.len() > 0 && !self.filter_globs.matches(path) {
            false
        } else if self.exclude_globs.matches(path) {
            self.include_globs.matches(path)
        } else {
            true
        }
    }

    /// Compiles the three pattern lists, in the order filter, exclude,
    /// override, stopping at the first list that fails. A list fails with the
    /// text of its first invalid pattern, or, all its patterns being valid,
    /// when globset cannot build its combined matcher. With every list valid,
    /// the result is `Ok` exactly when all three build.
    pub fn new(filter: Vec<String>, exclude: Vec<String>, overrides: Vec<String>) -> (r: Result<
        FileFilter,
        PatternError,
    >)
        ensures
            r matches Ok(f) ==> {
                &&& f.filter_globs@ == texts(filter@)
                &&& f.exclude_globs@ == texts(exclude@)
                &&& f.include_globs@ == texts(overrides@)
            },
            match (
                first_invalid(texts(filter@)),
                first_invalid(texts(exclude@)),
                first_invalid(texts(overrides@)),
            ) {
                (Some(i), _, _) => r matches Err(PatternError::InvalidPattern(p)) && p == filter@[i],
                (None, Some(i), _) => if set_builds(texts(filter@)) {
                    r matches Err(PatternError::InvalidPattern(p)) && p == exclude@[i]
                } else {
                    r matches Err(PatternError::BuildFailed)
                },
                (None, None, Some(i)) => if set_builds(texts(filter@)) && set_builds(
                    texts(exclude@),
                ) {
                    r matches Err(PatternError::InvalidPattern(p)) && p == overrides@[i]
                } else {
                    r matches Err(PatternError::BuildFailed)
                },
                (None, None, None) => {
                    &&& (r is Ok <==> (set_builds(texts(filter@)) && set_builds(texts(exclude@))
                        && set_builds(texts(overrides@))))
                    &&& (r is Ok || r matches Err(PatternError::BuildFailed))
                },
            },
    {
        let filter_globs = PatternSet::new(filter)?;
        let exclude_globs = PatternSet::new(exclude)?;
        let include_globs = PatternSet::new(overrides)?;
        Ok(FileFilter { filter_globs, exclude_globs, include_globs })
    }

    /// Whether the policy selects the relative path `path`.
    pub fn should_include(&self, path: &str) -> (r: bool)
        ensures
            r == self.admits(path@),
    {
        if self.filter_globs.len() > 0 && !self.filter_globs.is_match(path) {
            return false;
        }
        if self.exclude_globs.is_match(path) {
            return self.include_globs.is_match(path);
        }
        true
    }
}

/// With no filter pattern, a path is selected when no exclude pattern matches
/// it, and otherwise exactly when an override pattern matches it.
pub proof fn lemma_empty_filter_admits(policy: FileFilter, path: Seq<char>)
    requires
        policy.filter_globs@.len() == 0,
    ensures
        policy.admits(path) == if policy.exclude_globs.matches(path) {
            policy.include_globs.matches(path)
        } else {
            true
        },
{
}

/// With filter patterns configured, a path that none of them matches is never
/// selected, whatever the exclude and override patterns say.
pub proof fn lemma_filter_is_absolute(policy: FileFilter, path: Seq<char>)
    requires
        policy.filter_globs@.len() > 0,
        !policy.filter_globs.matches(path),
    ensures
        !policy.admits(path),
{
}

/// The user's exclude patterns followed by the standing exclusion of the
/// version-control metadata directory and everything below it. Being an
/// ordinary exclusion, it yields to a matching override pattern.
pub fn with_metadata_excluded(user: Vec<String>) -> (r: Vec<String>)
    ensures
        texts(r@) == texts(user@) + seq![".git"@, ".git/**"@],
{
    let mut r = user;
    r.push(String::from_str(".git"));
    r.push(String::from_str(".git/**"));
    assert(texts(r@) == texts(user@) + seq![".git"@, ".git/**"@]);
    r
}

} // verus!
