//! The token filter: a pure predicate deciding which tokens are counted.

use vstd::prelude::*;
use crate::exclusion::ExclusionSet;
use crate::text::{contains_cjk, has_cjk};

verus! {

/// A token is counted exactly when it is not excluded and holds at least
/// one character in the CJK Unified Ideographs range.
pub open spec fn spec_should_count(excludes: Set<Seq<char>>, word: Seq<char>) -> bool {
    !excludes.contains(word) && has_cjk(word)
}

/// Decides whether `word` is counted.  An empty token has no CJK
/// character and is always rejected.
pub fn should_count(excludes: &ExclusionSet, word: &str) -> (r: bool)
    ensures
        r == spec_should_count(excludes.as_set(), word@),
{
    !excludes.contains(word) && contains_cjk(word)
}

} // verus!
