//! Rule matching through the regex engine.
//!
//! The planner matches each file's presentable path against the whole rule
//! set at once, case-insensitively. The engine's verdict is a pure function
//! of the patterns and the path; the trusted items below name that function
//! and carry the engine's documented guarantees, and nothing else.

use vstd::prelude::*;
use crate::status::LoopError;

verus! {

#[verifier::external_type_specification]
#[verifier::external_body]
pub struct ExRegexSet(regex::bytes::RegexSet);

/// The patterns a compiled set was built from, case-insensitively.
pub uninterp spec fn regex_set_patterns(rs: regex::bytes::RegexSet) -> Seq<Seq<char>>;

/// Which patterns of the set match the text: the indices of every pattern
/// whose case-insensitive regex matches somewhere in the byte string.
pub uninterp spec fn regex_set_match_set(patterns: Seq<Seq<char>>, text: Seq<u8>) -> Set<int>;

/// Relies on regex::bytes::RegexSetBuilder: `new` keeps the patterns in
/// order and `build` compiles them as one case-insensitive set, failing
/// only on an invalid pattern.
#[verifier::external_body]
pub fn build_regex_set(patterns: &Vec<String>) -> (r: Result<regex::bytes::RegexSet, LoopError>)
    ensures
        r matches Ok(rs) ==> regex_set_patterns(rs) == patterns@.map(|i: int, s: String| s@),
{
    regex::bytes::RegexSetBuilder::new(patterns.iter())
        .case_insensitive(true)
        .build()
        .map_err(|_| LoopError::InvalidParameter)
}

/// Relies on regex::bytes::RegexSet::matches and SetMatchesIter: the
/// matched pattern indices, in ascending order, each below the pattern
/// count; an index appears exactly when its pattern matches.
#[verifier::external_body]
pub fn regex_set_match_indices(rs: &regex::bytes::RegexSet, text: &Vec<u8>) -> (r: Vec<usize>)
    ensures
        forall|a: int, b: int| 0 <= a < b < r@.len() ==> r@[a] < r@[b],
        forall|a: int|
            0 <= a < r@.len() ==> (#[trigger] r@[a] as int) < regex_set_patterns(*rs).len()
                && regex_set_match_set(regex_set_patterns(*rs), text@).contains(r@[a] as int),
        forall|k: int|
            regex_set_match_set(regex_set_patterns(*rs), text@).contains(k) && 0 <= k
                < regex_set_patterns(*rs).len() ==> exists|a: int|
                0 <= a < r@.len() && r@[a] == k,
{
    rs.matches(text.as_slice()).iter().collect()
}

} // verus!
