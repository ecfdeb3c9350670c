//! Trusted interface to the `aho_corasick` multi-pattern automata.
//!
//! The dictionary keeps two automata over its word list: one with standard
//! match semantics whose overlapping search reports every occurrence of
//! every word, and one with leftmost-longest semantics used for exact
//! membership tests. Everything the rest of the library knows about them
//! is stated here, over the names `ac_words`, `ac_overlapping`,
//! `ac_leftmost` and the two `ac_builds` predicates.

use aho_corasick::AhoCorasick;
use aho_corasick::MatchKind;
use vstd::prelude::*;

verus! {

#[verifier::external_type_specification]
#[verifier::external_body]
pub struct ExAhoCorasick(AhoCorasick);

/// The pattern list an automaton was built from, as byte strings.
pub uninterp spec fn ac_words(ac: AhoCorasick) -> Seq<Seq<u8>>;

/// Whether the automaton was built with standard match semantics, the only
/// kind whose overlapping search is allowed.
pub uninterp spec fn ac_overlapping(ac: AhoCorasick) -> bool;

/// The leftmost-longest match `AhoCorasick::find` reports on a haystack: a
/// function of the automaton and the haystack alone.
pub uninterp spec fn ac_leftmost(ac: AhoCorasick, hay: Seq<u8>) -> Option<(usize, usize, usize)>;

/// Whether building the standard-semantics automaton over a pattern list
/// stays within the crate's resource limits: a function of the patterns
/// alone.
pub uninterp spec fn ac_builds_overlapping(patterns: Seq<Seq<u8>>) -> bool;

/// Whether building the leftmost-longest automaton over a pattern list
/// stays within the crate's resource limits: a function of the patterns
/// alone.
pub uninterp spec fn ac_builds_leftmost(patterns: Seq<Seq<u8>>) -> bool;

/// Word `id` occurs in `hay` over the byte span `[start, end)`.
pub open spec fn occurs_at(words: Seq<Seq<u8>>, hay: Seq<u8>, m: (usize, usize, usize)) -> bool {
    &&& 0 <= m.2 < words.len()
    &&& m.0 <= m.1 <= hay.len()
    &&& words[m.2 as int] == hay.subrange(m.0 as int, m.1 as int)
}

/// Relies on `AhoCorasick::builder` with `MatchKind::Standard`: the automaton
/// holds exactly the given patterns and supports overlapping searches.
/// Construction fails only on resource limits over the pattern list, so
/// whether it fails is a function of the patterns alone.
#[verifier::external_body]
pub fn build_overlapping(patterns: &Vec<Vec<u8>>) -> (r: Option<AhoCorasick>)
    requires
        forall|i: int| 0 <= i < patterns.deep_view().len() ==> patterns.deep_view()[i].len() > 0,
    ensures
        r is Some <==> ac_builds_overlapping(patterns.deep_view()),
        r matches Some(ac) ==> ac_words(ac) == patterns.deep_view() && ac_overlapping(ac),
{
    AhoCorasick::builder().match_kind(MatchKind::Standard).build(patterns).ok()
}

/// Relies on `AhoCorasick::builder` with `MatchKind::LeftmostLongest`: the
/// automaton holds exactly the given patterns and `find` reports
/// leftmost-longest matches. Construction fails only on resource limits
/// over the pattern list, so whether it fails is a function of the
/// patterns alone.
#[verifier::external_body]
pub fn build_leftmost_longest(patterns: &Vec<Vec<u8>>) -> (r: Option<AhoCorasick>)
    requires
        forall|i: int| 0 <= i < patterns.deep_view().len() ==> patterns.deep_view()[i].len() > 0,
    ensures
        r is Some <==> ac_builds_leftmost(patterns.deep_view()),
        r matches Some(ac) ==> ac_words(ac) == patterns.deep_view() && !ac_overlapping(ac),
{
    AhoCorasick::builder().match_kind(MatchKind::LeftmostLongest).build(patterns).ok()
}

/// Relies on `AhoCorasick::find_overlapping_iter`: with standard match
/// semantics it reports every occurrence of every pattern exactly once, in
/// non-decreasing order of end position.
#[verifier::external_body]
pub fn find_overlapping(ac: &AhoCorasick, hay: &Vec<u8>) -> (r: Vec<(usize, usize, usize)>)
    requires
        ac_overlapping(*ac),
    ensures
        forall|k: int| 0 <= k < r@.len() ==> occurs_at(ac_words(*ac), hay@, #[trigger] r@[k]),
        forall|m: (usize, usize, usize)|
            occurs_at(ac_words(*ac), hay@, m) ==> r@.contains(m),
        forall|k1: int, k2: int| 0 <= k1 < k2 < r@.len() ==> r@[k1].1 <= r@[k2].1,
        forall|k1: int, k2: int| 0 <= k1 < k2 < r@.len() ==> r@[k1] != r@[k2],
{
    ac.find_overlapping_iter(hay.as_slice())
        .map(|m| (m.start(), m.end(), m.pattern().as_usize()))
        .collect()
}

/// Relies on `AhoCorasick::find` under leftmost-longest semantics: among all
/// occurrences it reports one with the smallest start and, within that
/// start, the largest end; it reports `None` exactly when no pattern
/// occurs. The reported match depends on the automaton and haystack alone.
#[verifier::external_body]
pub fn find_leftmost(ac: &AhoCorasick, hay: &Vec<u8>) -> (r: Option<(usize, usize, usize)>)
    requires
        !ac_overlapping(*ac),
    ensures
        r == ac_leftmost(*ac, hay@),
        r matches Some(m) ==> occurs_at(ac_words(*ac), hay@, m) && forall|
            m2: (usize, usize, usize),
        |
            occurs_at(ac_words(*ac), hay@, m2) ==> m2.0 >= m.0 && (m2.0 == m.0 ==> m2.1 <= m.1),
        r is None ==> forall|m2: (usize, usize, usize)| !occurs_at(ac_words(*ac), hay@, m2),
{
    ac.find(hay.as_slice()).map(|m| (m.start(), m.end(), m.pattern().as_usize()))
}

} // verus!
