//! Fuzzy acceptance of flavor names against the user's filter text.

use vstd::prelude::*;

verus! {

/// What `sublime_fuzzy::best_match` returns for a query and a candidate:
/// `None` when no match exists, otherwise the score of the best match.
/// A function of the two strings alone.
pub uninterp spec fn fuzzy_result(query: Seq<char>, candidate: Seq<char>) -> Option<isize>;

/// Relies on `sublime_fuzzy::best_match`: the outcome depends on the two
/// strings alone, and an empty query or an empty candidate never matches.
#[verifier::external_body]
fn best_match_score(query: &str, candidate: &str) -> (r: Option<isize>)
    ensures
        r == fuzzy_result(query@, candidate@),
        query@.len() == 0 ==> r is None,
        candidate@.len() == 0 ==> r is None,
{
    sublime_fuzzy::best_match(query, candidate).map(|m| m.score())
}

/// The filter's decision: an empty query accepts every candidate with a
/// zero score, any other query goes by the fuzzy matcher.
pub open spec fn spec_matches(query: Seq<char>, candidate: Seq<char>) -> Option<isize> {
    if query.len() == 0 {
        Some(0isize)
    } else {
        fuzzy_result(query, candidate)
    }
}

/// A candidate stays visible under a query.
pub open spec fn accepted(query: Seq<char>, candidate: Seq<char>) -> bool {
    spec_matches(query, candidate) is Some
}

/// The predicate that [`filter_flavors`] keeps candidates by.
pub open spec fn keeps(query: Seq<char>) -> spec_fn(String) -> bool {
    |c: String| accepted(query, c@)
}

/// A stateless scorer of candidate strings against free filter text.
pub struct FuzzyFilter;

impl FuzzyFilter {
    /// The one (stateless) filter.
    pub fn new() -> (r: FuzzyFilter) {
        FuzzyFilter
    }

    /// Accept or reject one candidate. An empty query accepts every
    /// candidate unconditionally; any other query accepts exactly when the
    /// fuzzy matcher finds a match, and then hands its score through.
    pub fn matches(&self, query: &str, candidate: &str) -> (r: Option<isize>)
        ensures
            r == spec_matches(query@, candidate@),
            query@.len() == 0 ==> r is Some,
    {
        if query.is_empty() {
            Some(0)
        } else {
            best_match_score(query, candidate)
        }
    }
}

/// The candidates that the filter keeps for this query, in their original
/// order: all of them for an empty query, the accepted ones otherwise.
pub fn filter_flavors(filter: &FuzzyFilter, query: &str, candidates: &Vec<String>) -> (r: Vec<
    String,
>)
    ensures
        r@ == candidates@.filter(keeps(query@)),
{
    let mut r: Vec<String> = Vec::new();
    let mut i: usize = 0;
    proof {
        reveal(Seq::filter);
        assert(candidates@.subrange(0, 0) =~= Seq::<String>::empty());
    }
    while i < candidates.len()
        invariant
            i <= candidates@.len(),
            r@ == candidates@.subrange(0, i as int).filter(keeps(query@)),
        decreases candidates@.len() - i,
    {
        let keep = filter.matches(query, candidates[i].as_str()).is_some();
        if keep {
            r.push(candidates[i].clone());
        }
        proof {
            reveal(Seq::filter);
            let prefix = candidates@.subrange(0, i as int);
            assert(candidates@.subrange(0, i + 1 as int) =~= prefix.push(candidates@[i as int]));
            assert(prefix.push(candidates@[i as int]).drop_last() =~= prefix);
        }
        i += 1;
    }
    proof {
        assert(candidates@.subrange(0, candidates@.len() as int) =~= candidates@);
    }
    r
}

} // verus!
