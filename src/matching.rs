//! Fuzzy matching of a query against the candidate entries, and ranking of
//! the matches.
use vstd::prelude::*;
use nucleo_matcher::pattern::Pattern;
use nucleo_matcher::Matcher;

verus! {

#[verifier::external_type_specification]
#[verifier::external_body]
pub struct ExPattern(Pattern);

#[verifier::external_type_specification]
#[verifier::external_body]
pub struct ExMatcher(Matcher);

/// The score that nucleo gives to `candidate` for the path-matching query
/// `query` (case ignored, smart normalization); `None` when it does not match.
pub uninterp spec fn path_match_score(query: Seq<char>, candidate: Seq<char>) -> Option<u32>;

/// A query as nucleo parsed it, beside the text it was parsed from.
struct FuzzyQuery {
    text: String,
    pattern: Pattern,
}

/// Relies on `Pattern::parse`, with case ignored and smart normalization;
/// the text is kept beside the parsed pattern.
#[verifier::external_body]
fn parse_query(text: &str) -> (r: FuzzyQuery)
    ensures
        r.text@ == text@,
{
    FuzzyQuery {
        text: text.to_string(),
        pattern: Pattern::parse(
            text,
            nucleo_matcher::pattern::CaseMatching::Ignore,
            nucleo_matcher::pattern::Normalization::Smart,
        ),
    }
}

/// Relies on `Matcher::new`, with nucleo's configuration for matching file
/// paths; this is the only way a matcher is made here.
#[verifier::external_body]
fn path_matcher() -> (r: Matcher) {
    Matcher::new(nucleo_matcher::Config::DEFAULT.match_paths())
}

/// Relies on `Pattern::score`: the score depends on the query and the
/// candidate alone, the matcher only lends its scratch memory.
#[verifier::external_body]
fn fuzzy_score(q: &FuzzyQuery, matcher: &mut Matcher, candidate: &str) -> (r: Option<u32>)
    ensures
        r == path_match_score(q.text@, candidate@),
{
    let mut buf = Vec::new();
    q.pattern.score(nucleo_matcher::Utf32Str::new(candidate, &mut buf), matcher)
}

/// Candidate `i` ranks strictly before candidate `j`: both match, and `i`
/// has the higher score, or the same score and comes first in the list.
pub open spec fn ranks_before(scores: Seq<Option<u32>>, i: int, j: int) -> bool {
    &&& 0 <= i < scores.len()
    &&& 0 <= j < scores.len()
    &&& scores[i] is Some
    &&& scores[j] is Some
    &&& (scores[i]->0 > scores[j]->0 || (scores[i]->0 == scores[j]->0 && i < j))
}

/// `r` lists the matching candidates (those with a score) best first, as
/// many as there are but at most `limit`.
pub open spec fn is_ranking(scores: Seq<Option<u32>>, limit: nat, r: Seq<usize>) -> bool {
    &&& r.len() <= limit
    &&& forall|k: int| 0 <= k < r.len() ==> #[trigger] r[k] < scores.len() && scores[r[k] as int] is Some
    &&& forall|k: int, l: int| 0 <= k < l < r.len() ==> ranks_before(scores, #[trigger] r[k] as int, #[trigger] r[l] as int)
    &&& forall|j: int| 0 <= j < scores.len() && (#[trigger] scores[j]) is Some && !r.contains(j as usize)
        ==> r.len() == limit && forall|k: int| 0 <= k < r.len() ==> ranks_before(scores, #[trigger] r[k] as int, j)
}

/// The scores of all candidates against `query`.
pub open spec fn candidate_scores(query: Seq<char>, candidates: Seq<String>) -> Seq<Option<u32>> {
    Seq::new(candidates.len(), |i: int| path_match_score(query, candidates[i]@))
}

/// The best candidate that ranks after `last` (after none when `last` is
/// `None`).
fn next_best(scores: &Vec<Option<u32>>, last: Option<usize>) -> (r: Option<usize>)
    requires
        last matches Some(l) ==> l < scores.len(),
    ensures
        r matches Some(m) ==> {
            &&& m < scores.len()
            &&& scores@[m as int] is Some
            &&& (last matches Some(l) ==> ranks_before(scores@, l as int, m as int))
            &&& forall|j: int| 0 <= j < scores.len() && j != m && scores@[j] is Some
                && (last matches Some(l) ==> ranks_before(scores@, l as int, j))
                ==> ranks_before(scores@, m as int, j)
        },
        r is None ==> forall|j: int| 0 <= j < scores.len() && #[trigger] scores@[j] is Some
            ==> (last matches Some(l) && !ranks_before(scores@, l as int, j)),
{
    let mut best: Option<usize> = None;
    let mut i: usize = 0;
    while i < scores.len()
        invariant
            i <= scores.len(),
            last matches Some(l) ==> l < scores.len(),
            best matches Some(m) ==> {
                &&& m < i
                &&& scores@[m as int] is Some
                &&& (last matches Some(l) ==> ranks_before(scores@, l as int, m as int))
                &&& forall|j: int| 0 <= j < i && j != m && scores@[j] is Some
                    && (last matches Some(l) ==> ranks_before(scores@, l as int, j))
                    ==> ranks_before(scores@, m as int, j)
            },
            best is None ==> forall|j: int| 0 <= j < i && #[trigger] scores@[j] is Some
                ==> (last matches Some(l) && !ranks_before(scores@, l as int, j)),
        decreases scores.len() - i,
    {
        if let Some(s) = scores[i] {
            let after_last = match last {
                None => true,
                Some(l) => match scores[l] {
                    Some(ls) => ls > s || (ls == s && l < i),
                    None => false,
                },
            };
            if after_last {
                let better = match best {
                    None => true,
                    Some(m) => match scores[m] {
                        Some(ms) => s > ms,
                        None => false,
                    },
                };
                if better {
                    proof {
                        if let Some(m) = best {
                            assert forall|j: int| 0 <= j < i && scores@[j] is Some
                                && (last matches Some(l) ==> ranks_before(scores@, l as int, j))
                                implies ranks_before(scores@, i as int, j) by {
                                assert(ranks_before(scores@, i as int, m as int));
                                if j != m {
                                    assert(ranks_before(scores@, m as int, j));
                                }
                            }
                        }
                    }
                    best = Some(i);
                } else {
                    proof {
                        if let Some(m) = best {
                            assert(ranks_before(scores@, m as int, i as int));
                        }
                    }
                }
            }
        }
        i = i + 1;
    }
    best
}

/// `r` is strictly ordered best first, holds matching candidates only, and
/// every matching candidate that it leaves out ranks after its last item.
pub open spec fn is_ranking_prefix(scores: Seq<Option<u32>>, r: Seq<usize>) -> bool {
    &&& forall|k: int| 0 <= k < r.len() ==> #[trigger] r[k] < scores.len() && scores[r[k] as int] is Some
    &&& forall|k: int, l: int| 0 <= k < l < r.len() ==> ranks_before(scores, #[trigger] r[k] as int, #[trigger] r[l] as int)
    &&& r.len() > 0 ==> forall|j: int| 0 <= j < scores.len() && (#[trigger] scores[j]) is Some && !r.contains(j as usize)
        ==> ranks_before(scores, r.last() as int, j)
}

/// The indices of the matching candidates, best first, at most `limit` of
/// them; equal scores keep the order of the list.
pub fn rank(scores: &Vec<Option<u32>>, limit: usize) -> (r: Vec<usize>)
    ensures
        is_ranking(scores@, limit as nat, r@),
{
    let mut r: Vec<usize> = Vec::new();
    let mut exhausted = false;
    while !exhausted && r.len() < limit
        invariant
            is_ranking_prefix(scores@, r@),
            r.len() <= limit,
            exhausted ==> forall|j: int| 0 <= j < scores.len() && (#[trigger] scores@[j]) is Some ==> r@.contains(j as usize),
        decreases limit - r.len() + (if exhausted { 0int } else { 1int }),
    {
        let last = if r.len() == 0 { None } else { Some(r[r.len() - 1]) };
        match next_best(scores, last) {
            None => {
                assert forall|j: int| 0 <= j < scores.len() && (#[trigger] scores@[j]) is Some implies r@.contains(j as usize) by {
                    if !r@.contains(j as usize) {
                        assert(ranks_before(scores@, r@.last() as int, j));
                    }
                }
                exhausted = true;
            },
            Some(m) => {
                let ghost old_r = r@;
                r.push(m);
                assert(r@.last() == m);
                assert forall|j: int| 0 <= j < scores.len() && (#[trigger] scores@[j]) is Some && !r@.contains(j as usize)
                    implies ranks_before(scores@, m as int, j) by {
                    assert(!old_r.contains(j as usize)) by {
                        if old_r.contains(j as usize) {
                            let k = choose|k: int| 0 <= k < old_r.len() && old_r[k] == j as usize;
                            assert(r@[k] == j as usize);
                        }
                    }
                    assert(j != m as int) by {
                        assert(r@[r@.len() - 1] == m);
                    }
                }
                assert forall|k: int, l: int| 0 <= k < l < r@.len() implies ranks_before(scores@, #[trigger] r@[k] as int, #[trigger] r@[l] as int) by {
                    if l == r@.len() - 1 && k < l - 1 {
                        assert(ranks_before(scores@, old_r[k] as int, old_r.last() as int));
                    }
                }
            },
        }
    }
    proof {
        if !exhausted {
            assert forall|j: int| 0 <= j < scores.len() && (#[trigger] scores@[j]) is Some && !r@.contains(j as usize)
                implies forall|k: int| 0 <= k < r@.len() ==> ranks_before(scores@, #[trigger] r@[k] as int, j) by {
                assert forall|k: int| 0 <= k < r@.len() implies ranks_before(scores@, #[trigger] r@[k] as int, j) by {
                    if k < r@.len() - 1 {
                        assert(ranks_before(scores@, r@[k] as int, r@[r@.len() - 1] as int));
                    }
                }
            }
        }
    }
    r
}

/// The candidates that match `query`, best first, at most `limit` of them.
pub fn search(query: &str, candidates: &Vec<String>, limit: usize) -> (r: Vec<usize>)
    ensures
        is_ranking(candidate_scores(query@, candidates@), limit as nat, r@),
{
    let q = parse_query(query);
    let mut matcher = path_matcher();
    let mut scores: Vec<Option<u32>> = Vec::new();
    let mut i: usize = 0;
    while i < candidates.len()
        invariant
            i <= candidates.len(),
            q.text@ == query@,
            scores@ == candidate_scores(query@, candidates@).take(i as int),
        decreases candidates.len() - i,
    {
        let s = fuzzy_score(&q, &mut matcher, candidates[i].as_str());
        scores.push(s);
        i = i + 1;
    }
    assert(scores@ == candidate_scores(query@, candidates@));
    rank(&scores, limit)
}

proof fn lemma_ranking_prefix_agrees(scores: Seq<Option<u32>>, limit: nat, r1: Seq<usize>, r2: Seq<usize>, n: int)
    requires
        is_ranking(scores, limit, r1),
        is_ranking(scores, limit, r2),
        0 <= n <= r1.len(),
        n <= r2.len(),
    ensures
        forall|k: int| 0 <= k < n ==> r1[k] == r2[k],
    decreases n,
{
    if n > 0 {
        lemma_ranking_prefix_agrees(scores, limit, r1, r2, n - 1);
        let k = n - 1;
        lemma_ranking_position_agrees(scores, limit, r1, r2, k);
        lemma_ranking_position_agrees(scores, limit, r2, r1, k);
    }
}

/// Where two rankings agree before position `k`, `r1[k]` cannot rank
/// strictly before `r2[k]`.
proof fn lemma_ranking_position_agrees(scores: Seq<Option<u32>>, limit: nat, r1: Seq<usize>, r2: Seq<usize>, k: int)
    requires
        is_ranking(scores, limit, r1),
        is_ranking(scores, limit, r2),
        0 <= k < r1.len(),
        k < r2.len(),
        forall|p: int| 0 <= p < k ==> r1[p] == r2[p],
    ensures
        !ranks_before(scores, r1[k] as int, r2[k] as int),
{
    let a = r1[k];
    let b = r2[k];
    if ranks_before(scores, a as int, b as int) {
        assert(scores[a as int] is Some);
        if r2.contains(a) {
            let p = choose|p: int| 0 <= p < r2.len() && r2[p] == a;
            if p < k {
                assert(r1[p] == a);
                assert(ranks_before(scores, r1[p] as int, r1[k] as int));
            } else if p > k {
                assert(ranks_before(scores, r2[k] as int, r2[p] as int));
            }
        } else {
            assert(ranks_before(scores, r2[k] as int, a as int));
        }
    }
}

/// Ranking is deterministic: for the same scores and limit there is exactly
/// one ranking, so repeating a search over an unchanged candidate list gives
/// the same result in the same order.
pub proof fn lemma_ranking_unique(scores: Seq<Option<u32>>, limit: nat, r1: Seq<usize>, r2: Seq<usize>)
    requires
        is_ranking(scores, limit, r1),
        is_ranking(scores, limit, r2),
    ensures
        r1 == r2,
{
    if r1.len() < r2.len() {
        lemma_ranking_prefix_agrees(scores, limit, r1, r2, r1.len() as int);
        let x = r2[r1.len() as int];
        assert(scores[x as int] is Some);
        if r1.contains(x) {
            let p = choose|p: int| 0 <= p < r1.len() && r1[p] == x;
            assert(ranks_before(scores, r2[p] as int, r2[r1.len() as int] as int));
        }
    } else if r2.len() < r1.len() {
        lemma_ranking_prefix_agrees(scores, limit, r2, r1, r2.len() as int);
        let x = r1[r2.len() as int];
        assert(scores[x as int] is Some);
        if r2.contains(x) {
            let p = choose|p: int| 0 <= p < r2.len() && r2[p] == x;
            assert(ranks_before(scores, r1[p] as int, r1[r2.len() as int] as int));
        }
    } else {
        lemma_ranking_prefix_agrees(scores, limit, r1, r2, r1.len() as int);
        assert(r1 =~= r2);
    }
}

/// A matching candidate is left out of a ranking only when the ranking is
/// full and its last item ranks before the candidate: a candidate with the
/// best score, or tied for it and listed first, is always the first result
/// when `limit` is positive.
pub proof fn lemma_ranking_membership(scores: Seq<Option<u32>>, limit: nat, r: Seq<usize>, j: usize)
    requires
        is_ranking(scores, limit, r),
        j < scores.len(),
        scores[j as int] is Some,
    ensures
        r.contains(j) <==> r.len() < limit || (r.len() > 0 && !ranks_before(scores, r.last() as int, j as int)),
        limit > 0 && (forall|i: int| 0 <= i < scores.len() ==> !ranks_before(scores, i, j as int)) ==> r.len() > 0 && r[0] == j,
{
    if r.contains(j) {
        let p = choose|p: int| 0 <= p < r.len() && r[p] == j;
        if r.len() >= limit {
            if p < r.len() - 1 {
                assert(ranks_before(scores, r[p] as int, r[r.len() - 1] as int));
            }
        }
    } else {
        if r.len() > 0 {
            assert(ranks_before(scores, r[r.len() - 1] as int, j as int));
        }
    }
    if limit > 0 && (forall|i: int| 0 <= i < scores.len() ==> !ranks_before(scores, i, j as int)) {
        if !r.contains(j) {
            assert(ranks_before(scores, r[0] as int, j as int));
            assert(!ranks_before(scores, r[0] as int, j as int));
        } else {
            let p = choose|p: int| 0 <= p < r.len() && r[p] == j;
            if p > 0 {
                assert(ranks_before(scores, r[0] as int, r[p] as int));
                assert(!ranks_before(scores, r[0] as int, j as int));
            }
        }
    }
}

} // verus!
