//! "Did you mean" over a candidate set. rustc's rule: a case-insensitive exact match wins;
//! otherwise the closest candidate within an edit budget of a third of the length.
use vstd::prelude::*;

use crate::chars::{same_text, split_on, to_chars};
use crate::marker::AnchorId;

verus! {

/// The optimal string alignment distance between `a` and `b`, as `strsim::osa_distance`
/// computes it.
pub uninterp spec fn osa(a: Seq<char>, b: Seq<char>) -> nat;

/// `s` lowercased, as `str::to_lowercase` does it.
pub uninterp spec fn lowercase(s: Seq<char>) -> Seq<char>;

/// `strsim::osa_distance`: Levenshtein distance that also counts a swap of two adjacent
/// characters as one edit, each substring edited at most once. Only its name is stated here.
#[verifier::external_body]
fn osa_distance(a: &str, b: &str) -> (d: usize)
    ensures
        d == osa(a@, b@),
{
    strsim::osa_distance(a, b)
}

/// `str::to_lowercase`: the Unicode lowercase mapping of every character.
#[verifier::external_body]
fn to_lowercase(s: &str) -> (r: String)
    ensures
        r@ == lowercase(s@),
{
    s.to_lowercase()
}

/// How many edits a query of `q` characters tolerates: a third of its length, and at least one.
pub open spec fn budget(q: Seq<char>) -> int {
    (if q.len() < 3 {
        3int
    } else {
        q.len() as int
    }) / 3
}

/// The suggestion for `q` among `candidates`, given the closest one so far. An exact match
/// means nothing is wrong, so nothing is suggested; a case-insensitive match wins at once;
/// otherwise the first of the closest candidates within the budget.
pub open spec fn suggestion(q: Seq<char>, candidates: Seq<Seq<char>>, best: Option<(nat, Seq<char>)>) -> Option<
    Seq<char>,
>
    decreases candidates.len(),
{
    if candidates.len() == 0 {
        match best {
            Some(b) => Some(b.1),
            None => None,
        }
    } else {
        let c = candidates[0];
        if c == q {
            None
        } else if lowercase(c) == lowercase(q) {
            Some(c)
        } else {
            let d = osa(q, c);
            let closer = d <= budget(q) && match best {
                Some(b) => d < b.0,
                None => true,
            };
            suggestion(q, candidates.drop_first(), if closer { Some((d, c)) } else { best })
        }
    }
}

/// The texts of `v`.
pub open spec fn strs(v: Seq<&str>) -> Seq<Seq<char>> {
    v.map_values(|s: &str| s@)
}

/// At most one suggestion; `None` when nothing is close enough to be worth saying.
pub fn suggest(query: &str, candidates: &Vec<&str>) -> (r: Option<String>)
    ensures
        match r {
            Some(s) => suggestion(query@, strs(candidates@), None) == Some(s@),
            None => suggestion(query@, strs(candidates@), None) is None,
        },
{
    let n = to_chars(query).len();
    let ghost q = query@;
    let ghost all = strs(candidates@);
    let budget_of_query: usize = if n < 3 { 1 } else { n / 3 };
    assert(budget_of_query == budget(q));
    let lowered = to_lowercase(query);
    let mut best: Option<(usize, &str)> = None;
    let mut i: usize = 0;
    assert(all.skip(0) =~= all);
    while i < candidates.len()
        invariant
            i <= candidates@.len(),
            all == strs(candidates@),
            q == query@,
            lowered@ == lowercase(q),
            budget_of_query == budget(q),
            suggestion(q, all, None) == suggestion(q, all.skip(i as int), best_view(best)),
        decreases candidates.len() - i,
    {
        let candidate: &str = candidates[i];
        assert(all.skip(i as int)[0] == candidate@);
        assert(all.skip(i as int).drop_first() =~= all.skip(i + 1));
        if same_text(candidate, query) {
            return None;
        }
        let lowered_candidate = to_lowercase(candidate);
        if same_text(lowered_candidate.as_str(), lowered.as_str()) {
            return Some(candidate.to_owned());
        }
        let distance = osa_distance(query, candidate);
        let closer = distance <= budget_of_query && match best {
            Some((best_distance, _)) => distance < best_distance,
            None => true,
        };
        if closer {
            best = Some((distance, candidate));
        }
        i += 1;
    }
    match best {
        Some((_, candidate)) => Some(candidate.to_owned()),
        None => None,
    }
}

/// The closest candidate so far, by value.
pub open spec fn best_view(best: Option<(usize, &str)>) -> Option<(nat, Seq<char>)> {
    match best {
        Some(b) => Some((b.0 as nat, b.1@)),
        None => None,
    }
}

/// Whether `candidate` is close to `query` by their last segments: the same last segment, or
/// one within the budget of the query's.
pub open spec fn near_by_last_segment(query: Seq<char>, candidate: Seq<char>) -> bool {
    let last = split_on(query, '/').last();
    let other = split_on(candidate, '/').last();
    candidate != query && (other == last || osa(last, other) <= budget(last))
}

/// The first of `candidates` near `query` by last segment.
pub open spec fn first_near(query: Seq<char>, candidates: Seq<Seq<char>>) -> Option<Seq<char>>
    decreases candidates.len(),
{
    if candidates.len() == 0 {
        None
    } else if near_by_last_segment(query, candidates[0]) {
        Some(candidates[0])
    } else {
        first_near(query, candidates.drop_first())
    }
}

/// The ids of `v`, as texts.
pub open spec fn id_texts(v: Seq<&AnchorId>) -> Seq<Seq<char>> {
    v.map_values(|id: &AnchorId| id@)
}

/// What an unknown anchor id is suggested as: the general suggestion first, then, because ids
/// are hierarchical, the first id whose last segment matches or nearly matches the query's.
pub open spec fn anchor_suggestion(query: Seq<char>, candidates: Seq<Seq<char>>) -> Option<Seq<char>> {
    match suggestion(query, candidates, None) {
        Some(s) => Some(s),
        None => first_near(query, candidates),
    }
}

/// Anchor ids are hierarchical, so a query that matches only the last segment of a candidate
/// (`token-refresh` for `auth/token-refresh`) is still a useful suggestion.
pub fn suggest_anchor(query: &AnchorId, candidates: &Vec<&AnchorId>) -> (r: Option<String>)
    ensures
        match r {
            Some(s) => anchor_suggestion(query@, id_texts(candidates@)) == Some(s@),
            None => anchor_suggestion(query@, id_texts(candidates@)) is None,
        },
{
    let ghost all = id_texts(candidates@);
    let mut texts: Vec<&str> = Vec::new();
    let mut i: usize = 0;
    while i < candidates.len()
        invariant
            i <= candidates@.len(),
            all == id_texts(candidates@),
            strs(texts@) == all.take(i as int),
        decreases candidates.len() - i,
    {
        let ghost before = strs(texts@);
        texts.push(candidates[i].as_str());
        assert(strs(texts@) =~= before.push(all[i as int]));
        assert(all.take(i + 1) =~= all.take(i as int).push(all[i as int]));
        i += 1;
    }
    assert(all.take(i as int) =~= all);
    if let Some(found) = suggest(query.as_str(), &texts) {
        return Some(found);
    }
    let last = query.last_segment();
    let n = to_chars(last).len();
    let last_budget: usize = if n < 3 {
        1
    } else {
        n / 3
    };
    assert(last_budget == budget(last@));
    let mut k: usize = 0;
    assert(all.skip(0) =~= all);
    while k < candidates.len()
        invariant
            k <= candidates@.len(),
            all == id_texts(candidates@),
            last@ == split_on(query@, '/').last(),
            last_budget == budget(last@),
            suggestion(query@, all, None) is None,
            first_near(query@, all) == first_near(query@, all.skip(k as int)),
        decreases candidates.len() - k,
    {
        let candidate = candidates[k];
        assert(all.skip(k as int)[0] == candidate@);
        assert(all.skip(k as int).drop_first() =~= all.skip(k + 1));
        let other = candidate.last_segment();
        let near = !candidate.same(query) && (same_text(other, last) || osa_distance(last, other)
            <= last_budget);
        if near {
            return Some(candidate.as_str().to_owned());
        }
        k += 1;
    }
    None
}

proof fn lemma_suggestion_from(q: Seq<char>, all: Seq<Seq<char>>, i: int, best: Option<(nat, Seq<char>)>)
    requires
        0 <= i <= all.len(),
        best matches Some(b) ==> all.contains(b.1) && b.1 != q,
    ensures
        suggestion(q, all.skip(i), best) matches Some(s) ==> all.contains(s) && s != q,
    decreases all.len() - i,
{
    let rest = all.skip(i);
    if i < all.len() {
        assert(rest[0] == all[i]);
        assert(rest.drop_first() =~= all.skip(i + 1));
        let c = rest[0];
        if c != q && lowercase(c) != lowercase(q) {
            let d = osa(q, c);
            let closer = d <= budget(q) && match best {
                Some(b) => d < b.0,
                None => true,
            };
            lemma_suggestion_from(q, all, i + 1, if closer { Some((d, c)) } else { best });
        }
    }
}

/// A suggestion is always one of the candidates, and never the query itself.
pub proof fn lemma_suggestion_is_a_candidate(q: Seq<char>, candidates: Seq<Seq<char>>)
    ensures
        suggestion(q, candidates, None) matches Some(s) ==> candidates.contains(s) && s != q,
{
    lemma_suggestion_from(q, candidates, 0, None);
    assert(candidates.skip(0) =~= candidates);
}

proof fn lemma_first_near_is_a_candidate(q: Seq<char>, all: Seq<Seq<char>>, i: int)
    requires
        0 <= i <= all.len(),
    ensures
        first_near(q, all.skip(i)) matches Some(s) ==> all.contains(s) && s != q,
    decreases all.len() - i,
{
    if i < all.len() {
        assert(all.skip(i)[0] == all[i]);
        assert(all.skip(i).drop_first() =~= all.skip(i + 1));
        lemma_first_near_is_a_candidate(q, all, i + 1);
    }
}

/// An anchor suggestion is always one of the candidate ids, and never the query itself.
pub proof fn lemma_anchor_suggestion_is_a_candidate(q: Seq<char>, candidates: Seq<Seq<char>>)
    ensures
        anchor_suggestion(q, candidates) matches Some(s) ==> candidates.contains(s) && s != q,
{
    lemma_suggestion_is_a_candidate(q, candidates);
    lemma_first_near_is_a_candidate(q, candidates, 0);
    assert(candidates.skip(0) =~= candidates);
}

/// The last `/`-separated segment of `s`.
pub open spec fn last_segment_of(s: Seq<char>) -> Seq<char> {
    split_on(s, '/').last()
}

proof fn lemma_first_near_finds(q: Seq<char>, all: Seq<Seq<char>>, i: int, j: int)
    requires
        0 <= i <= j < all.len(),
        all[j] != q,
        last_segment_of(all[j]) == last_segment_of(q) || osa(last_segment_of(q), last_segment_of(all[j]))
            <= budget(last_segment_of(q)),
    ensures
        first_near(q, all.skip(i)) is Some,
    decreases j - i,
{
    assert(all.skip(i)[0] == all[i]);
    assert(all.skip(i).drop_first() =~= all.skip(i + 1));
    if i < j && !near_by_last_segment(q, all[i]) {
        lemma_first_near_finds(q, all, i + 1, j);
    }
}

proof fn lemma_first_near_fits(q: Seq<char>, all: Seq<Seq<char>>, i: int)
    requires
        0 <= i <= all.len(),
    ensures
        first_near(q, all.skip(i)) matches Some(c) ==> c != q && (last_segment_of(c) == last_segment_of(q)
            || osa(last_segment_of(q), last_segment_of(c)) <= budget(last_segment_of(q))),
    decreases all.len() - i,
{
    if i < all.len() {
        assert(all.skip(i)[0] == all[i]);
        assert(all.skip(i).drop_first() =~= all.skip(i + 1));
        lemma_first_near_fits(q, all, i + 1);
    }
}

/// Ids are hierarchical, so an id whose last segment matches the query's, or is within the
/// query's last segment's edit budget of it, is worth suggesting: when the general suggestion
/// finds nothing and some other candidate is that close by last segment, something is
/// suggested; and what the last segment leads to is such a candidate.
pub proof fn lemma_last_segment_fallback(q: Seq<char>, candidates: Seq<Seq<char>>, j: int)
    requires
        0 <= j < candidates.len(),
        candidates[j] != q,
        last_segment_of(candidates[j]) == last_segment_of(q) || osa(
            last_segment_of(q),
            last_segment_of(candidates[j]),
        ) <= budget(last_segment_of(q)),
    ensures
        anchor_suggestion(q, candidates) is Some,
        suggestion(q, candidates, None) is None ==> (anchor_suggestion(q, candidates) matches Some(c)
            && candidates.contains(c) && c != q && (last_segment_of(c) == last_segment_of(q) || osa(
            last_segment_of(q),
            last_segment_of(c),
        ) <= budget(last_segment_of(q)))),
{
    assert(candidates.skip(0) =~= candidates);
    lemma_first_near_finds(q, candidates, 0, j);
    lemma_first_near_fits(q, candidates, 0);
    lemma_anchor_suggestion_is_a_candidate(q, candidates);
}

} // verus!
