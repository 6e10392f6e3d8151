use anchr_core::marker::AnchorId;
use anchr_core::suggest::{suggest, suggest_anchor};

fn suggest_in(query: &str, candidates: &[&str]) -> Option<String> {
    suggest(query, &candidates.to_vec())
}

#[test]
fn exact_case_insensitive_matches_win() {
    assert_eq!(
        suggest_in("validatetoken", &["other", "validateToken"]).as_deref(),
        Some("validateToken")
    );
}

#[test]
fn close_edits_are_suggested_within_budget() {
    assert_eq!(suggest_in("guid", &["guide", "grid"]).as_deref(), Some("guide"));
    assert_eq!(suggest_in("provder.ts", &["provider.ts"]).as_deref(), Some("provider.ts"));
    assert_eq!(suggest_in("abc", &["xyz"]), None);
    assert_eq!(suggest_in("abcdef", &["abxxef"]).as_deref(), Some("abxxef"));
    assert_eq!(suggest_in("abcdef", &["abxxxf"]), None);
}

#[test]
fn transpositions_count_as_one_edit() {
    assert_eq!(suggest_in("recieve", &["receive"]).as_deref(), Some("receive"));
}

#[test]
fn an_exact_match_yields_nothing() {
    assert_eq!(suggest_in("guide", &["guide"]), None);
}

#[test]
fn anchor_suggestions_fall_back_to_the_last_segment() {
    let ids: Vec<AnchorId> = ["auth/token-refresh", "docs/overview"]
        .into_iter()
        .map(|id| AnchorId::parse(id).unwrap())
        .collect();
    let refs: Vec<&AnchorId> = ids.iter().collect();
    let query = AnchorId::parse("token-refresh").unwrap();
    assert_eq!(suggest_anchor(&query, &refs).as_deref(), Some("auth/token-refresh"));
    let typo = AnchorId::parse("auth/token-refesh").unwrap();
    assert_eq!(suggest_anchor(&typo, &refs).as_deref(), Some("auth/token-refresh"));
    let unrelated = AnchorId::parse("payments/ledger").unwrap();
    assert_eq!(suggest_anchor(&unrelated, &refs), None);
}

#[test]
fn the_first_of_equally_close_candidates_wins_and_nothing_is_offered_from_an_empty_set() {
    assert_eq!(suggest_in("cat", &["cut", "cot"]).as_deref(), Some("cut"));
    assert_eq!(suggest_in("cat", &[]), None);
    assert_eq!(suggest_in("", &["a"]).as_deref(), Some("a"));
}
