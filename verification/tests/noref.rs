use anchr_core::marker::{
    parse_noref_body, NoRefEntry, NoRefEntryError, NoRefError, MAX_NOREF_ENTRY_BYTES,
};
use anchr_core::noref::NoRefSet;
use anchr_core::span::ByteSpan;

fn set(entries: &[&str]) -> NoRefSet {
    NoRefSet::new(entries.iter().map(|raw| NoRefEntry::parse(raw).unwrap()).collect())
}

fn claims(entry: &str, token: &str) -> bool {
    set(&[entry]).claim(token)
}

#[test]
fn tests_globs_match_the_whole_token_or_the_path_of_a_symbol() {
    assert!(claims("a.md", "a.md"));
    assert!(claims("a.md", "a.md#Section"));
    assert!(!claims("a.md", "docs/a.md"));
    assert!(!claims("a.md", "a.md.bak"));
    assert!(!claims("A.md", "a.md"));

    assert!(claims("src/", "src/"));
    assert!(!claims("src/", "src/x.rs"));
    assert!(!claims("src/", "src/x.rs#run"));

    for token in [
        "src/",
        "src/x.rs",
        "src/x.rs#run",
        "src/a/b.rs",
        "src/*",
        "src/**",
    ] {
        assert!(claims("src/**", token), "{token}");
    }
    assert!(!claims("src/**", "crates/x/src/lib.rs"));
    assert!(!claims("src/**", "src"));

    assert!(claims("src/*", "src/x.rs"));
    assert!(!claims("src/*", "src/a/b.rs"));

    assert!(claims("**/PLUGIN.md", "PLUGIN.md"));
    assert!(claims("**/PLUGIN.md", "docs/deep/PLUGIN.md"));
    assert!(claims("*.md", "a.md"));
    assert!(!claims("*.md", "docs/a.md"));
    assert!(claims("docs/[ab].md", "docs/a.md"));
    assert!(!claims("docs/[ab].md", "docs/c.md"));
    assert!(claims("{a,b}.md", "b.md"));
    assert!(claims("x?.ts", "x1.ts"));
    assert!(!claims("x?.ts", "x/.ts"));
}

#[test]
fn tests_claiming_marks_the_first_match_and_leaves_duplicates_unused() {
    let mut set = set(&["a.md", "src/**", "a.md"]);
    assert!(set.claim("a.md"));
    assert!(set.claim("src/x.rs"));
    assert!(!set.claim("b.md"));
    let unused: Vec<(usize, &str)> = set.unused().into_iter().map(|(i, e)| (i, e.as_str())).collect();
    assert_eq!(unused, vec![(2, "a.md")]);
}

#[test]
fn tests_an_empty_set_claims_nothing() {
    let mut set = NoRefSet::default();
    assert!(!set.claim("anything"));
    assert_eq!(set.unused().len(), 0);
}

#[test]
fn a_second_claim_of_the_same_token_keeps_the_first_entry() {
    let mut set = set(&["*.md", "a.md"]);
    assert!(set.claim("a.md"));
    assert!(set.claim("a.md"));
    let unused: Vec<usize> = set.unused().into_iter().map(|(i, _)| i).collect();
    assert_eq!(unused, vec![1]);
}

fn check_accepts_paths_symbols_directories_and_globs() {
    for raw in [
        "foo.ts",
        "src/file.ts#Name",
        "some/dir/",
        "PLUGIN.md",
        "anchr",
        "Ünïcode.md",
        "src/**",
        "*.md",
        "**/PLUGIN.md",
        "docs/[ab].md",
        "{a,b}.md",
        "x?.ts",
    ] {
        assert_eq!(NoRefEntry::parse(raw).unwrap().as_str(), raw);
    }
}

fn check_rejects_each_malformed_shape() {
    assert_eq!(NoRefEntry::parse(""), Err(NoRefEntryError::Empty));
    assert_eq!(NoRefEntry::parse("a b"), Err(NoRefEntryError::Whitespace));
    assert_eq!(NoRefEntry::parse("a\tb"), Err(NoRefEntryError::Whitespace));
    for (raw, ch) in [("a@b", '@'), ("`a`", '`')] {
        assert_eq!(
            NoRefEntry::parse(raw),
            Err(NoRefEntryError::InvalidChar { ch }),
            "{raw}"
        );
    }
    assert!(matches!(
        NoRefEntry::parse("docs/["),
        Err(NoRefEntryError::Glob { .. })
    ));
    let longest = "a".repeat(MAX_NOREF_ENTRY_BYTES);
    assert!(NoRefEntry::parse(&longest).is_ok());
    assert_eq!(
        NoRefEntry::parse(&format!("{longest}a")),
        Err(NoRefEntryError::TooLong {
            len: MAX_NOREF_ENTRY_BYTES + 1
        })
    );
}

fn check_entries_compare_by_their_text() {
    let a = NoRefEntry::parse("a.md").unwrap();
    assert_eq!(a, NoRefEntry::parse("a.md").unwrap());
    assert_ne!(a, NoRefEntry::parse("b.md").unwrap());
    assert!(a < NoRefEntry::parse("b.md").unwrap());
}

fn check_a_list_yields_entries_with_body_relative_spans() {
    let body = "a, b/,c.ts#Name,\td";
    let items = parse_noref_body(body).unwrap();
    let described: Vec<(&str, &str)> = items
        .iter()
        .map(|item| (item.entry.as_str(), &body[item.span.start..item.span.end]))
        .collect();
    assert_eq!(
        described,
        vec![
            ("a", "a"),
            ("b/", "b/"),
            ("c.ts#Name", "c.ts#Name"),
            ("d", "d")
        ]
    );
    assert_eq!(items[3].span, ByteSpan::new(17, 18));
}

fn check_a_single_entry_spans_the_whole_body() {
    let items = parse_noref_body("docs/x.md").unwrap();
    assert_eq!(items.len(), 1);
    assert_eq!(items[0].span, ByteSpan::new(0, 9));
}

fn check_rejects_each_malformed_list() {
    assert_eq!(parse_noref_body(" a"), Err(NoRefError::Padded));
    assert_eq!(parse_noref_body("a "), Err(NoRefError::Padded));
    assert_eq!(parse_noref_body("a,"), Err(NoRefError::EmptyEntry));
    assert_eq!(parse_noref_body(",a"), Err(NoRefError::EmptyEntry));
    assert_eq!(parse_noref_body("a,,b"), Err(NoRefError::EmptyEntry));
    assert_eq!(parse_noref_body("a, ,b"), Err(NoRefError::EmptyEntry));
    assert_eq!(
        parse_noref_body("a b"),
        Err(NoRefError::Entry {
            raw: "a b".to_owned(),
            reason: NoRefEntryError::Whitespace
        })
    );
    assert_eq!(
        parse_noref_body("a ,b"),
        Err(NoRefError::Entry {
            raw: "a ".to_owned(),
            reason: NoRefEntryError::Whitespace
        })
    );
    assert_eq!(
        parse_noref_body("a,`b`"),
        Err(NoRefError::Entry {
            raw: "`b`".to_owned(),
            reason: NoRefEntryError::InvalidChar { ch: '`' }
        })
    );
}

#[test]
fn noref_accepts_paths_symbols_directories_and_globs() {
    check_accepts_paths_symbols_directories_and_globs();
}

#[test]
fn noref_tests_accepts_paths_symbols_directories_and_globs() {
    check_accepts_paths_symbols_directories_and_globs();
}

#[test]
fn noref_rejects_each_malformed_shape() {
    check_rejects_each_malformed_shape();
}

#[test]
fn noref_tests_rejects_each_malformed_shape() {
    check_rejects_each_malformed_shape();
}

#[test]
fn noref_entries_compare_by_their_text() {
    check_entries_compare_by_their_text();
}

#[test]
fn noref_tests_entries_compare_by_their_text() {
    check_entries_compare_by_their_text();
}

#[test]
fn noref_a_list_yields_entries_with_body_relative_spans() {
    check_a_list_yields_entries_with_body_relative_spans();
}

#[test]
fn noref_tests_a_list_yields_entries_with_body_relative_spans() {
    check_a_list_yields_entries_with_body_relative_spans();
}

#[test]
fn noref_a_single_entry_spans_the_whole_body() {
    check_a_single_entry_spans_the_whole_body();
}

#[test]
fn noref_tests_a_single_entry_spans_the_whole_body() {
    check_a_single_entry_spans_the_whole_body();
}

#[test]
fn noref_rejects_each_malformed_list() {
    check_rejects_each_malformed_list();
}

#[test]
fn noref_tests_rejects_each_malformed_list() {
    check_rejects_each_malformed_list();
}

#[test]
fn a_shifted_item_keeps_its_entry() {
    let items = parse_noref_body("a.md").unwrap();
    let item = items[0].clone().shifted_by(5);
    assert_eq!(item.entry.as_str(), "a.md");
    assert_eq!(item.span, ByteSpan::new(5, 9));
}

#[test]
fn noref_globs_match_the_whole_token_or_the_path_of_a_symbol() {
    assert!(claims("a.md", "a.md"));
    assert!(claims("a.md", "a.md#Section"));
    assert!(!claims("a.md", "docs/a.md"));
    assert!(!claims("a.md", "a.md.bak"));
    assert!(!claims("A.md", "a.md"));

    assert!(claims("src/", "src/"));
    assert!(!claims("src/", "src/x.rs"));
    assert!(!claims("src/", "src/x.rs#run"));

    for token in ["src/", "src/x.rs", "src/x.rs#run", "src/a/b.rs", "src/*", "src/**"] {
        assert!(claims("src/**", token), "{token}");
    }
    assert!(!claims("src/**", "crates/x/src/lib.rs"));
    assert!(!claims("src/**", "src"));

    assert!(claims("src/*", "src/x.rs"));
    assert!(!claims("src/*", "src/a/b.rs"));

    assert!(claims("**/PLUGIN.md", "PLUGIN.md"));
    assert!(claims("**/PLUGIN.md", "docs/deep/PLUGIN.md"));
    assert!(claims("*.md", "a.md"));
    assert!(!claims("*.md", "docs/a.md"));
    assert!(claims("docs/[ab].md", "docs/a.md"));
    assert!(!claims("docs/[ab].md", "docs/c.md"));
    assert!(claims("{a,b}.md", "b.md"));
    assert!(claims("x?.ts", "x1.ts"));
    assert!(!claims("x?.ts", "x/.ts"));
}

#[test]
fn noref_claiming_marks_the_first_match_and_leaves_duplicates_unused() {
    let mut set = set(&["a.md", "src/**", "a.md"]);
    assert!(set.claim("a.md"));
    assert!(set.claim("src/x.rs"));
    assert!(!set.claim("b.md"));
    let unused: Vec<(usize, &str)> = set.unused().into_iter().map(|(i, e)| (i, e.as_str())).collect();
    assert_eq!(unused, vec![(2, "a.md")]);
}

#[test]
fn noref_an_empty_set_claims_nothing() {
    let mut set = NoRefSet::default();
    assert!(!set.claim("anything"));
    assert_eq!(set.unused().len(), 0);
}
