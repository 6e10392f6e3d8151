use anchr_core::config::{
    expand_home, home_relative, sizes_within_limits, Config, ConfigError, ContainerExtensions, Located, LocatedNumber, PathMatch, RawConfig, UnverifiedPolicy,
    Validator, DEFAULT_MAX_FILE_BYTES, DEFAULT_PARSE_BUDGET_MS,
};
use anchr_core::span::ByteSpan;
use camino::{Utf8Path, Utf8PathBuf};

const HOME: &str = "/home/someone";

fn validator() -> Validator {
    Validator { path: "/repo/anchr.toml".to_owned(), base_dir: "/repo".to_owned(), home: Some(HOME.to_owned()) }
}

/// A setting written at bytes `at..at + text.len()`.
fn loc(text: &str, at: usize) -> Located {
    Located { text: text.to_owned(), span: ByteSpan::new(at, at + text.len()) }
}

fn number(value: u64, at: usize) -> LocatedNumber {
    LocatedNumber { value, span: ByteSpan::new(at, at + 1) }
}

fn list(items: &[&str]) -> Vec<Located> {
    items.iter().enumerate().map(|(i, text)| loc(text, 10 * i)).collect()
}

fn parse(raw: RawConfig) -> Result<Config, ConfigError> {
    validator().validate(raw)
}

fn dir_of<'a>(config: &'a Config, name: &str) -> &'a str {
    config.external_roots.iter().find(|(n, _)| n.as_str() == name).unwrap().1.as_str()
}

#[test]
fn tests_an_empty_file_is_the_defaults() {
    let config = parse(RawConfig::default()).unwrap();
    assert!(config.root_name.is_none());
    assert!(config.external_roots.is_empty());
    assert!(config.scan.includes.is_none());
    assert_eq!(config.scan.max_file_bytes, DEFAULT_MAX_FILE_BYTES);
    assert_eq!(config.scan.parse_budget_ms, DEFAULT_PARSE_BUDGET_MS);
    assert_eq!(config.containers, ContainerExtensions::default());
    assert_eq!(config.check.unverified, UnverifiedPolicy::Report);
    assert!(config.ignore.paths.is_empty());
    assert!(config.ignore.tokens.is_empty());
}

#[test]
fn tests_every_section_parses_with_kebab_case_keys() {
    let raw = RawConfig {
        root_name: Some(loc("my-root", 0)),
        roots: vec![
            ("abs".to_owned(), loc("/opt/shared", 30)),
            ("agent".to_owned(), loc("~/.agent", 10)),
            ("sibling".to_owned(), loc("../plugin", 20)),
        ],
        scan_include: Some(list(&["docs/**/*.md"])),
        max_file_bytes: Some(number(4096, 40)),
        parse_budget_ms: Some(number(250, 50)),
        markdown: Some(list(&["MD", "mdx"])),
        plaintext: Some(list(&["txt", "text"])),
        unverified: UnverifiedPolicy::Error,
        ignore_paths: list(&["vendor/**", "/build/", "!vendor/keep.md"]),
        ignore_tokens: list(&["PLUGIN.md", "src/legacy/**"]),
    };
    let config = parse(raw).unwrap();

    assert_eq!(config.root_name.as_ref().unwrap().as_str(), "my-root");
    assert!(Utf8Path::new(dir_of(&config, "agent")).is_absolute());
    assert!(Utf8Path::new(dir_of(&config, "agent")).ends_with(".agent"));
    assert_eq!(Utf8PathBuf::from(dir_of(&config, "sibling")), Utf8PathBuf::from("/repo/../plugin"));
    assert_eq!(Utf8PathBuf::from(dir_of(&config, "abs")), Utf8PathBuf::from("/opt/shared"));
    assert!(config.scan.includes.as_ref().unwrap().is_match("docs/a/b.md"));
    assert_eq!(config.scan.max_file_bytes, 4096);
    assert_eq!(config.scan.parse_budget_ms, 250);
    assert_eq!(config.containers.markdown, Some(vec!["md".to_owned(), "mdx".to_owned()]));
    assert_eq!(config.containers.plaintext, Some(vec!["txt".to_owned(), "text".to_owned()]));
    assert_eq!(config.check.unverified, UnverifiedPolicy::Error);
    let paths = &config.ignore.paths;
    assert!(matches!(paths.matched("vendor/lib.md", false), PathMatch::Ignored(_)));
    assert_eq!(paths.matched("vendor/keep.md", false), PathMatch::Kept);
    assert!(matches!(paths.matched("build", true), PathMatch::Ignored(_)));
    assert_eq!(paths.matched("docs/build", true), PathMatch::Unmatched);
    assert_eq!(
        config.ignore.tokens.iter().map(|e| e.as_str()).collect::<Vec<_>>(),
        vec!["PLUGIN.md", "src/legacy/**"]
    );
}

#[test]
fn tests_semantic_errors_name_the_field_and_carry_a_span() {
    let with = |change: fn(&mut RawConfig)| {
        let mut raw = RawConfig::default();
        change(&mut raw);
        raw
    };
    let cases: Vec<(RawConfig, &str)> = vec![
        (with(|r| r.root_name = Some(loc("has space", 7))), "root.name"),
        (with(|r| r.roots = vec![("bad.name".to_owned(), loc("x", 19))]), "roots.bad.name"),
        (with(|r| r.roots = vec![("ok".to_owned(), loc("", 13))]), "roots.ok"),
        (with(|r| r.max_file_bytes = Some(number(0, 24))), "scan.max-file-bytes"),
        (with(|r| r.max_file_bytes = Some(number(4294967296, 24))), "scan.max-file-bytes"),
        (with(|r| r.parse_budget_ms = Some(number(0, 25))), "scan.parse-budget-ms"),
        (with(|r| r.markdown = Some(list(&[".md"]))), "containers.markdown"),
        (with(|r| r.ignore_paths = list(&[""])), "ignore.paths"),
        (with(|r| r.ignore_paths = list(&["# comment"])), "ignore.paths"),
        (with(|r| r.ignore_tokens = list(&[""])), "ignore.tokens"),
        (with(|r| r.ignore_tokens = list(&["a b"])), "ignore.tokens"),
        (with(|r| r.ignore_tokens = list(&["docs/["])), "ignore.tokens"),
        (with(|r| r.ignore_tokens = list(&["x", "x"])), "ignore.tokens"),
    ];
    for (raw, expected_field) in cases {
        match parse(raw) {
            Err(ConfigError::Invalid { field, span, .. }) => {
                assert_eq!(field, expected_field);
                assert!(span.is_some(), "no span for {expected_field}");
            }
            other => panic!("expected Invalid for {expected_field}, got {other:?}"),
        }
    }
}

#[test]
fn tests_an_invalid_glob_is_rejected() {
    let raw = RawConfig { scan_include: Some(list(&["docs/["])), ..RawConfig::default() };
    let error = parse(raw).unwrap_err();
    assert!(matches!(error, ConfigError::Invalid { field, .. } if field == "scan.include"));
}

#[test]
fn tests_globs_do_not_let_star_cross_directories() {
    let raw = RawConfig { scan_include: Some(list(&["docs/*.md"])), ..RawConfig::default() };
    let config = parse(raw).unwrap();
    let includes = config.scan.includes.unwrap();
    assert!(includes.is_match("docs/a.md"));
    assert!(!includes.is_match("docs/sub/a.md"));
}

#[test]
fn tests_home_expansion_only_applies_to_a_leading_tilde_segment() {
    assert_eq!(expand_home("~x/y", Some(HOME)).unwrap(), "~x/y");
    assert_eq!(expand_home("a/~/b", Some(HOME)).unwrap(), "a/~/b");
    assert_eq!(Utf8PathBuf::from(expand_home("~", Some(HOME)).unwrap()), Utf8PathBuf::from(HOME));
    assert_eq!(
        Utf8PathBuf::from(expand_home("~/.agent", Some(HOME)).unwrap()),
        Utf8Path::new(HOME).join(".agent")
    );
}

#[test]
fn path_pattern_names_the_gitignore_line_that_removed_a_path() {
    let raw = RawConfig {
        ignore_paths: list(&["target/**", "**/snapshots/**", "!target/keep.md", "drafts/"]),
        ..RawConfig::default()
    };
    let config = parse(raw).unwrap();
    let ignore = &config.ignore;
    let pattern = |path: &str, is_dir: bool| ignore.path_pattern(path, is_dir);
    assert_eq!(pattern("target/debug/x.md", false).as_deref(), Some("target/**"));
    assert_eq!(pattern("target", true).as_deref(), Some("target/**"));
    assert_eq!(pattern("target", false), None);
    assert_eq!(pattern("target/keep.md", false), None);
    assert_eq!(pattern("a/snapshots/b.snap", false).as_deref(), Some("**/snapshots/**"));
    assert_eq!(pattern("drafts", true).as_deref(), Some("drafts/"));
    assert_eq!(pattern("docs/drafts", true).as_deref(), Some("drafts/"));
    assert_eq!(pattern("drafts", false), None);
    assert_eq!(pattern("src/a.md", false), None);
    assert_eq!(Config::default().ignore.path_pattern("target/x", false), None);
}

#[test]
fn refused_settings_carry_the_exact_reason() {
    let reason = |raw: RawConfig| match parse(raw) {
        Err(ConfigError::Invalid { reason, .. }) => reason,
        other => panic!("expected Invalid, got {other:?}"),
    };
    assert_eq!(
        reason(RawConfig { max_file_bytes: Some(number(0, 0)), ..RawConfig::default() }),
        "must be between 1 and 4294967295"
    );
    assert_eq!(
        reason(RawConfig { parse_budget_ms: Some(number(0, 0)), ..RawConfig::default() }),
        "must be at least 1"
    );
    assert_eq!(
        reason(RawConfig { markdown: Some(list(&["md", ".txt"])), ..RawConfig::default() }),
        "`.txt` is not an extension; write it without the dot, e.g. `md`"
    );
    assert_eq!(
        reason(RawConfig { ignore_tokens: list(&["x", "y", "x"]), ..RawConfig::default() }),
        "duplicate entry `x`"
    );
    assert_eq!(
        reason(RawConfig { roots: vec![("ok".to_owned(), loc("", 3))], ..RawConfig::default() }),
        "directory is empty"
    );
    assert_eq!(
        reason(RawConfig { ignore_paths: list(&["  "]), ..RawConfig::default() }),
        "empty pattern"
    );
    let error = parse(RawConfig { scan_include: Some(list(&["ok/*", ""])), ..RawConfig::default() }).unwrap_err();
    assert_eq!(error.message(), "/repo/anchr.toml: `scan.include`: empty pattern");
}

#[test]
fn the_first_refused_setting_is_the_one_reported() {
    let raw = RawConfig {
        root_name: Some(loc("fine", 0)),
        max_file_bytes: Some(number(0, 5)),
        parse_budget_ms: Some(number(0, 9)),
        ..RawConfig::default()
    };
    match parse(raw) {
        Err(ConfigError::Invalid { field, span, .. }) => {
            assert_eq!(field, "scan.max-file-bytes");
            assert_eq!(span, Some(ByteSpan::new(5, 6)));
        }
        other => panic!("expected Invalid, got {other:?}"),
    }
}

#[test]
fn a_tilde_needs_a_home_only_when_it_names_one() {
    let without_home = Validator { home: None, ..validator() };
    let raw = RawConfig { roots: vec![("h".to_owned(), loc("~/x", 4))], ..RawConfig::default() };
    match without_home.validate(raw) {
        Err(ConfigError::Invalid { field, reason, .. }) => {
            assert_eq!(field, "roots.h");
            assert_eq!(reason, "`~` cannot be expanded: no home directory is set");
        }
        other => panic!("expected Invalid, got {other:?}"),
    }
    let raw = RawConfig { roots: vec![("h".to_owned(), loc("~x", 4))], ..RawConfig::default() };
    let config = without_home.validate(raw).unwrap();
    assert_eq!(Utf8PathBuf::from(dir_of(&config, "h")), Utf8PathBuf::from("/repo/~x"));
    assert_eq!(expand_home("~/x", None), None);
}

#[test]
fn an_include_list_keeps_its_patterns_and_matches_any() {
    let raw = RawConfig { scan_include: Some(list(&["docs/*.md", "src/**"])), ..RawConfig::default() };
    let config = parse(raw).unwrap();
    let includes = config.scan.includes.unwrap();
    assert_eq!(includes.patterns(), &vec!["docs/*.md".to_owned(), "src/**".to_owned()]);
    let copy = includes.clone();
    assert!(copy.is_match("src/a/b.rs"));
    assert!(copy.is_match("docs/a.md"));
    assert!(!copy.is_match("README.md"));
}

#[test]
fn config_an_empty_file_is_the_defaults() {
    let config = parse(RawConfig::default()).unwrap();
    assert!(config.root_name.is_none());
    assert!(config.external_roots.is_empty());
    assert!(config.scan.includes.is_none());
    assert_eq!(config.scan.max_file_bytes, DEFAULT_MAX_FILE_BYTES);
    assert_eq!(config.scan.parse_budget_ms, DEFAULT_PARSE_BUDGET_MS);
    assert_eq!(config.containers, ContainerExtensions::default());
    assert_eq!(config.check.unverified, UnverifiedPolicy::Report);
    assert!(config.ignore.paths.is_empty());
    assert!(config.ignore.tokens.is_empty());
}

#[test]
fn config_every_section_parses_with_kebab_case_keys() {
    let raw = RawConfig {
        root_name: Some(loc("my-root", 0)),
        roots: vec![
            ("abs".to_owned(), loc("/opt/shared", 30)),
            ("agent".to_owned(), loc("~/.agent", 10)),
            ("sibling".to_owned(), loc("../plugin", 20)),
        ],
        scan_include: Some(list(&["docs/**/*.md"])),
        max_file_bytes: Some(number(4096, 40)),
        parse_budget_ms: Some(number(250, 50)),
        markdown: Some(list(&["MD", "mdx"])),
        plaintext: Some(list(&["txt", "text"])),
        unverified: UnverifiedPolicy::Error,
        ignore_paths: list(&["vendor/**", "/build/", "!vendor/keep.md"]),
        ignore_tokens: list(&["PLUGIN.md", "src/legacy/**"]),
    };
    let config = parse(raw).unwrap();

    assert_eq!(config.root_name.as_ref().unwrap().as_str(), "my-root");
    assert!(Utf8Path::new(dir_of(&config, "agent")).is_absolute());
    assert!(Utf8Path::new(dir_of(&config, "agent")).ends_with(".agent"));
    assert_eq!(Utf8PathBuf::from(dir_of(&config, "sibling")), Utf8PathBuf::from("/repo/../plugin"));
    assert_eq!(Utf8PathBuf::from(dir_of(&config, "abs")), Utf8PathBuf::from("/opt/shared"));
    assert!(config.scan.includes.as_ref().unwrap().is_match("docs/a/b.md"));
    assert_eq!(config.scan.max_file_bytes, 4096);
    assert_eq!(config.scan.parse_budget_ms, 250);
    assert_eq!(config.containers.markdown, Some(vec!["md".to_owned(), "mdx".to_owned()]));
    assert_eq!(config.containers.plaintext, Some(vec!["txt".to_owned(), "text".to_owned()]));
    assert_eq!(config.check.unverified, UnverifiedPolicy::Error);
    let paths = &config.ignore.paths;
    assert!(matches!(paths.matched("vendor/lib.md", false), PathMatch::Ignored(_)));
    assert_eq!(paths.matched("vendor/keep.md", false), PathMatch::Kept);
    assert!(matches!(paths.matched("build", true), PathMatch::Ignored(_)));
    assert_eq!(paths.matched("docs/build", true), PathMatch::Unmatched);
    assert_eq!(
        config.ignore.tokens.iter().map(|e| e.as_str()).collect::<Vec<_>>(),
        vec!["PLUGIN.md", "src/legacy/**"]
    );
}

#[test]
fn config_semantic_errors_name_the_field_and_carry_a_span() {
    let with = |change: fn(&mut RawConfig)| {
        let mut raw = RawConfig::default();
        change(&mut raw);
        raw
    };
    let cases: Vec<(RawConfig, &str)> = vec![
        (with(|r| r.root_name = Some(loc("has space", 7))), "root.name"),
        (with(|r| r.roots = vec![("bad.name".to_owned(), loc("x", 19))]), "roots.bad.name"),
        (with(|r| r.roots = vec![("ok".to_owned(), loc("", 13))]), "roots.ok"),
        (with(|r| r.max_file_bytes = Some(number(0, 24))), "scan.max-file-bytes"),
        (with(|r| r.max_file_bytes = Some(number(4294967296, 24))), "scan.max-file-bytes"),
        (with(|r| r.parse_budget_ms = Some(number(0, 25))), "scan.parse-budget-ms"),
        (with(|r| r.markdown = Some(list(&[".md"]))), "containers.markdown"),
        (with(|r| r.ignore_paths = list(&[""])), "ignore.paths"),
        (with(|r| r.ignore_paths = list(&["# comment"])), "ignore.paths"),
        (with(|r| r.ignore_tokens = list(&[""])), "ignore.tokens"),
        (with(|r| r.ignore_tokens = list(&["a b"])), "ignore.tokens"),
        (with(|r| r.ignore_tokens = list(&["docs/["])), "ignore.tokens"),
        (with(|r| r.ignore_tokens = list(&["x", "x"])), "ignore.tokens"),
    ];
    for (raw, expected_field) in cases {
        match parse(raw) {
            Err(ConfigError::Invalid { field, span, .. }) => {
                assert_eq!(field, expected_field);
                assert!(span.is_some(), "no span for {expected_field}");
            }
            other => panic!("expected Invalid for {expected_field}, got {other:?}"),
        }
    }
}

#[test]
fn config_an_invalid_glob_is_rejected() {
    let raw = RawConfig { scan_include: Some(list(&["docs/["])), ..RawConfig::default() };
    let error = parse(raw).unwrap_err();
    assert!(matches!(error, ConfigError::Invalid { field, .. } if field == "scan.include"));
}

#[test]
fn config_globs_do_not_let_star_cross_directories() {
    let raw = RawConfig { scan_include: Some(list(&["docs/*.md"])), ..RawConfig::default() };
    let config = parse(raw).unwrap();
    let includes = config.scan.includes.unwrap();
    assert!(includes.is_match("docs/a.md"));
    assert!(!includes.is_match("docs/sub/a.md"));
}

#[test]
fn config_home_expansion_only_applies_to_a_leading_tilde_segment() {
    assert_eq!(expand_home("~x/y", Some(HOME)).unwrap(), "~x/y");
    assert_eq!(expand_home("a/~/b", Some(HOME)).unwrap(), "a/~/b");
    assert_eq!(Utf8PathBuf::from(expand_home("~", Some(HOME)).unwrap()), Utf8PathBuf::from(HOME));
    assert_eq!(
        Utf8PathBuf::from(expand_home("~/.agent", Some(HOME)).unwrap()),
        Utf8Path::new(HOME).join(".agent")
    );
}

#[test]
fn a_tilde_is_followed_by_the_text_after_its_slashes() {
    assert_eq!(home_relative("~"), "");
    assert_eq!(home_relative("~/x/y"), "x/y");
    assert_eq!(home_relative("~//.agent"), ".agent");
}

#[test]
fn ordinary_globs_are_within_the_limits() {
    let mut raw = RawConfig::default();
    assert!(sizes_within_limits(&raw));
    raw.ignore_paths = list(&["a/", "b/"]);
    assert!(sizes_within_limits(&raw));
}
