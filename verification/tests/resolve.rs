use anchr_core::check::Workspace;
use anchr_core::config::UnverifiedPolicy;
use anchr_core::index::Index;
use anchr_core::marker::{lex, parse_target, AnchorId, PathExpectation, RefTarget, RelPath, SymbolName};
use anchr_core::resolve::{
    beside, explain, relative_note, resolve, suggest_for, symbol_lookup, target_extension, Analysis, EntryKind, Located,
    Resolution, SymbolLookup, Unresolved, Unverified,
};
use anchr_core::root::{FilePath, RootName};
use anchr_core::span::{ByteSpan, LineIndex};
use anchr_core::text::{FileScan, RegionKind, TextRegion};

fn name(n: &str) -> RootName {
    RootName::parse(n).unwrap()
}

fn index_of(root: &str, files: &[(&str, &str)]) -> Index {
    let mut index = Index::new(name(root));
    for (path, source) in files {
        let path = FilePath::new(path).unwrap();
        let regions = vec![TextRegion { span: ByteSpan::new(0, source.len()), kind: RegionKind::Whole }];
        let lexed = lex(source, &regions, &path).unwrap();
        let scan = FileScan { markers: lexed.markers, malformed: lexed.malformed, line_index: LineIndex::new(source).unwrap() };
        index.update_file(path, scan);
    }
    index
}

fn workspace() -> Workspace {
    Workspace {
        index: index_of("repo", &[("docs/a.md", "@anchor[intro]")]),
        external: vec![
            (name("gone"), None, "/elsewhere/gone".to_owned()),
            (name("plugin"), Some(index_of("plugin", &[("SKILL.md", "@anchor[skill]")])), "/p".to_owned()),
        ],
        policy: UnverifiedPolicy::Report,
        findings: Vec::new(),
        files_scanned: 1,
        root_dirs: Vec::new(),
    }
}

fn anchor(root: Option<&str>, id: &str) -> RefTarget {
    RefTarget::Anchor { root: root.map(name), id: AnchorId::parse(id).unwrap() }
}

fn path_target(path: &str, expects: PathExpectation) -> RefTarget {
    RefTarget::Path { root: None, path: RelPath::parse(path).unwrap(), expects }
}

fn symbol_target(path: &str, symbol: &str) -> RefTarget {
    RefTarget::Symbol { root: None, path: RelPath::parse(path).unwrap(), name: SymbolName::parse(symbol).unwrap() }
}

fn no_table() -> SymbolLookup {
    SymbolLookup::Table { declares: false, has_parse_errors: false, language: String::new() }
}

const FILE: Located = Located::Found { kind: EntryKind::File };
const DIR: Located = Located::Found { kind: EntryKind::Directory };

fn missing() -> Located {
    Located::Missing { parent: "docs".to_owned(), name: "gide.md".to_owned() }
}

#[test]
fn anchors_resolve_in_the_root_they_name() {
    let ws = workspace();
    let repo = name("repo");
    assert_eq!(resolve(&ws, &repo, &anchor(None, "intro"), &FILE, true, &no_table()), Resolution::Resolved);
    assert_eq!(resolve(&ws, &repo, &anchor(Some("plugin"), "skill"), &FILE, true, &no_table()), Resolution::Resolved);
    assert!(matches!(
        resolve(&ws, &repo, &anchor(Some("plugin"), "intro"), &FILE, true, &no_table()),
        Resolution::Unresolved(Unresolved::AnchorMissing { root, .. }) if root.as_str() == "plugin"
    ));
}

#[test]
fn an_absent_root_is_unverified_and_an_undeclared_one_unresolved() {
    let ws = workspace();
    let repo = name("repo");
    match resolve(&ws, &repo, &anchor(Some("gone"), "x"), &FILE, true, &no_table()) {
        Resolution::Unverified(Unverified::RootAbsent { name, declared_dir }) => {
            assert_eq!(name.as_str(), "gone");
            assert_eq!(declared_dir, "/elsewhere/gone");
        }
        other => panic!("expected an absent root, got {other:?}"),
    }
    assert!(matches!(
        resolve(&ws, &repo, &anchor(Some("plugn"), "x"), &FILE, true, &no_table()),
        Resolution::Unresolved(Unresolved::RootUndeclared { .. })
    ));
}

#[test]
fn paths_are_judged_by_what_the_tree_holds() {
    let ws = workspace();
    let repo = name("repo");
    let any = path_target("docs/a.md", PathExpectation::Any);
    let dir = path_target("docs/a.md", PathExpectation::Directory);
    assert_eq!(resolve(&ws, &repo, &any, &FILE, true, &no_table()), Resolution::Resolved);
    assert!(matches!(
        resolve(&ws, &repo, &dir, &FILE, true, &no_table()),
        Resolution::Unresolved(Unresolved::PathNotDirectory { .. })
    ));
    assert_eq!(resolve(&ws, &repo, &dir, &DIR, true, &no_table()), Resolution::Resolved);
    assert!(matches!(
        resolve(&ws, &repo, &any, &missing(), true, &no_table()),
        Resolution::Unresolved(Unresolved::PathMissing { .. })
    ));
}

#[test]
fn symbols_are_judged_by_the_file_and_its_table() {
    let ws = workspace();
    let repo = name("repo");
    let target = symbol_target("src/lib.rs", "run");
    let declares = SymbolLookup::Table { declares: true, has_parse_errors: false, language: "rust".to_owned() };
    let broken = SymbolLookup::Table { declares: false, has_parse_errors: true, language: "rust".to_owned() };
    assert_eq!(resolve(&ws, &repo, &target, &FILE, true, &declares), Resolution::Resolved);
    assert!(matches!(
        resolve(&ws, &repo, &target, &DIR, true, &declares),
        Resolution::Unresolved(Unresolved::PathNotFile { .. })
    ));
    assert!(matches!(
        resolve(&ws, &repo, &target, &FILE, false, &declares),
        Resolution::Unresolved(Unresolved::PathEscapesRoot { .. })
    ));
    match resolve(&ws, &repo, &target, &FILE, true, &broken) {
        Resolution::Unverified(Unverified::ParseErrors { language, .. }) => assert_eq!(language, "rust"),
        other => panic!("expected parse errors, got {other:?}"),
    }
    assert!(matches!(
        resolve(&ws, &repo, &target, &FILE, true, &no_table()),
        Resolution::Unresolved(Unresolved::SymbolMissing { .. })
    ));
    let failed = SymbolLookup::Failed(Unverified::ParseTimeout { root: name("repo"), path: RelPath::parse("src/lib.rs").unwrap() });
    assert!(matches!(
        resolve(&ws, &repo, &target, &FILE, true, &failed),
        Resolution::Unverified(Unverified::ParseTimeout { .. })
    ));
}

#[test]
fn suggestions_come_from_the_nearest_names() {
    let ws = workspace();
    let path_missing = Unresolved::PathMissing { root: name("repo"), path: RelPath::parse("docs/gide.md").unwrap() };
    assert_eq!(
        suggest_for(&ws, &path_missing, &missing(), &vec!["a.md", "guide.md"], &Vec::new()).as_deref(),
        Some("docs/guide.md")
    );
    let undeclared = Unresolved::RootUndeclared { name: name("plugn") };
    assert_eq!(suggest_for(&ws, &undeclared, &FILE, &Vec::new(), &Vec::new()).as_deref(), Some("plugin"));
    let symbol = Unresolved::SymbolMissing {
        root: name("repo"),
        path: RelPath::parse("src/lib.rs").unwrap(),
        name: SymbolName::parse("valdate").unwrap(),
    };
    assert_eq!(suggest_for(&ws, &symbol, &FILE, &Vec::new(), &vec!["validate", "run"]).as_deref(), Some("validate"));
    let anchor_missing = Unresolved::AnchorMissing { root: name("repo"), id: AnchorId::parse("intr").unwrap() };
    assert_eq!(suggest_for(&ws, &anchor_missing, &FILE, &Vec::new(), &Vec::new()).as_deref(), Some("intro"));
    let in_absent = Unresolved::AnchorMissing { root: name("gone"), id: AnchorId::parse("intr").unwrap() };
    assert_eq!(suggest_for(&ws, &in_absent, &FILE, &Vec::new(), &Vec::new()), None);
}

#[test]
fn a_missing_path_found_on_disk_is_explained() {
    let ws = workspace();
    let missing_path = Unresolved::PathMissing { root: name("repo"), path: RelPath::parse("target/x.md").unwrap() };
    assert_eq!(
        explain(&ws, &missing_path, Some(false), &Some("target/**".to_owned())).as_deref(),
        Some("`target/x.md` exists on disk, but `[ignore] paths` pattern `target/**` keeps it out of the scan; ignored paths cannot be referenced")
    );
    assert_eq!(
        explain(&ws, &missing_path, Some(true), &None).as_deref(),
        Some("`target/x.md` exists on disk, but the scan found no files beneath it (empty, or everything in it is ignored); such directories cannot be referenced")
    );
    assert_eq!(
        explain(&ws, &missing_path, Some(false), &None).as_deref(),
        Some("`target/x.md` exists on disk, but is ignored by `.gitignore`, so the scan never sees it; ignored files cannot be referenced")
    );
    assert_eq!(explain(&ws, &missing_path, None, &None), None);
}

#[test]
fn a_bare_path_beside_its_file_is_noted_per_site() {
    let ws = workspace();
    let written_in = FilePath::new("docs/a.md").unwrap();
    let guide = RelPath::parse("guide.md").unwrap();
    assert_eq!(beside(&written_in, &guide).unwrap().as_str(), "docs/guide.md");
    assert!(beside(&FilePath::new("a.md").unwrap(), &guide).is_none());
    let missing_path = Unresolved::PathMissing { root: name("repo"), path: guide.clone() };
    assert_eq!(
        relative_note(&ws, &missing_path, &written_in, &FILE).as_deref(),
        Some("in `docs/a.md`, `./guide.md` would resolve to `docs/guide.md`")
    );
    assert_eq!(relative_note(&ws, &missing_path, &written_in, &missing()), None);
    let elsewhere = Unresolved::PathMissing { root: name("plugin"), path: guide };
    assert_eq!(relative_note(&ws, &elsewhere, &written_in, &FILE), None);
}

#[test]
fn a_symbol_file_is_read_step_by_step_and_the_first_failure_is_reported() {
    let root = name("repo");
    let path = RelPath::parse("src/Lib.RS").unwrap();
    assert_eq!(target_extension(&path).as_deref(), Some("rs"));
    let rust = Some("rust".to_owned());
    let table = Analysis::Table { declares: true, has_parse_errors: false };
    let read = |grammar: &Option<String>, size: Result<u64, String>, limit: u64, text: Result<bool, String>, analysis: &Analysis| {
        symbol_lookup(&root, &path, grammar, &size, limit, &text, analysis)
    };
    match read(&None, Ok(10), 100, Ok(true), &table) {
        SymbolLookup::Failed(Unverified::NoGrammar { extension, .. }) => assert_eq!(extension.as_deref(), Some("rs")),
        other => panic!("expected no grammar, got {other:?}"),
    }
    assert!(matches!(
        read(&rust, Err("denied".to_owned()), 100, Ok(true), &table),
        SymbolLookup::Failed(Unverified::TargetUnreadable { message, .. }) if message == "denied"
    ));
    assert!(matches!(
        read(&rust, Ok(101), 100, Ok(true), &table),
        SymbolLookup::Failed(Unverified::TargetTooLarge { bytes: 101, limit: 100, .. })
    ));
    assert!(matches!(
        read(&rust, Ok(10), 100, Err("gone".to_owned()), &table),
        SymbolLookup::Failed(Unverified::TargetUnreadable { message, .. }) if message == "gone"
    ));
    assert!(matches!(read(&rust, Ok(10), 100, Ok(false), &table), SymbolLookup::Failed(Unverified::TargetNotUtf8 { .. })));
    assert!(matches!(
        read(&rust, Ok(10), 100, Ok(true), &Analysis::TimedOut),
        SymbolLookup::Failed(Unverified::ParseTimeout { .. })
    ));
    assert!(matches!(
        read(&rust, Ok(10), 100, Ok(true), &Analysis::Truncated),
        SymbolLookup::Failed(Unverified::SymbolTableTruncated { .. })
    ));
    assert!(matches!(
        read(&rust, Ok(100), 100, Ok(true), &table),
        SymbolLookup::Table { declares: true, has_parse_errors: false, language } if language == "rust"
    ));
}

/// What reading the symbols of `path` in root `r` gives, for the grammar found, the file's size
/// under `limit`, whether its text is UTF-8, and the analysis.
fn lookup(path: &str, grammar: Option<&str>, size: Result<u64, String>, limit: u64, read: Result<bool, String>, analysis: Analysis) -> SymbolLookup {
    let grammar = grammar.map(|g| g.to_owned());
    symbol_lookup(&name("r"), &RelPath::parse(path).unwrap(), &grammar, &size, limit, &read, &analysis)
}

fn table() -> Analysis {
    Analysis::Table { declares: true, has_parse_errors: false }
}

#[test]
fn each_analysis_failure_maps_to_its_own_finding() {
    let timeout = lookup("a.rs", Some("rust"), Ok(10), 100, Ok(true), Analysis::TimedOut);
    assert!(matches!(timeout, SymbolLookup::Failed(Unverified::ParseTimeout { .. })), "{timeout:?}");
    let truncated = lookup("a.rs", Some("rust"), Ok(10), 100, Ok(true), Analysis::Truncated);
    assert!(matches!(truncated, SymbolLookup::Failed(Unverified::SymbolTableTruncated { .. })), "{truncated:?}");
    for expected in ["parse failed", "parser panicked"] {
        match lookup("a.rs", Some("rust"), Ok(10), 100, Ok(true), Analysis::Failed(expected.to_owned())) {
            SymbolLookup::Failed(Unverified::AnalyzeFailed { message, .. }) => assert_eq!(message, expected),
            found => panic!("expected AnalyzeFailed, got {found:?}"),
        }
    }
}

#[test]
fn a_file_with_no_grammar_reports_the_extension_it_could_not_handle() {
    match lookup("a.ex", None, Ok(18), 100, Ok(true), table()) {
        SymbolLookup::Failed(Unverified::NoGrammar { extension, .. }) => assert_eq!(extension, Some("ex".to_owned())),
        found => panic!("expected NoGrammar, got {found:?}"),
    }
}

#[test]
fn an_extension_is_matched_case_insensitively() {
    let path = RelPath::parse("A.RS").unwrap();
    assert_eq!(target_extension(&path), Some("rs".to_owned()));
    match lookup("A.RS", Some("rust"), Ok(17), 100, Ok(true), table()) {
        SymbolLookup::Table { language, declares, .. } => {
            assert_eq!(language, "rust");
            assert!(declares);
        }
        found => panic!("expected a table, got {found:?}"),
    }
}

#[test]
fn a_file_with_no_extension_reports_no_grammar_without_one() {
    match lookup("LICENSE", None, Ok(4), 100, Ok(true), table()) {
        SymbolLookup::Failed(Unverified::NoGrammar { extension, .. }) => assert_eq!(extension, None),
        found => panic!("expected NoGrammar, got {found:?}"),
    }
}

#[test]
fn a_target_that_is_not_there_is_unreadable_rather_than_missing() {
    match lookup("gone.rs", Some("rust"), Err("No such file or directory".to_owned()), 100, Ok(true), table()) {
        SymbolLookup::Failed(Unverified::TargetUnreadable { message, .. }) => assert!(!message.is_empty()),
        found => panic!("expected TargetUnreadable, got {found:?}"),
    }
}

#[test]
fn a_target_over_the_limit_reports_both_its_size_and_the_limit() {
    match lookup("a.rs", Some("rust"), Ok(17), 1, Ok(true), table()) {
        SymbolLookup::Failed(Unverified::TargetTooLarge { bytes, limit, .. }) => {
            assert_eq!(limit, 1);
            assert_eq!(bytes, 17);
        }
        found => panic!("expected TargetTooLarge, got {found:?}"),
    }
}

#[test]
fn a_target_that_is_not_utf8_is_reported_as_such() {
    let loaded = lookup("a.rs", Some("rust"), Ok(3), 100, Ok(false), table());
    assert!(matches!(loaded, SymbolLookup::Failed(Unverified::TargetNotUtf8 { .. })), "expected TargetNotUtf8");
}

/// Two roots and an absent one, as the resolver's tests lay them out: the library decides from
/// lookups in the fixture's file lists and a fixture reading of each file's declarations.
struct World {
    repo: Vec<(&'static str, &'static str)>,
    plugin: Vec<(&'static str, &'static str)>,
    ws: Workspace,
}

fn world() -> World {
    let repo = vec![
        ("docs/guide.md", "# Guide @anchor[guide] @anchor[auth/token-refresh]"),
        ("src/auth.rs", "pub fn validate_token() {}\npub struct Session;"),
        ("src/broken.rs", "fn intact() {}\nfn broken( {"),
        ("src/weird.ex", "defmodule X do end"),
        ("src/Mixed.ts", "export const mixedCase = 1;"),
    ];
    let plugin = vec![("SKILL.md", "@anchor[skill/entry] @anchor[skill/entry]")];
    let ws = Workspace {
        index: index_of("repo", &repo),
        external: vec![
            (name("absent"), None, "/base/not-created".to_owned()),
            (name("plugin"), Some(index_of("plugin", &plugin)), "/base/plugin".to_owned()),
        ],
        policy: UnverifiedPolicy::Report,
        findings: Vec::new(),
        files_scanned: repo.len(),
        root_dirs: Vec::new(),
    };
    World { repo, plugin, ws }
}

/// Looks `path` up among `files`: a file, a directory holding some, or the deepest existing
/// directory and the first name missing under it, with the names in that directory.
fn locate_in(files: &[(&str, &str)], path: &str) -> (Located, Vec<String>) {
    let is_dir = |dir: &str| dir.is_empty() || files.iter().any(|(p, _)| p.starts_with(&format!("{dir}/")));
    if files.iter().any(|(p, _)| *p == path) {
        return (Located::Found { kind: EntryKind::File }, Vec::new());
    }
    if is_dir(path) {
        return (Located::Found { kind: EntryKind::Directory }, Vec::new());
    }
    let mut parent = String::new();
    for part in path.split('/') {
        let next = if parent.is_empty() { part.to_owned() } else { format!("{parent}/{part}") };
        if !is_dir(&next) {
            let prefix = if parent.is_empty() { String::new() } else { format!("{parent}/") };
            let mut siblings: Vec<String> = files
                .iter()
                .filter_map(|(p, _)| p.strip_prefix(&prefix))
                .map(|rest| rest.split('/').next().unwrap().to_owned())
                .collect();
            siblings.sort();
            siblings.dedup();
            return (Located::Missing { parent, name: part.to_owned() }, siblings);
        }
        parent = next;
    }
    (Located::Missing { parent: String::new(), name: path.to_owned() }, Vec::new())
}

/// The names a fixture file declares after `fn`, `struct` or `const`.
fn declared(text: &str) -> Vec<String> {
    let mut names = Vec::new();
    for keyword in ["fn ", "struct ", "const "] {
        for rest in text.split(keyword).skip(1) {
            let name: String = rest.chars().take_while(|c| c.is_alphanumeric() || *c == '_').collect();
            if !name.is_empty() {
                names.push(name);
            }
        }
    }
    names
}

impl World {
    fn files_of(&self, root: &str) -> &[(&'static str, &'static str)] {
        match root {
            "repo" => &self.repo,
            "plugin" => &self.plugin,
            _ => &[],
        }
    }

    /// The target parsed, with the lookups the resolver decides from.
    fn lookups(&self, target: &str) -> (RefTarget, Located, Vec<String>, SymbolLookup, Vec<String>) {
        let target = parse_target(target, None).unwrap().target;
        let root = target.root().map(|n| n.as_str().to_owned()).unwrap_or_else(|| "repo".to_owned());
        let files = self.files_of(&root);
        let (located, siblings) = match target.path() {
            Some(path) => locate_in(files, path.as_str()),
            None => (Located::Found { kind: EntryKind::File }, Vec::new()),
        };
        let (table, symbols) = match &target {
            RefTarget::Symbol { path, name, .. } => {
                let text = files.iter().find(|(p, _)| *p == path.as_str()).map(|(_, t)| *t).unwrap_or("");
                let grammar = match target_extension(path).as_deref() {
                    Some("rs") => Some("rust"),
                    Some("ts") => Some("typescript"),
                    _ => None,
                };
                let names = declared(text);
                let analysis = Analysis::Table {
                    declares: names.iter().any(|n| n == name.as_str()),
                    has_parse_errors: text.contains("( {"),
                };
                (lookup(path.as_str(), grammar, Ok(text.len() as u64), 1 << 20, Ok(true), analysis), names)
            }
            _ => (no_table(), Vec::new()),
        };
        (target, located, siblings, table, symbols)
    }

    fn resolve(&self, target: &str) -> Resolution {
        let (target, located, _, table, _) = self.lookups(target);
        resolve(&self.ws, &name("repo"), &target, &located, true, &table)
    }

    fn unresolved(&self, target: &str) -> Unresolved {
        match self.resolve(target) {
            Resolution::Unresolved(unresolved) => unresolved,
            other => panic!("expected unresolved, got {other:?}"),
        }
    }

    fn suggestion(&self, target: &str) -> Option<String> {
        let (target, located, siblings, table, symbols) = self.lookups(target);
        match resolve(&self.ws, &name("repo"), &target, &located, true, &table) {
            Resolution::Unresolved(unresolved) => {
                let siblings: Vec<&str> = siblings.iter().map(|s| s.as_str()).collect();
                let symbols: Vec<&str> = symbols.iter().map(|s| s.as_str()).collect();
                suggest_for(&self.ws, &unresolved, &located, &siblings, &symbols)
            }
            other => panic!("expected unresolved, got {other:?}"),
        }
    }
}

#[test]
fn paths_resolve_exactly_and_directories_are_distinguished() {
    let w = world();
    assert_eq!(w.resolve("docs/guide.md"), Resolution::Resolved);
    assert_eq!(w.resolve("docs"), Resolution::Resolved);
    assert_eq!(w.resolve("docs/"), Resolution::Resolved);
    assert!(matches!(w.resolve("docs/guide.md/"), Resolution::Unresolved(Unresolved::PathNotDirectory { .. })));
    assert!(matches!(w.resolve("docs/missing.md"), Resolution::Unresolved(Unresolved::PathMissing { .. })));
    // Exact-name lookup: a case mismatch is missing on every platform.
    assert!(matches!(w.resolve("src/mixed.ts"), Resolution::Unresolved(Unresolved::PathMissing { .. })));
    assert!(matches!(w.resolve("Docs/guide.md"), Resolution::Unresolved(Unresolved::PathMissing { .. })));
}

#[test]
fn symbols_resolve_against_declarations() {
    let w = world();
    assert_eq!(w.resolve("src/auth.rs#validate_token"), Resolution::Resolved);
    assert_eq!(w.resolve("src/auth.rs#Session"), Resolution::Resolved);
    assert_eq!(w.resolve("src/Mixed.ts#mixedCase"), Resolution::Resolved);
    assert!(matches!(w.resolve("src/auth.rs#refresh_token"), Resolution::Unresolved(Unresolved::SymbolMissing { .. })));
    assert!(matches!(w.resolve("src/missing.rs#f"), Resolution::Unresolved(Unresolved::PathMissing { .. })));
    assert!(matches!(w.resolve("src#f"), Resolution::Unresolved(Unresolved::PathNotFile { .. })));
}

#[test]
fn unverifiable_symbols_are_never_errors() {
    let w = world();
    assert!(matches!(
        w.resolve("src/weird.ex#anything"),
        Resolution::Unverified(Unverified::NoGrammar { extension: Some(ext), .. }) if ext == "ex"
    ));
    assert_eq!(w.resolve("src/broken.rs#intact"), Resolution::Resolved);
    assert!(matches!(
        w.resolve("src/broken.rs#hidden"),
        Resolution::Unverified(Unverified::ParseErrors { language, .. }) if language == "rust"
    ));
}

#[test]
fn anchors_resolve_locally_and_across_roots() {
    let w = world();
    assert_eq!(w.resolve("#guide"), Resolution::Resolved);
    assert_eq!(w.resolve("#auth/token-refresh"), Resolution::Resolved);
    assert_eq!(w.resolve("plugin:#skill/entry"), Resolution::Resolved);
    assert!(matches!(w.resolve("#skill/entry"), Resolution::Unresolved(Unresolved::AnchorMissing { .. })));
    assert!(matches!(w.resolve("plugin:#guide"), Resolution::Unresolved(Unresolved::AnchorMissing { .. })));
}

#[test]
fn root_selection_separates_typos_from_absence_for_every_kind() {
    let w = world();
    for target in ["absent:#x", "absent:docs/guide.md", "absent:a.rs#f"] {
        assert!(matches!(w.resolve(target), Resolution::Unverified(Unverified::RootAbsent { .. })));
    }
    for target in ["nope:#x", "nope:docs/guide.md", "nope:a.rs#f"] {
        assert!(matches!(w.resolve(target), Resolution::Unresolved(Unresolved::RootUndeclared { .. })));
    }
}

#[test]
fn suggestions_come_from_the_right_candidate_set() {
    let w = world();
    assert_eq!(w.suggestion("#guid").as_deref(), Some("guide"));
    assert_eq!(w.suggestion("#token-refresh").as_deref(), Some("auth/token-refresh"));
    assert_eq!(w.suggestion("src/auth.rs#validateToken").as_deref(), Some("validate_token"));
    assert_eq!(w.suggestion("docs/guid.md").as_deref(), Some("docs/guide.md"));
    assert_eq!(w.suggestion("src/mixed.ts").as_deref(), Some("src/Mixed.ts"));
    assert_eq!(w.suggestion("plugn:#x").as_deref(), Some("plugin"));
    assert_eq!(w.suggestion("#completely-different"), None);
}

#[test]
fn a_missing_bare_path_beside_its_file_gets_a_relative_note() {
    let w = world();
    let missing = w.unresolved("guide.md");
    let note = |written_in: &str| {
        let written_in = FilePath::new(written_in).unwrap();
        let found = match &missing {
            Unresolved::PathMissing { path, .. } => match beside(&written_in, path) {
                Some(anchored) => locate_in(&w.repo, anchored.as_str()).0,
                None => Located::Missing { parent: String::new(), name: String::new() },
            },
            _ => Located::Missing { parent: String::new(), name: String::new() },
        };
        relative_note(&w.ws, &missing, &written_in, &found)
    };
    assert_eq!(note("docs/a.md").as_deref(), Some("in `docs/a.md`, `./guide.md` would resolve to `docs/guide.md`"));
    assert_eq!(note("src/a.md"), None);
    assert_eq!(note("a.md"), None);
    let in_docs = FilePath::new("docs/a.md").unwrap();
    let nope = w.unresolved("#nope");
    assert_eq!(relative_note(&w.ws, &nope, &in_docs, &Located::Found { kind: EntryKind::File }), None);
}

/// The suggestion for a missing path of a root holding `files`.
fn path_suggestion(files: &[(&'static str, &'static str)], path: &str) -> Option<String> {
    let ws = Workspace {
        index: index_of("r", files),
        external: Vec::new(),
        policy: UnverifiedPolicy::Report,
        findings: Vec::new(),
        files_scanned: files.len(),
        root_dirs: Vec::new(),
    };
    let target = path_target(path, PathExpectation::Any);
    let (located, siblings) = locate_in(files, path);
    match resolve(&ws, &name("r"), &target, &located, true, &no_table()) {
        Resolution::Unresolved(unresolved) => {
            let siblings: Vec<&str> = siblings.iter().map(|s| s.as_str()).collect();
            suggest_for(&ws, &unresolved, &located, &siblings, &Vec::new())
        }
        _ => None,
    }
}

#[test]
fn a_near_miss_sibling_is_suggested_with_its_parent_spliced_back_in() {
    assert_eq!(path_suggestion(&[("README.md", "")], "REAMDE.md"), Some("README.md".to_owned()));
    assert_eq!(path_suggestion(&[("docs/guide.md", "")], "docs/guied.md"), Some("docs/guide.md".to_owned()));
}

#[test]
fn nothing_is_suggested_for_a_path_that_resolves_or_has_no_close_sibling() {
    assert_eq!(path_suggestion(&[("README.md", "")], "README.md"), None);
    assert_eq!(path_suggestion(&[("README.md", "")], "completely-different.md"), None);
}
