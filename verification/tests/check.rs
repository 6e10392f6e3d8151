use anchr_core::check::{check, CheckOptions, ScanFindings, Verdict, Workspace};
use anchr_core::config::UnverifiedPolicy;
use anchr_core::diagnostic::{Diagnostic, DiagnosticKind, Locations, Report, Severity};
use anchr_core::index::Index;
use anchr_core::marker::{lex, RefTarget};
use anchr_core::resolve::{resolve, suggest_for, EntryKind, Located, Resolution, SymbolLookup, Unresolved, Unverified};
use anchr_core::root::{FilePath, RootName};
use anchr_core::scan::{SkipReason, SkippedFile};
use anchr_core::span::{ByteSpan, LineIndex};
use anchr_core::text::{FileScan, RegionKind, TextRegion};

fn file(path: &str) -> FilePath {
    FilePath::new(path).unwrap()
}

fn scan(path: &str, source: &str) -> FileScan {
    let regions = vec![TextRegion { span: ByteSpan::new(0, source.len()), kind: RegionKind::Whole }];
    let lexed = lex(source, &regions, &file(path)).unwrap();
    FileScan { markers: lexed.markers, malformed: lexed.malformed, line_index: LineIndex::new(source).unwrap() }
}

fn index_of(root: &str, files: &[(&str, &str)]) -> Index {
    let mut index = Index::new(RootName::parse(root).unwrap());
    for (path, source) in files {
        index.update_file(file(path), scan(path, source));
    }
    index
}

/// A root as the tests lay it out: its files, and an optional declared root that is absent.
struct Repo {
    files: Vec<(&'static str, &'static str)>,
    absent: Option<&'static str>,
    external: Vec<(&'static str, Vec<(&'static str, &'static str)>)>,
    skipped: Vec<SkippedFile>,
}

impl Repo {
    fn new(files: &[(&'static str, &'static str)]) -> Self {
        Repo { files: files.to_vec(), absent: None, external: Vec::new(), skipped: Vec::new() }
    }

    fn workspace(&self) -> Workspace {
        let mut external: Vec<(RootName, Option<Index>, String)> = Vec::new();
        for (name, files) in &self.external {
            external.push((RootName::parse(name).unwrap(), Some(index_of(name, files)), format!("/{name}")));
        }
        if let Some(name) = self.absent {
            external.push((RootName::parse(name).unwrap(), None, "/not-there".to_owned()));
        }
        external.sort_by(|a, b| a.0.as_str().cmp(b.0.as_str()));
        Workspace {
            index: index_of("repo", &self.files),
            external,
            policy: UnverifiedPolicy::Report,
            findings: vec![(
                RootName::parse("repo").unwrap(),
                ScanFindings { skipped: self.skipped.clone(), problems: Vec::new(), extensions: Vec::new() },
            )],
            files_scanned: self.files.len(),
            root_dirs: vec![(RootName::parse("repo").unwrap(), "/repo".to_owned())],
        }
    }

    /// The files of the root named `name`, as the fixture lays them out.
    fn files_of(&self, name: &str) -> Vec<(&'static str, &'static str)> {
        if name == "repo" {
            return self.files.clone();
        }
        self.external.iter().find(|(n, _)| *n == name).map(|(_, files)| files.clone()).unwrap_or_default()
    }

    /// What the resolver answers for every reference of the current root, in order: the
    /// library's decisions, over lookups in the fixture's file lists.
    fn verdicts(&self, ws: &Workspace) -> Vec<Verdict> {
        let repo = RootName::parse("repo").unwrap();
        ws.index
            .refs()
            .iter()
            .map(|r| {
                let root_name = r.target.root().map(|n| n.as_str()).unwrap_or("repo");
                let files = self.files_of(root_name);
                let (located, siblings) = match r.target.path() {
                    Some(path) => locate(&files, path.as_str()),
                    None => (Located::Found { kind: EntryKind::File }, Vec::new()),
                };
                let (table, symbols) = match r.target {
                    RefTarget::Symbol { path, name, .. } => symbol_table(&files, path.as_str(), name.as_str()),
                    _ => (SymbolLookup::Table { declares: false, has_parse_errors: false, language: String::new() }, Vec::new()),
                };
                let resolution = resolve(ws, &repo, r.target, &located, true, &table);
                let suggestion = match &resolution {
                    Resolution::Unresolved(unresolved) => {
                        let siblings: Vec<&str> = siblings.iter().map(|s| s.as_str()).collect();
                        let symbols: Vec<&str> = symbols.iter().map(|s| s.as_str()).collect();
                        suggest_for(ws, unresolved, &located, &siblings, &symbols)
                    }
                    _ => None,
                };
                Verdict { resolution, suggestion, notes: Vec::new() }
            })
            .collect()
    }

    fn check(&self, options: &CheckOptions) -> Report {
        let ws = self.workspace();
        let verdicts = self.verdicts(&ws);
        check(&ws, options, &verdicts).unwrap()
    }
}

/// Looks `path` up among `files`: a file, a directory holding some, or the deepest existing
/// directory and the first name missing under it, with the names in that directory.
fn locate(files: &[(&str, &str)], path: &str) -> (Located, Vec<String>) {
    let is_dir = |dir: &str| dir.is_empty() || files.iter().any(|(p, _)| p.starts_with(&format!("{dir}/")));
    if files.iter().any(|(p, _)| *p == path) {
        return (Located::Found { kind: EntryKind::File }, Vec::new());
    }
    if is_dir(path) {
        return (Located::Found { kind: EntryKind::Directory }, Vec::new());
    }
    let parts: Vec<&str> = path.split('/').collect();
    let mut parent = String::new();
    for part in &parts {
        let next = if parent.is_empty() { (*part).to_owned() } else { format!("{parent}/{part}") };
        if !is_dir(&next) {
            let prefix = if parent.is_empty() { String::new() } else { format!("{parent}/") };
            let mut siblings: Vec<String> = files
                .iter()
                .filter_map(|(p, _)| p.strip_prefix(&prefix))
                .map(|rest| rest.split('/').next().unwrap().to_owned())
                .collect();
            siblings.sort();
            siblings.dedup();
            return (Located::Missing { parent, name: (*part).to_owned() }, siblings);
        }
        parent = next;
    }
    (Located::Missing { parent: String::new(), name: path.to_owned() }, Vec::new())
}

/// The symbol table of a fixture file: every `fn name` it holds, and whether `name` is one.
fn symbol_table(files: &[(&str, &str)], path: &str, name: &str) -> (SymbolLookup, Vec<String>) {
    let text = files.iter().find(|(p, _)| *p == path).map(|(_, t)| *t).unwrap_or("");
    let names: Vec<String> = text
        .split("fn ")
        .skip(1)
        .map(|rest| rest.chars().take_while(|c| c.is_alphanumeric() || *c == '_').collect())
        .collect();
    let declares = names.iter().any(|n| n == name);
    (SymbolLookup::Table { declares, has_parse_errors: false, language: "rust".to_owned() }, names)
}

fn titles(report: &Report) -> Vec<String> {
    report.diagnostics.iter().map(|d| d.kind.to_string()).collect()
}

fn only(paths: &[&str]) -> CheckOptions {
    CheckOptions { unverified: None, only_files: paths.iter().map(|p| file(p)).collect() }
}

#[test]
fn a_clean_root_has_no_diagnostics_and_a_full_summary() {
    let repo = Repo::new(&[
        ("README.md", "# Repo @anchor[readme]\n\nSee @ref[#readme], @ref[src/lib.rs#run], @ref[src/]."),
        ("src/lib.rs", "// Entry: @ref[#readme]\npub fn run() {}"),
    ]);
    let report = repo.check(&CheckOptions::default());
    assert!(report.diagnostics.is_empty(), "{:?}", titles(&report));
    assert_eq!(report.summary.files_scanned, 2);
    assert_eq!(report.summary.anchors, 1);
    assert_eq!(report.summary.refs_checked, 4);
    assert_eq!(report.summary.refs_resolved, 4);
    assert!(!report.has_errors());
}

#[test]
fn broken_references_group_by_cause_with_every_site() {
    let repo = Repo::new(&[
        ("a.md", "@ref[#gone] @ref[#gone]\n@ref[#gone]"),
        ("b.md", "@ref[#gone] @anchor[goner]"),
        ("src/x.rs", "// @ref[#gone]\nfn f() {}"),
    ]);
    let report = repo.check(&CheckOptions::default());
    assert_eq!(report.diagnostics.len(), 1);
    let diagnostic = &report.diagnostics[0];
    assert!(matches!(diagnostic.kind, DiagnosticKind::Unresolved(Unresolved::AnchorMissing { .. })));
    assert_eq!(diagnostic.locations.len(), 5);
    assert_eq!(diagnostic.suggestion.as_deref(), Some("goner"));
    assert_eq!(diagnostic.severity, Severity::Error);
    let Locations::Sites(sites) = &diagnostic.locations else {
        panic!("expected sites");
    };
    assert_eq!(sites[0].site.path.as_str(), "a.md");
    assert_eq!((sites[0].line_col.line, sites[0].line_col.col), (1, 1));
    assert_eq!((sites[2].line_col.line, sites[2].line_col.col), (2, 1));
    assert!(report.has_errors());
}

#[test]
fn duplicates_malformed_and_skipped_files_are_reported() {
    let mut repo = Repo::new(&[("a.md", "@anchor[dup] @ref[ @ref[a b]"), ("b.md", "@anchor[dup]")]);
    repo.skipped.push(SkippedFile { path: file("bin.md"), reason: SkipReason::NotUtf8 });
    let report = repo.check(&CheckOptions::default());
    let kinds: Vec<&DiagnosticKind> = report.diagnostics.iter().map(|d| &d.kind).collect();
    assert!(kinds.iter().any(|k| matches!(k, DiagnosticKind::DuplicateAnchor { .. })));
    assert_eq!(kinds.iter().filter(|k| matches!(k, DiagnosticKind::Malformed { .. })).count(), 2);
    assert!(kinds
        .iter()
        .any(|k| matches!(k, DiagnosticKind::FileSkipped { reason: SkipReason::NotUtf8, .. })));
    assert_eq!(report.summary.errors, 3);
    assert_eq!(report.summary.unverified, 1);
}

#[test]
fn absent_roots_are_unverified_unless_strict() {
    let mut repo = Repo::new(&[("a.md", "@ref[plugin:#x] @ref[plugi:#x]")]);
    repo.absent = Some("plugin");
    let report = repo.check(&CheckOptions::default());
    assert_eq!(report.diagnostics.len(), 2);
    assert!(matches!(
        report.diagnostics[0].kind,
        DiagnosticKind::Unresolved(Unresolved::RootUndeclared { .. })
    ));
    assert_eq!(report.diagnostics[0].suggestion.as_deref(), Some("plugin"));
    assert!(matches!(
        report.diagnostics[1].kind,
        DiagnosticKind::Unverified(Unverified::RootAbsent { .. })
    ));
    assert_eq!(report.diagnostics[1].severity, Severity::Unverified);
    assert_eq!(report.summary.errors, 1);

    let strict = repo.check(&CheckOptions { unverified: Some(UnverifiedPolicy::Error), only_files: Vec::new() });
    assert_eq!(strict.summary.errors, 2);
}

#[test]
fn external_roots_contribute_anchors_and_their_duplicates_are_unverified() {
    let mut repo = Repo::new(&[("a.md", "@ref[plugin:#skill] @ref[plugin:#twice]")]);
    repo.external.push((
        "plugin",
        vec![(
            "SKILL.md",
            "@anchor[skill] @anchor[twice] @anchor[twice] @ref[#nonexistent-but-not-ours] @ref[ @[Nope]",
        )],
    ));
    let report = repo.check(&CheckOptions::default());
    assert_eq!(titles(&report).len(), 1, "{:?}", titles(&report));
    assert!(matches!(report.diagnostics[0].kind, DiagnosticKind::ExternalDuplicate { .. }));
    assert_eq!(report.diagnostics[0].severity, Severity::Unverified);
    assert_eq!(report.summary.refs_resolved, 2);
    assert_eq!(report.summary.roots_scanned, 2);
}

#[test]
fn only_files_filters_references_but_not_root_wide_findings() {
    let repo = Repo::new(&[("a.md", "@ref[#gone] @anchor[dup]"), ("b.md", "@ref[#gone] @anchor[dup]")]);
    let report = repo.check(&only(&["a.md"]));
    let missing = report.diagnostics.iter().find(|d| matches!(d.kind, DiagnosticKind::Unresolved(_))).unwrap();
    assert_eq!(missing.locations.len(), 1);
    let duplicate =
        report.diagnostics.iter().find(|d| matches!(d.kind, DiagnosticKind::DuplicateAnchor { .. })).unwrap();
    assert_eq!(duplicate.locations.len(), 2);
    assert_eq!(report.summary.refs_checked, 1);
}

#[test]
fn alias_uses_bind_in_their_file_and_report_undeclared_and_duplicates() {
    let repo = Repo::new(&[
        ("a.md", "@anchor[x]\n@ref[#x as X] @[X] @[X] @[Y]\n@ref[#x as Z] @ref[#x as Z] @[Z]\n"),
        ("b.md", "@ref[#nope as Nope] @[Nope] @[X]\n"),
    ]);
    let report = repo.check(&CheckOptions::default());
    assert_eq!(report.summary.refs_checked, 4);
    assert_eq!(report.summary.refs_resolved, 3);
    assert_eq!(report.summary.alias_uses, 4, "{:?}", titles(&report));

    let undeclared: Vec<&Diagnostic> =
        report.diagnostics.iter().filter(|d| matches!(d.kind, DiagnosticKind::AliasUndeclared { .. })).collect();
    assert_eq!(undeclared.len(), 2, "{:?}", titles(&report));
    let in_a = undeclared
        .iter()
        .find(|d| matches!(&d.kind, DiagnosticKind::AliasUndeclared { path, .. } if path.as_str() == "a.md"))
        .unwrap();
    assert!(in_a.suggestion.is_some());
    assert_eq!(in_a.locations.len(), 1);
    let in_b = undeclared
        .iter()
        .find(|d| matches!(&d.kind, DiagnosticKind::AliasUndeclared { path, .. } if path.as_str() == "b.md"))
        .unwrap();
    assert_eq!(in_b.suggestion, None);

    let duplicate =
        report.diagnostics.iter().find(|d| matches!(d.kind, DiagnosticKind::AliasDuplicate { .. })).unwrap();
    assert_eq!(duplicate.locations.len(), 2);

    let missing = report
        .diagnostics
        .iter()
        .find(|d| matches!(d.kind, DiagnosticKind::Unresolved(Unresolved::AnchorMissing { .. })))
        .unwrap();
    assert_eq!(missing.locations.len(), 1);
    assert_eq!(missing.notes, vec!["alias `Nope` has 1 use in `b.md`".to_owned()]);
    assert!(report.has_errors());

    let scoped = repo.check(&only(&["a.md"]));
    assert_eq!(scoped.summary.alias_uses, 3);
    assert_eq!(titles(&scoped).iter().filter(|t| t.contains("b.md")).count(), 0, "{:?}", titles(&scoped));
}

#[test]
fn sites_are_placed_at_their_line_and_column() {
    let repo = Repo::new(&[("a.md", "\n\n  @ref[#gone]")]);
    let report = repo.check(&CheckOptions::default());
    let Locations::Sites(sites) = &report.diagnostics[0].locations else {
        panic!("expected sites");
    };
    assert_eq!((sites[0].line_col.line, sites[0].line_col.col), (3, 3));
}
