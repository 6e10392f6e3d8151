use anchr_core::coverage::fallback::{ancestor_candidates, fallback_kind, path_target_text};
use anchr_core::coverage::token::{KnownExtensions, PathShape};
use anchr_core::coverage::{
    coverage, CandidateGroup, CandidateKind, CandidateSite, CoverageFile, CoverageReport, CoverageSummary,
};
use anchr_core::index::{Index, Site};
use anchr_core::marker::{lex, parse_target, NoRefEntry, PathExpectation, RefTarget, RelPath};
use anchr_core::resolve::{beside, Unresolved};
use anchr_core::root::{FilePath, RootName};
use anchr_core::span::{ByteSpan, LineIndex};
use anchr_core::text::{FileScan, RegionKind, TextRegion};

fn site(path: &str, start: usize, end: usize, text: &str) -> CandidateSite {
    CandidateSite {
        site: Site {
            root: RootName::parse("r").unwrap(),
            path: FilePath::new(path).unwrap(),
            span: ByteSpan::new(start, end),
            region: RegionKind::Prose,
        },
        text: text.to_owned(),
    }
}

fn summary() -> CoverageSummary {
    CoverageSummary {
        annotated_refs: 3,
        proposals: 2,
        unresolvable: 1,
        unused_aliases: 5,
        ignored: 7,
        unused_ignores: 11,
    }
}

#[test]
fn the_total_counts_reference_shaped_strings_only() {
    assert_eq!(summary().total(), 6);
    assert_eq!(CoverageSummary::default().total(), 0);
}

#[test]
fn proposals_become_edits_per_file_sorted_by_span() {
    let report = CoverageReport {
        candidates: vec![
            CandidateGroup {
                kind: CandidateKind::Proposal { replacement: "@ref[b.md]".to_owned() },
                token: "b.md".to_owned(),
                sites: vec![site("z.md", 10, 14, "b.md"), site("a.md", 20, 24, "b.md")],
            },
            CandidateGroup {
                kind: CandidateKind::Unresolvable { reason: "no such file".to_owned() },
                token: "c.md".to_owned(),
                sites: vec![site("a.md", 0, 4, "c.md")],
            },
            CandidateGroup {
                kind: CandidateKind::Proposal { replacement: "@ref[`d.md`]".to_owned() },
                token: "d.md".to_owned(),
                sites: vec![site("a.md", 2, 8, "`d.md`")],
            },
        ],
        unused_config_ignores: Vec::new(),
        summary: summary(),
    };
    let edits = report.proposals();
    let files: Vec<&str> = edits.iter().map(|(path, _)| path.as_str()).collect();
    assert_eq!(files, vec!["a.md", "z.md"]);
    let starts: Vec<usize> = edits[0].1.iter().map(|e| e.span.start).collect();
    assert_eq!(starts, vec![2, 20]);
    assert_eq!(edits[0].1[0].expected, "`d.md`");
    assert_eq!(edits[0].1[0].replacement, "@ref[`d.md`]");
    assert_eq!(edits[1].1.len(), 1);
    assert_eq!(edits[1].1[0].replacement, "@ref[b.md]");
}

/// The regions a file's grammar gives: Markdown prose and code spans, with fenced blocks and
/// links left out; the `//` comments of a Rust file. Other files have no regions.
fn regions(path: &str, source: &str) -> Option<Vec<TextRegion>> {
    let mut out = Vec::new();
    let mut offset = 0;
    let mut fenced = false;
    for line in source.split_inclusive('\n') {
        let body = line.strip_suffix('\n').unwrap_or(line);
        if path.ends_with(".rs") {
            if let Some(at) = body.find("//") {
                out.push(TextRegion { span: ByteSpan::new(offset + at, offset + body.len()), kind: RegionKind::Comment });
            }
        } else if path.ends_with(".md") {
            if body.trim_start().starts_with("```") {
                fenced = !fenced;
            } else if !fenced {
                markdown_line(body, offset, &mut out);
            }
        } else {
            return None;
        }
        offset += line.len();
    }
    Some(out)
}

fn markdown_line(body: &str, offset: usize, out: &mut Vec<TextRegion>) {
    let bytes = body.as_bytes();
    let mut prose_start = 0;
    let mut i = 0;
    let mut flush = |from: usize, to: usize, out: &mut Vec<TextRegion>| {
        if from < to {
            out.push(TextRegion { span: ByteSpan::new(offset + from, offset + to), kind: RegionKind::Prose });
        }
    };
    while i < bytes.len() {
        if bytes[i] == b'`' {
            if let Some(close) = body[i + 1..].find('`') {
                let end = i + 1 + close + 1;
                flush(prose_start, i, out);
                out.push(TextRegion { span: ByteSpan::new(offset + i, offset + end), kind: RegionKind::InlineCode });
                i = end;
                prose_start = end;
                continue;
            }
        }
        if bytes[i] == b'[' && (i == 0 || bytes[i - 1] != b'@') && !body[..i].ends_with("@ref") && !body[..i].ends_with("@noref") && !body[..i].ends_with("@anchor") {
            if let Some(close) = body[i..].find("](") {
                if let Some(paren) = body[i + close..].find(')') {
                    let end = i + close + paren + 1;
                    flush(prose_start, i, out);
                    i = end;
                    prose_start = end;
                    continue;
                }
            }
        }
        i += 1;
    }
    flush(prose_start, bytes.len(), out);
}

/// What the resolver answers for a path token of a file, looked up root-relative among the
/// fixture's files: a glob names the directory it globs, `./` and `../` alone are no
/// reference, and `#name` needs a `fn name` in the file.
fn answer(files: &[(&str, &str)], token: &str, shape: PathShape) -> Option<CandidateKind> {
    let target = match shape {
        PathShape::Glob => token.trim_end_matches('*'),
        PathShape::File | PathShape::Directory => token,
    };
    if target.chars().all(|ch| ch == '.' || ch == '/') {
        return None;
    }
    let (path, symbol) = match target.split_once('#') {
        Some((path, symbol)) => (path, Some(symbol)),
        None => (target, None),
    };
    let resolved = if path.ends_with('/') {
        files.iter().any(|(p, _)| p.starts_with(path))
    } else {
        files.iter().any(|(p, text)| {
            *p == path && symbol.map_or(true, |name| text.contains(&format!("fn {name}")))
        })
    };
    Some(if resolved {
        CandidateKind::Proposal { replacement: format!("@ref[{target}]") }
    } else {
        CandidateKind::Unresolvable { reason: format!("`{path}` does not exist in root `repo`") }
    })
}

/// Coverage of a root laid out as `files`, with the root-wide ignore list `ignore`, over
/// `only` (every file when empty). A first run learns which path tokens are asked about; the
/// second runs with the answers.
fn run_on(files: &[(&str, &str)], ignore: &[&str], only: &[&str]) -> CoverageReport {
    let mut index = Index::new(RootName::parse("repo").unwrap());
    let mut covered = Vec::new();
    for (path, source) in files {
        let Some(regions) = regions(path, source) else {
            continue;
        };
        let file = FilePath::new(path).unwrap();
        let lexed = lex(source, &regions, &file).unwrap();
        index.update_file(
            file.clone(),
            FileScan { markers: lexed.markers, malformed: lexed.malformed, line_index: LineIndex::new(source).unwrap() },
        );
        covered.push(CoverageFile { path: file, source: (*source).to_owned(), regions });
    }
    let mut repo: Vec<String> = files
        .iter()
        .filter_map(|(p, _)| p.rsplit_once('.').map(|(_, ext)| ext.to_ascii_lowercase()))
        .collect();
    repo.sort();
    repo.dedup();
    let ignore: Vec<NoRefEntry> = ignore.iter().map(|e| NoRefEntry::parse(e).unwrap()).collect();
    let only: Vec<FilePath> = only.iter().map(|p| FilePath::new(p).unwrap()).collect();
    let (_, asked) = coverage(&index, &covered, KnownExtensions::new(&repo), ignore.clone(), &only, &Vec::new());
    let verdicts: Vec<Option<CandidateKind>> =
        asked.iter().map(|(_, token, shape)| answer(files, token, *shape)).collect();
    let (report, again) = coverage(&index, &covered, KnownExtensions::new(&repo), ignore, &only, &verdicts);
    assert_eq!(asked.len(), again.len());
    report
}

fn run(files: &[(&str, &str)]) -> CoverageReport {
    run_on(files, &[], &[])
}

/// Every site in file order, so tests read like the fixture text.
fn sites(report: &CoverageReport) -> Vec<(&CandidateKind, &CandidateSite)> {
    let mut sites: Vec<(&CandidateKind, &CandidateSite)> = report
        .candidates
        .iter()
        .flat_map(|group| group.sites.iter().map(move |site| (&group.kind, site)))
        .collect();
    sites.sort_by(|a, b| (a.1.site.path.as_str(), a.1.site.span.start).cmp(&(b.1.site.path.as_str(), b.1.site.span.start)));
    sites
}

fn describe(report: &CoverageReport) -> Vec<(String, String, String)> {
    sites(report)
        .into_iter()
        .map(|(kind, c)| {
            let kind = match kind {
                CandidateKind::Proposal { replacement } => format!("propose {replacement}"),
                CandidateKind::Unresolvable { .. } => "unresolvable".to_owned(),
                CandidateKind::UnusedAlias { .. } => "unused alias".to_owned(),
                CandidateKind::UnusedIgnore { .. } => "unused ignore".to_owned(),
            };
            (c.site.path.as_str().to_owned(), c.text.clone(), kind)
        })
        .collect()
}

fn row(path: &str, text: &str, kind: &str) -> (String, String, String) {
    (path.to_owned(), text.to_owned(), kind.to_owned())
}

fn edits_of<'a>(
    edits: &'a [(FilePath, Vec<anchr_core::edit::TextEdit>)],
    path: &str,
) -> &'a Vec<anchr_core::edit::TextEdit> {
    &edits.iter().find(|(p, _)| p.as_str() == path).unwrap().1
}

#[test]
fn tests_paths_in_prose_and_code_spans_are_proposed_when_they_resolve() {
    let report = run(&[
        (
            "README.md",
            "See `docs/guide.md`, docs/guide.md, and docs/missing.md. Config in anchr.toml.\nAlready @ref[docs/guide.md]. Not https://example.com/docs/guide.md nor v1/2.\n",
        ),
        ("docs/guide.md", "# Guide\n"),
        ("anchr.toml", ""),
    ]);
    assert_eq!(
        describe(&report),
        vec![
            row("README.md", "`docs/guide.md`", "propose @ref[docs/guide.md]"),
            row("README.md", "docs/guide.md", "propose @ref[docs/guide.md]"),
            row("README.md", "docs/missing.md", "unresolvable"),
            row("README.md", "anchr.toml", "propose @ref[anchr.toml]"),
        ]
    );
    assert_eq!(report.summary.annotated_refs, 1);
    assert_eq!(report.summary.proposals, 3);
    assert_eq!(report.summary.unresolvable, 1);
    assert_eq!(report.summary.total(), 5);
}

#[test]
fn directory_and_glob_tokens_propose_the_directory_form() {
    let report = run(&[
        ("README.md", "See `docs/research/`, src/* and src/**. Also the missing/ directory.\n"),
        ("docs/research/survey.md", ""),
        ("src/lib.rs", ""),
    ]);
    assert_eq!(
        describe(&report),
        vec![
            row("README.md", "`docs/research/`", "propose @ref[docs/research/]"),
            row("README.md", "src/*", "propose @ref[src/]"),
            row("README.md", "src/**", "propose @ref[src/]"),
            row("README.md", "missing/", "unresolvable"),
        ]
    );
    let edits = report.proposals();
    let described: Vec<(&str, &str)> = edits_of(&edits, "README.md")
        .iter()
        .map(|edit| (edit.expected.as_str(), edit.replacement.as_str()))
        .collect();
    assert_eq!(
        described,
        vec![
            ("`docs/research/`", "@ref[docs/research/]"),
            ("src/*", "@ref[src/]"),
            ("src/**", "@ref[src/]"),
        ]
    );
}

#[test]
fn prose_slash_pairs_and_version_numbers_are_not_candidates() {
    let report = run(&[(
        "README.md",
        "Reports line/col, licensed Apache-2.0/MIT, e.g. since 1.x, i.e. a.k.a. v1.1;\nsee src/directory and the website, or `struct/class` and `e.g`.\n",
    )]);
    assert!(report.candidates.is_empty(), "{:?}", describe(&report));
    assert_eq!(report.summary.total(), 0);
}

#[test]
fn repo_extensions_extend_the_linguist_table() {
    let with_file = run(&[("README.md", "Read other.zzq first.\n"), ("data/notes.zzq", "")]);
    assert_eq!(describe(&with_file), vec![row("README.md", "other.zzq", "unresolvable")]);

    let without_file = run(&[("README.md", "Read other.zzq first.\n")]);
    assert!(without_file.candidates.is_empty());
}

#[test]
fn linguist_extensions_are_known_without_a_repo_file() {
    let report = run(&[("README.md", "The notes moved from old.txt.\n")]);
    assert_eq!(describe(&report), vec![row("README.md", "old.txt", "unresolvable")]);
}

#[test]
fn backticked_identifiers_are_never_candidates() {
    let report = run(&[
        ("docs/a.md", "Call `validate_token`, then `shared_name`; see `src/auth.rs#validate_token`.\n"),
        ("src/auth.rs", "pub fn validate_token() {}\npub fn shared_name() {}\n"),
        ("src/other.rs", "pub fn shared_name() {}\n// see `validate_token`, `shared_name`, and src/auth.rs\n"),
    ]);
    assert_eq!(
        describe(&report),
        vec![
            row("docs/a.md", "`src/auth.rs#validate_token`", "propose @ref[src/auth.rs#validate_token]"),
            row("src/other.rs", "src/auth.rs", "propose @ref[src/auth.rs]"),
        ]
    );
    assert_eq!(report.summary.total(), 2);
}

#[test]
fn tests_alias_words_are_proposed_per_file_and_unused_aliases_are_advisories() {
    let report = run(&[
        (
            "docs/a.md",
            "@ref[docs/guide.md as Guide] @ref[docs/guide.md as Spare]\nRead the Guide, or `Guide`; not [Guide](docs/guide.md), Guidebook, or guide. @[Guide] is done.\n",
        ),
        ("docs/b.md", "Guide is just a word here; so is `Guide`.\n"),
        ("docs/guide.md", "# Guide\n"),
        ("src/x.rs", "// The Guide struct: `Guide` and Guide\npub struct Guide;\n"),
    ]);
    let described = describe(&report);
    assert_eq!(
        described
            .iter()
            .filter(|(path, _, kind)| path == "docs/a.md" && kind == "propose @[Guide]")
            .map(|(_, text, _)| text.as_str())
            .collect::<Vec<_>>(),
        vec!["Guide", "`Guide`"]
    );
    assert_eq!(
        described
            .iter()
            .filter(|(path, _, _)| path == "docs/a.md")
            .filter(|(_, _, kind)| kind == "unused alias")
            .map(|(_, text, _)| text.as_str())
            .collect::<Vec<_>>(),
        vec!["Spare"]
    );
    assert!(
        described.iter().filter(|(path, _, _)| path != "docs/a.md").all(|(_, _, kind)| !kind.contains("@[")),
        "{described:?}"
    );
    assert_eq!(report.summary.annotated_refs, 3);
    assert_eq!(report.summary.unused_aliases, 1);
    assert_eq!(
        report.summary.total(),
        report.summary.annotated_refs + report.summary.proposals + report.summary.unresolvable
    );
    let edits = report.proposals();
    let a = edits_of(&edits, "docs/a.md");
    assert!(a.iter().all(|edit| edit.replacement == "@[Guide]"));
    assert_eq!(a.len(), 2);
}

#[test]
fn tests_noref_lists_suppress_every_token_shape_in_their_file_only() {
    // `src/**` in the first file claims the subtree; the bare `src/` in the second claims
    // only that token.
    let report = run(&[
        (
            "docs/a.md",
            "@noref[docs/guide.md, src/**, Guide]\n@ref[docs/guide.md as Guide]\nSee `docs/guide.md`, src/x.rs, `src/x.rs#run`, src/*, src/, and Guide (@[Guide]).\n",
        ),
        ("docs/b.md", "@noref[src/]\nSee `docs/guide.md`, src/x.rs, and src/.\n"),
        ("docs/guide.md", "# Guide\n"),
        ("src/x.rs", "pub fn run() {}\n"),
    ]);
    assert_eq!(
        describe(&report),
        vec![
            row("docs/b.md", "`docs/guide.md`", "propose @ref[docs/guide.md]"),
            row("docs/b.md", "src/x.rs", "propose @ref[src/x.rs]"),
        ]
    );
    assert_eq!(report.summary.ignored, 7);
    assert_eq!(report.summary.unused_ignores, 0);
    assert_eq!(report.summary.annotated_refs, 2);
    assert_eq!(report.summary.total(), 4);
    assert!(report.unused_config_ignores.is_empty());
}

#[test]
fn tests_unused_and_duplicate_noref_entries_are_advisories_at_their_span() {
    let source = "@noref[foo.ts, bar.md, foo.ts]\nMentions foo.ts only.\n";
    let report = run(&[("docs/a.md", source)]);
    assert_eq!(
        describe(&report),
        vec![row("docs/a.md", "bar.md", "unused ignore"), row("docs/a.md", "foo.ts", "unused ignore")]
    );
    let spans: Vec<&str> =
        sites(&report).iter().map(|(_, c)| &source[c.site.span.start..c.site.span.end]).collect();
    assert_eq!(spans, vec!["bar.md", "foo.ts"]);
    assert_eq!(sites(&report)[1].1.site.span.start, 23);
    assert_eq!(report.summary.ignored, 1);
    assert_eq!(report.summary.unused_ignores, 2);
    assert!(report.proposals().is_empty());
}

#[test]
fn config_tokens_apply_across_files_and_report_unused_entries() {
    let files = [
        ("docs/a.md", "See `PLUGIN.md` and `docs/guide.md`. @ref[docs/guide.md]\n"),
        ("docs/b.md", "See `docs/guide.md`, PLUGIN.md, and docs/AGENTS.md. @ref[docs/guide.md]\n"),
        ("docs/guide.md", "# Guide\n"),
    ];
    let ignore = ["PLUGIN.md", "never.md", "**/AGENTS.md"];
    let report = run_on(&files, &ignore, &[]);
    assert_eq!(
        describe(&report),
        vec![
            row("docs/a.md", "`docs/guide.md`", "propose @ref[docs/guide.md]"),
            row("docs/b.md", "`docs/guide.md`", "propose @ref[docs/guide.md]"),
        ]
    );
    assert_eq!(report.unused_config_ignores.iter().map(|e| e.as_str()).collect::<Vec<_>>(), vec!["never.md"]);
    assert_eq!(report.summary.ignored, 3);
    assert_eq!(report.summary.unused_ignores, 1);
    assert_eq!(report.summary.annotated_refs, 2);
    assert_eq!(report.summary.total(), 4);

    let narrowed = run_on(&files, &ignore, &["docs/a.md"]);
    assert_eq!(narrowed.candidates.len(), 1);
    assert!(narrowed.unused_config_ignores.is_empty(), "a narrowed run cannot judge root-wide entries");
    assert_eq!(narrowed.summary.unused_ignores, 0);
}

#[test]
fn one_token_with_one_verdict_is_one_group_and_groups_have_a_fixed_order() {
    let report = run(&[
        (
            "docs/a.md",
            "@ref[docs/guide.md as Guide] @ref[docs/guide.md as Spare]\nSee gen.js, `gen.js`, and `docs/guide.md`; the Guide and `Guide` (@[Guide]).\n",
        ),
        ("docs/b.md", "Header from gen.js.\n"),
        ("docs/guide.md", "# Guide\n"),
        ("src/x.rs", "// Output of gen.js\n"),
    ]);
    let described: Vec<(&str, &str, usize)> = report
        .candidates
        .iter()
        .map(|group| {
            let kind = match &group.kind {
                CandidateKind::Proposal { .. } => "proposal",
                CandidateKind::Unresolvable { .. } => "unresolvable",
                CandidateKind::UnusedAlias { .. } => "unused alias",
                CandidateKind::UnusedIgnore { .. } => "unused ignore",
            };
            (kind, group.token.as_str(), group.sites.len())
        })
        .collect();
    assert_eq!(
        described,
        vec![
            ("proposal", "Guide", 2),
            ("proposal", "docs/guide.md", 1),
            ("unresolvable", "gen.js", 4),
            ("unused alias", "Spare", 1),
        ]
    );
    let written = &report.candidates[2];
    let paths: Vec<&str> = written.sites.iter().map(|c| c.site.path.as_str()).collect();
    assert_eq!(paths, vec!["docs/a.md", "docs/a.md", "docs/b.md", "src/x.rs"]);
    let texts: Vec<&str> = written.sites.iter().map(|c| c.text.as_str()).collect();
    assert_eq!(texts, vec!["gen.js", "`gen.js`", "gen.js", "gen.js"]);
    assert_eq!(report.summary.unresolvable, 4);
    assert_eq!(report.summary.proposals, 3);
}

#[test]
fn dot_only_tokens_are_prose_about_the_syntax() {
    let report = run(&[
        ("docs/a.md", "Write `./` or `../` for relative paths, never `../../`.\n"),
        ("docs/guide.md", ""),
    ]);
    assert!(report.candidates.is_empty(), "{:?}", describe(&report));
}

#[test]
fn tests_a_local_entry_shadows_a_global_one() {
    let report = run_on(&[("docs/a.md", "@noref[foo.ts]\nSee foo.ts.\n")], &["foo.ts"], &[]);
    assert!(report.candidates.is_empty());
    assert_eq!(report.summary.ignored, 1);
    assert_eq!(report.unused_config_ignores.len(), 1);
}

#[test]
fn coverage_paths_in_prose_and_code_spans_are_proposed_when_they_resolve() {
    let report = run(&[
        (
            "README.md",
            "See `docs/guide.md`, docs/guide.md, and docs/missing.md. Config in anchr.toml.\nAlready @ref[docs/guide.md]. Not https://example.com/docs/guide.md nor v1/2.\n",
        ),
        ("docs/guide.md", "# Guide\n"),
        ("anchr.toml", ""),
    ]);
    assert_eq!(
        describe(&report),
        vec![
            row("README.md", "`docs/guide.md`", "propose @ref[docs/guide.md]"),
            row("README.md", "docs/guide.md", "propose @ref[docs/guide.md]"),
            row("README.md", "docs/missing.md", "unresolvable"),
            row("README.md", "anchr.toml", "propose @ref[anchr.toml]"),
        ]
    );
    assert_eq!(report.summary.annotated_refs, 1);
    assert_eq!(report.summary.proposals, 3);
    assert_eq!(report.summary.unresolvable, 1);
    assert_eq!(report.summary.total(), 5);
}

#[test]
fn coverage_alias_words_are_proposed_per_file_and_unused_aliases_are_advisories() {
    let report = run(&[
        (
            "docs/a.md",
            "@ref[docs/guide.md as Guide] @ref[docs/guide.md as Spare]\nRead the Guide, or `Guide`; not [Guide](docs/guide.md), Guidebook, or guide. @[Guide] is done.\n",
        ),
        ("docs/b.md", "Guide is just a word here; so is `Guide`.\n"),
        ("docs/guide.md", "# Guide\n"),
        ("src/x.rs", "// The Guide struct: `Guide` and Guide\npub struct Guide;\n"),
    ]);
    let described = describe(&report);
    assert_eq!(
        described
            .iter()
            .filter(|(path, _, kind)| path == "docs/a.md" && kind == "propose @[Guide]")
            .map(|(_, text, _)| text.as_str())
            .collect::<Vec<_>>(),
        vec!["Guide", "`Guide`"]
    );
    assert_eq!(
        described
            .iter()
            .filter(|(path, _, _)| path == "docs/a.md")
            .filter(|(_, _, kind)| kind == "unused alias")
            .map(|(_, text, _)| text.as_str())
            .collect::<Vec<_>>(),
        vec!["Spare"]
    );
    assert!(
        described.iter().filter(|(path, _, _)| path != "docs/a.md").all(|(_, _, kind)| !kind.contains("@[")),
        "{described:?}"
    );
    assert_eq!(report.summary.annotated_refs, 3);
    assert_eq!(report.summary.unused_aliases, 1);
    assert_eq!(
        report.summary.total(),
        report.summary.annotated_refs + report.summary.proposals + report.summary.unresolvable
    );
    let edits = report.proposals();
    let a = edits_of(&edits, "docs/a.md");
    assert!(a.iter().all(|edit| edit.replacement == "@[Guide]"));
    assert_eq!(a.len(), 2);
}

#[test]
fn coverage_noref_lists_suppress_every_token_shape_in_their_file_only() {
    // `src/**` in the first file claims the subtree; the bare `src/` in the second claims
    // only that token.
    let report = run(&[
        (
            "docs/a.md",
            "@noref[docs/guide.md, src/**, Guide]\n@ref[docs/guide.md as Guide]\nSee `docs/guide.md`, src/x.rs, `src/x.rs#run`, src/*, src/, and Guide (@[Guide]).\n",
        ),
        ("docs/b.md", "@noref[src/]\nSee `docs/guide.md`, src/x.rs, and src/.\n"),
        ("docs/guide.md", "# Guide\n"),
        ("src/x.rs", "pub fn run() {}\n"),
    ]);
    assert_eq!(
        describe(&report),
        vec![
            row("docs/b.md", "`docs/guide.md`", "propose @ref[docs/guide.md]"),
            row("docs/b.md", "src/x.rs", "propose @ref[src/x.rs]"),
        ]
    );
    assert_eq!(report.summary.ignored, 7);
    assert_eq!(report.summary.unused_ignores, 0);
    assert_eq!(report.summary.annotated_refs, 2);
    assert_eq!(report.summary.total(), 4);
    assert!(report.unused_config_ignores.is_empty());
}

#[test]
fn coverage_unused_and_duplicate_noref_entries_are_advisories_at_their_span() {
    let source = "@noref[foo.ts, bar.md, foo.ts]\nMentions foo.ts only.\n";
    let report = run(&[("docs/a.md", source)]);
    assert_eq!(
        describe(&report),
        vec![row("docs/a.md", "bar.md", "unused ignore"), row("docs/a.md", "foo.ts", "unused ignore")]
    );
    let spans: Vec<&str> =
        sites(&report).iter().map(|(_, c)| &source[c.site.span.start..c.site.span.end]).collect();
    assert_eq!(spans, vec!["bar.md", "foo.ts"]);
    assert_eq!(sites(&report)[1].1.site.span.start, 23);
    assert_eq!(report.summary.ignored, 1);
    assert_eq!(report.summary.unused_ignores, 2);
    assert!(report.proposals().is_empty());
}

#[test]
fn coverage_a_local_entry_shadows_a_global_one() {
    let report = run_on(&[("docs/a.md", "@noref[foo.ts]\nSee foo.ts.\n")], &["foo.ts"], &[]);
    assert!(report.candidates.is_empty());
    assert_eq!(report.summary.ignored, 1);
    assert_eq!(report.unused_config_ignores.len(), 1);
}

#[test]
fn coverage_links_and_fences_are_never_candidates_and_proposals_become_edits() {
    let report = run(&[
        ("README.md", "[guide](docs/guide.md) and\n\n```\ndocs/guide.md\n```\n\nplus `docs/guide.md`.\n"),
        ("docs/guide.md", ""),
    ]);
    assert_eq!(report.candidates.len(), 1);
    let edits = report.proposals();
    let readme = edits_of(&edits, "README.md");
    assert_eq!(readme.len(), 1);
    assert_eq!(readme[0].expected, "`docs/guide.md`");
    assert_eq!(readme[0].replacement, "@ref[docs/guide.md]");
}

#[test]
fn tests_links_and_fences_are_never_candidates_and_proposals_become_edits() {
    let report = run(&[
        ("README.md", "[guide](docs/guide.md) and\n\n```\ndocs/guide.md\n```\n\nplus `docs/guide.md`.\n"),
        ("docs/guide.md", ""),
    ]);
    assert_eq!(report.candidates.len(), 1);
    let edits = report.proposals();
    let readme = edits_of(&edits, "README.md");
    assert_eq!(readme.len(), 1);
    assert_eq!(readme[0].expected, "`docs/guide.md`");
    assert_eq!(readme[0].replacement, "@ref[docs/guide.md]");
}

/// What the resolver answers for a path token written in `file`, over the fixture's files:
/// root-relative first, then beside the file or under exactly one of its ancestors, as the
/// library's fallback decides.
fn classify(files: &[(&str, &str)], file: &FilePath, token: &str, shape: PathShape) -> Option<CandidateKind> {
    let text = path_target_text(token, shape)?;
    let target = parse_target(&text, Some(file)).ok()?.target;
    let (symbol, wants_dir) = match &target {
        RefTarget::Symbol { name, .. } => (Some(name.as_str().to_owned()), false),
        RefTarget::Path { expects, .. } => (None, *expects == PathExpectation::Directory),
        RefTarget::Anchor { .. } => return None,
    };
    let is_dir = |p: &str| files.iter().any(|(f, _)| f.starts_with(&format!("{p}/")));
    let exists = |p: &str| match &symbol {
        Some(name) => files.iter().any(|(f, t)| *f == p && t.contains(&format!("fn {name}"))),
        None if wants_dir => is_dir(p),
        None => is_dir(p) || files.iter().any(|(f, _)| *f == p),
    };
    let path = target.path()?.clone();
    if exists(path.as_str()) {
        return Some(CandidateKind::Proposal { replacement: format!("@ref[{text}]") });
    }
    let beside_resolves = beside(file, &path).is_some_and(|p| exists(p.as_str()));
    let hits: Vec<RelPath> = ancestor_candidates(file, &path).into_iter().filter(|p| exists(p.as_str())).collect();
    let same_name: Vec<String> = files
        .iter()
        .filter(|(f, _)| f.rsplit('/').next() == Some(path.file_name()))
        .map(|(f, _)| (*f).to_owned())
        .collect();
    let missing = Unresolved::PathMissing { root: RootName::parse("repo").unwrap(), path: path.clone() };
    Some(fallback_kind(&text, &path, beside_resolves, &hits, missing, &same_name))
}

/// Coverage of a root laid out as `files`, its path tokens answered by `classify`.
fn run_classified(files: &[(&str, &str)]) -> CoverageReport {
    let mut index = Index::new(RootName::parse("repo").unwrap());
    let mut covered = Vec::new();
    for (path, source) in files {
        let Some(regions) = regions(path, source) else {
            continue;
        };
        let file = FilePath::new(path).unwrap();
        let lexed = lex(source, &regions, &file).unwrap();
        index.update_file(
            file.clone(),
            FileScan { markers: lexed.markers, malformed: lexed.malformed, line_index: LineIndex::new(source).unwrap() },
        );
        covered.push(CoverageFile { path: file, source: (*source).to_owned(), regions });
    }
    let mut repo: Vec<String> = files
        .iter()
        .filter_map(|(p, _)| p.rsplit_once('.').map(|(_, ext)| ext.to_ascii_lowercase()))
        .collect();
    repo.sort();
    repo.dedup();
    let (_, asked) = coverage(&index, &covered, KnownExtensions::new(&repo), Vec::new(), &Vec::new(), &Vec::new());
    let verdicts: Vec<Option<CandidateKind>> =
        asked.iter().map(|(file, token, shape)| classify(files, file, token, *shape)).collect();
    let (report, _) = coverage(&index, &covered, KnownExtensions::new(&repo), Vec::new(), &Vec::new(), &verdicts);
    report
}

#[test]
fn bare_tokens_that_resolve_beside_their_file_are_proposed_with_dot_slash() {
    let report = run_classified(&[
        ("docs/a.md", "See guide.md, `sub/x.md`, x.rs#run and sub/*.\n"),
        ("docs/guide.md", "# Guide\n"),
        ("docs/sub/x.md", ""),
        ("docs/x.rs", "pub fn run() {}\n"),
    ]);
    assert_eq!(
        describe(&report),
        vec![
            row("docs/a.md", "guide.md", "propose @ref[./guide.md]"),
            row("docs/a.md", "`sub/x.md`", "propose @ref[./sub/x.md]"),
            row("docs/a.md", "x.rs#run", "propose @ref[./x.rs#run]"),
            row("docs/a.md", "sub/*", "propose @ref[./sub/]"),
        ]
    );
}

#[test]
fn a_token_found_under_exactly_one_ancestor_is_proposed_root_relative() {
    let one = run_classified(&[("a/b/c/d.md", "See n/f.md and n/f.md#run.\n"), ("a/b/n/f.md", "")]);
    assert_eq!(
        describe(&one),
        vec![
            row("a/b/c/d.md", "n/f.md", "propose @ref[a/b/n/f.md]"),
            row("a/b/c/d.md", "n/f.md#run", "unresolvable"),
        ]
    );
    let two = run_classified(&[("a/b/c/d.md", "See n/f.md.\n"), ("a/b/n/f.md", ""), ("a/n/f.md", "")]);
    assert_eq!(describe(&two), vec![row("a/b/c/d.md", "n/f.md", "unresolvable")]);
}

#[test]
fn an_unresolvable_token_with_a_unique_basename_names_where_it_is() {
    let unique = run_classified(&[("docs/a.md", "See missing/guide.md.\n"), ("elsewhere/deep/guide.md", "")]);
    let CandidateKind::Unresolvable { reason } = &unique.candidates[0].kind else {
        panic!("{:?}", describe(&unique));
    };
    assert!(reason.ends_with("; one file named `guide.md` exists at `elsewhere/deep/guide.md`"), "{reason}");

    let shared = run_classified(&[
        ("docs/a.md", "See missing/guide.md.\n"),
        ("elsewhere/deep/guide.md", ""),
        ("other/guide.md", ""),
    ]);
    let CandidateKind::Unresolvable { reason } = &shared.candidates[0].kind else {
        panic!("{:?}", describe(&shared));
    };
    assert!(!reason.contains("one file named"), "{reason}");
}

#[test]
fn a_glob_token_is_checked_as_the_directory_it_globs_and_dots_as_nothing() {
    assert_eq!(path_target_text("src/**", PathShape::Glob).as_deref(), Some("src/"));
    assert_eq!(path_target_text("src/x.rs", PathShape::File).as_deref(), Some("src/x.rs"));
    assert_eq!(path_target_text("../", PathShape::Directory), None);
    let file = FilePath::new("a/b/c/d.md").unwrap();
    let path = RelPath::parse("n/f.md").unwrap();
    let candidates: Vec<String> = ancestor_candidates(&file, &path).iter().map(|p| p.as_str().to_owned()).collect();
    assert_eq!(candidates, vec!["a/b/n/f.md".to_owned(), "a/n/f.md".to_owned()]);
}
