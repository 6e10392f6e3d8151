//! The one guarantee built on a scanned and indexed workspace: `check`. Broken references are
//! data in the report; only a position the index cannot place is an error.
use vstd::prelude::*;

use crate::chars::{decimal, decimal_text, push_text};
use crate::config::UnverifiedPolicy;
use crate::diagnostic::{
    report_of, with_file, with_note, with_root, with_site, with_suggestion, BuilderView, DiagnosticKind,
    FileLocation, KindView, LocatedSite, LocatedView, Report, ReportBuilder, Severity, Summary, count_severity,
};
use crate::index::{
    all_duplicate_aliases, all_malformed, all_refs, all_uses, declarations, duplicate_anchors_of, all_anchors,
    files_with, names_of, use_count, AliasUseView, Index, MalformedSiteView, RefSiteView, Site, SiteView,
};
use crate::marker::{Alias, MarkerKind};
use crate::order::views;
use crate::resolve::{opt_text, Resolution, Unresolved, UnresolvedView, Unverified, UnverifiedView};
use crate::root::{FilePath, RootName};
use crate::scan::{SkipView, SkippedFile, WalkProblem};
use crate::span::{line_col_verdict, PositionOverflow};
use crate::suggest::{strs, suggest, suggestion};

verus! {

/// What narrows a check.
#[derive(Debug)]
pub struct CheckOptions {
    /// Overrides `[check] unverified` from config when set.
    pub unverified: Option<UnverifiedPolicy>,
    /// When non-empty, only references and malformed markers in these files are reported.
    /// Root-wide findings (duplicates, skipped files) are always reported.
    pub only_files: Vec<FilePath>,
}

impl Default for CheckOptions {
    fn default() -> (r: Self)
        ensures
            r.unverified is None,
            r.only_files@.len() == 0,
    {
        CheckOptions { unverified: None, only_files: Vec::new() }
    }
}

/// Why a check could not finish.
#[derive(Debug, PartialEq, Eq)]
pub enum CheckError {
    /// A marker offset exceeded the addressable range.
    Position(PositionOverflow),
}

/// What a root's scan learned beyond its index: files it could not check, kept for the report,
/// and the extensions it walked past, which coverage's path rule reads.
#[derive(Debug)]
pub struct ScanFindings {
    pub skipped: Vec<SkippedFile>,
    pub problems: Vec<WalkProblem>,
    pub extensions: Vec<String>,
}

/// Every present root scanned and indexed, ready for checking.
#[derive(Debug)]
pub struct Workspace {
    /// The current root's index; its root name is the current root's.
    pub index: Index,
    /// Every other declared root by name, with its index when it is present and the directory
    /// it was declared at.
    pub external: Vec<(RootName, Option<Index>, String)>,
    pub policy: UnverifiedPolicy,
    /// What each root's scan found besides markers, by root name.
    pub findings: Vec<(RootName, ScanFindings)>,
    /// How many files of the current root were scanned.
    pub files_scanned: usize,
    /// The directory of every present root, by root name.
    pub root_dirs: Vec<(RootName, String)>,
}

/// The resolver's answer for one reference, with what it offers besides: a suggestion and
/// notes for a target that does not exist.
#[derive(Debug)]
pub struct Verdict {
    pub resolution: Resolution,
    pub suggestion: Option<String>,
    pub notes: Vec<String>,
}

pub enum ResolutionView {
    Resolved,
    Unresolved(UnresolvedView),
    Unverified(UnverifiedView),
}

pub struct VerdictView {
    pub resolution: ResolutionView,
    pub suggestion: Option<Seq<char>>,
    pub notes: Seq<Seq<char>>,
}

impl View for Verdict {
    type V = VerdictView;

    open spec fn view(&self) -> VerdictView {
        VerdictView {
            resolution: match self.resolution {
                Resolution::Resolved => ResolutionView::Resolved,
                Resolution::Unresolved(u) => ResolutionView::Unresolved(u@),
                Resolution::Unverified(u) => ResolutionView::Unverified(u@),
            },
            suggestion: opt_text(self.suggestion),
            notes: crate::diagnostic::texts(self.notes@),
        }
    }
}

/// Whether a finding in the file at `path` is reported under `only`.
pub open spec fn in_scope(only: Seq<Seq<char>>, path: Seq<char>) -> bool {
    only.len() == 0 || only.contains(path)
}

/// A site placed at its line and column through the index it came from.
pub open spec fn located(index: Index, site: SiteView) -> Result<LocatedView, PositionOverflow> {
    match index.line_text(site.path) {
        None => Err(PositionOverflow { offset: site.span.0 as usize }),
        Some(t) => match line_col_verdict(t, site.span.0 as usize) {
            Ok(line_col) => Ok(LocatedView { site, line_col }),
            Err(e) => Err(e),
        },
    }
}

/// Resolves a site's line and column from its index. A site's file is always in the index it
/// came from; a position that cannot be placed is reported, not swallowed.
pub fn locate(index: &Index, site: Site) -> (r: Result<LocatedSite, PositionOverflow>)
    ensures
        match located(*index, site@) {
            Ok(l) => r matches Ok(x) && x@ == l,
            Err(e) => r == Err::<LocatedSite, PositionOverflow>(e),
        },
{
    match index.line_index(&site.path) {
        Some(line_index) => match line_index.line_col(site.span.start) {
            Ok(line_col) => Ok(LocatedSite { site, line_col }),
            Err(e) => Err(e),
        },
        None => Err(PositionOverflow { offset: site.span.start }),
    }
}

/// The builder with its groups replaced.
pub open spec fn regroup(b: BuilderView, groups: Seq<crate::diagnostic::GroupView>) -> BuilderView {
    BuilderView { groups, suggestions: b.suggestions, notes: b.notes }
}

/// The text a walk problem is reported with: its path first, when it has one.
pub open spec fn problem_text(p: (Option<Seq<char>>, Seq<char>)) -> Seq<char> {
    match p.0 {
        Some(path) => path + ": "@ + p.1,
        None => p.1,
    }
}

pub open spec fn skipped_view(v: Seq<SkippedFile>) -> Seq<(Seq<char>, SkipView)> {
    v.map_values(|s: SkippedFile| (s.path@, s.reason@))
}

pub open spec fn problems_view(v: Seq<WalkProblem>) -> Seq<(Option<Seq<char>>, Seq<char>)> {
    v.map_values(|p: WalkProblem| (opt_text(p.path), p.message@))
}

/// The builder after recording the skipped files of root `root`.
pub open spec fn with_skipped(b: BuilderView, root: Seq<char>, skipped: Seq<(Seq<char>, SkipView)>) -> BuilderView
    decreases skipped.len(),
{
    if skipped.len() == 0 {
        b
    } else {
        let before = with_skipped(b, root, skipped.drop_last());
        regroup(
            before,
            with_file(
                before.groups,
                KindView::FileSkipped { root, reason: skipped.last().1 },
                (root, skipped.last().0),
            ),
        )
    }
}

/// The builder after recording the walk problems of root `root`.
pub open spec fn with_problems(b: BuilderView, root: Seq<char>, problems: Seq<(Option<Seq<char>>, Seq<char>)>) -> BuilderView
    decreases problems.len(),
{
    if problems.len() == 0 {
        b
    } else {
        let before = with_problems(b, root, problems.drop_last());
        regroup(
            before,
            with_root(
                before.groups,
                KindView::WalkProblem { root, message: problem_text(problems.last()) },
                root,
            ),
        )
    }
}

/// The builder after recording every root's scan findings, root by root.
pub open spec fn with_findings(b: BuilderView, findings: Seq<(RootName, ScanFindings)>) -> BuilderView
    decreases findings.len(),
{
    if findings.len() == 0 {
        b
    } else {
        let before = with_findings(b, findings.drop_last());
        let (root, f) = findings.last();
        with_problems(
            with_skipped(before, root@, skipped_view(f.skipped@)),
            root@,
            problems_view(f.problems@),
        )
    }
}

/// Records one root's scan findings: each skipped file under its reason, each walk problem
/// under its message.
fn record_scan_findings(builder: &mut ReportBuilder, root: &RootName, findings: &ScanFindings)
    ensures
        final(builder)@ == with_problems(
            with_skipped(old(builder)@, root@, skipped_view(findings.skipped@)),
            root@,
            problems_view(findings.problems@),
        ),
{
    let ghost sk = skipped_view(findings.skipped@);
    let ghost start = builder@;
    let mut i: usize = 0;
    while i < findings.skipped.len()
        invariant
            i <= findings.skipped@.len(),
            sk == skipped_view(findings.skipped@),
            builder@ == with_skipped(start, root@, sk.take(i as int)),
        decreases findings.skipped.len() - i,
    {
        let skipped = &findings.skipped[i];
        assert(sk.take(i + 1).drop_last() =~= sk.take(i as int));
        assert(sk.take(i + 1).last() == (skipped.path@, skipped.reason@));
        builder.file(
            DiagnosticKind::FileSkipped { root: root.clone(), reason: skipped.reason.clone() },
            FileLocation { root: root.clone(), path: skipped.path.clone() },
        );
        i += 1;
    }
    assert(sk.take(i as int) =~= sk);
    let ghost pv = problems_view(findings.problems@);
    let ghost mid = builder@;
    let mut j: usize = 0;
    while j < findings.problems.len()
        invariant
            j <= findings.problems@.len(),
            pv == problems_view(findings.problems@),
            builder@ == with_problems(mid, root@, pv.take(j as int)),
        decreases findings.problems.len() - j,
    {
        let problem = &findings.problems[j];
        assert(pv.take(j + 1).drop_last() =~= pv.take(j as int));
        assert(pv.take(j + 1).last() == (opt_text(problem.path), problem.message@));
        let message = match &problem.path {
            Some(path) => {
                let mut m = path.clone();
                push_text(&mut m, ": ");
                push_text(&mut m, problem.message.as_str());
                m
            },
            None => problem.message.clone(),
        };
        builder.root(DiagnosticKind::WalkProblem { root: root.clone(), message }, root.clone());
        j += 1;
    }
    assert(pv.take(j as int) =~= pv);
}

/// The builder after `notes` are added to cause `k`, in order.
pub open spec fn with_notes(ns: Seq<(KindView, Seq<Seq<char>>)>, k: KindView, notes: Seq<Seq<char>>) -> Seq<
    (KindView, Seq<Seq<char>>),
>
    decreases notes.len(),
{
    if notes.len() == 0 {
        ns
    } else {
        with_note(with_notes(ns, k, notes.drop_last()), k, notes.last())
    }
}

/// How many `@[alias]` uses the file at `path` holds, as the index counts them.
pub open spec fn uses_in(index: Index, path: Seq<char>, alias: Seq<char>) -> nat {
    match files_with(index@.1, path) {
        Some(f) => use_count(f.1, alias),
        None => 0,
    }
}

/// The note that keeps the uses of a broken declaration's alias visible.
pub open spec fn alias_note_text(alias: Seq<char>, uses: nat, path: Seq<char>) -> Seq<char> {
    "alias `"@ + alias + "` has "@ + decimal(uses) + " use"@ + (if uses == 1 {
        ""@
    } else {
        "s"@
    }) + " in `"@ + path + "`"@
}

/// The builder after a broken reference that declares an alias notes how many uses it has.
pub open spec fn alias_noted(b: BuilderView, k: KindView, index: Index, path: Seq<char>, declares: Option<Seq<char>>) -> BuilderView {
    match declares {
        Some(a) => if uses_in(index, path, a) > 0 {
            BuilderView {
                groups: b.groups,
                suggestions: b.suggestions,
                notes: with_note(b.notes, k, alias_note_text(a, uses_in(index, path, a), path)),
            }
        } else {
            b
        },
        None => b,
    }
}

/// The findings so far and the counts so far.
pub type State = (BuilderView, Summary);

/// One reference checked: counted when in scope, placed, and recorded under its cause unless
/// it resolved.
pub open spec fn ref_step(st: State, index: Index, only: Seq<Seq<char>>, r: RefSiteView, v: VerdictView) -> Result<
    State,
    PositionOverflow,
> {
    if !in_scope(only, r.site.path) {
        Ok(st)
    } else {
        let s1 = Summary { refs_checked: (st.1.refs_checked + 1) as usize, ..st.1 };
        match located(index, r.site) {
            Err(e) => Err(e),
            Ok(loc) => match v.resolution {
                ResolutionView::Resolved => Ok(
                    (st.0, Summary { refs_resolved: (s1.refs_resolved + 1) as usize, ..s1 }),
                ),
                ResolutionView::Unresolved(u) => {
                    let k = KindView::Unresolved(u);
                    let b1 = BuilderView {
                        groups: st.0.groups,
                        suggestions: with_suggestion(st.0.suggestions, k, v.suggestion),
                        notes: with_notes(st.0.notes, k, v.notes),
                    };
                    let b2 = alias_noted(b1, k, index, r.site.path, r.declares);
                    Ok((regroup(b2, with_site(b2.groups, k, loc)), s1))
                },
                ResolutionView::Unverified(u) => {
                    let k = KindView::Unverified(u);
                    let b2 = alias_noted(st.0, k, index, r.site.path, r.declares);
                    Ok((regroup(b2, with_site(b2.groups, k, loc)), s1))
                },
            },
        }
    }
}

/// The state after checking `refs` in order, each with its verdict; the first position that
/// cannot be placed stops the check.
pub open spec fn after_refs(st: State, index: Index, only: Seq<Seq<char>>, refs: Seq<RefSiteView>, verdicts: Seq<VerdictView>) -> Result<
    State,
    PositionOverflow,
>
    decreases refs.len(),
{
    if refs.len() == 0 {
        Ok(st)
    } else {
        match after_refs(st, index, only, refs.drop_last(), verdicts) {
            Err(e) => Err(e),
            Ok(s2) => ref_step(s2, index, only, refs.last(), verdicts[refs.len() - 1]),
        }
    }
}

/// Whether `path` is among `only`.
fn contains_path(only: &Vec<FilePath>, path: &FilePath) -> (b: bool)
    ensures
        b == views(only@).contains(path@),
{
    let mut i: usize = 0;
    while i < only.len()
        invariant
            i <= only@.len(),
            forall|j: int| 0 <= j < i ==> (#[trigger] views(only@)[j]) != path@,
        decreases only.len() - i,
    {
        if only[i].same(path) {
            assert(views(only@)[i as int] == path@);
            return true;
        }
        i += 1;
    }
    false
}

/// Whether a finding in the file at `path` is reported under `only`.
pub(crate) fn scoped(only: &Vec<FilePath>, path: &FilePath) -> (b: bool)
    ensures
        b == in_scope(views(only@), path@),
{
    only.len() == 0 || contains_path(only, path)
}

/// A broken declaration is reported once, at the declaration; the note keeps its uses visible.
fn note_alias_uses(builder: &mut ReportBuilder, kind: &DiagnosticKind, index: &Index, path: &FilePath, alias: &Alias)
    ensures
        final(builder)@ == alias_noted(old(builder)@, kind@, *index, path@, Some(alias@)),
{
    let uses = index.alias_use_count(path, alias);
    if uses > 0 {
        let mut note = "alias `".to_owned();
        push_text(&mut note, alias.as_str());
        push_text(&mut note, "` has ");
        push_text(&mut note, &decimal_text(uses as u64));
        push_text(&mut note, " use");
        if uses != 1 {
            push_text(&mut note, "s");
        }
        push_text(&mut note, " in `");
        push_text(&mut note, path.as_str());
        push_text(&mut note, "`");
        proof {
            if uses == 1 {
                reveal_strlit("");
                assert(("alias `"@ + alias@ + "` has "@ + decimal(uses as nat) + " use"@) + ""@ =~= "alias `"@
                    + alias@ + "` has "@ + decimal(uses as nat) + " use"@);
            }
        }
        builder.note(kind, note);
    }
}

/// Adds `notes` to cause `kind`, in order.
fn add_notes(builder: &mut ReportBuilder, kind: &DiagnosticKind, notes: &Vec<String>)
    ensures
        final(builder)@.notes == with_notes(old(builder)@.notes, kind@, crate::diagnostic::texts(notes@)),
        final(builder)@.groups == old(builder)@.groups,
        final(builder)@.suggestions == old(builder)@.suggestions,
{
    let ghost nv = crate::diagnostic::texts(notes@);
    let ghost start = builder@;
    let mut i: usize = 0;
    while i < notes.len()
        invariant
            i <= notes@.len(),
            nv == crate::diagnostic::texts(notes@),
            builder@.notes == with_notes(start.notes, kind@, nv.take(i as int)),
            builder@.groups == start.groups,
            builder@.suggestions == start.suggestions,
        decreases notes.len() - i,
    {
        assert(nv.take(i + 1).drop_last() =~= nv.take(i as int));
        assert(nv.take(i + 1).last() == notes@[i as int]@);
        builder.note(kind, notes[i].clone());
        i += 1;
    }
    assert(nv.take(i as int) =~= nv);
}

fn clone_text_option(t: &Option<String>) -> (r: Option<String>)
    ensures
        opt_text(r) == opt_text(*t),
{
    match t {
        Some(s) => Some(s.clone()),
        None => None,
    }
}

/// Checks one reference against its verdict.
fn record_ref(
    builder: &mut ReportBuilder,
    summary: &mut Summary,
    index: &Index,
    only: &Vec<FilePath>,
    r: &crate::index::RefSite<'_>,
    v: &Verdict,
) -> (res: Result<(), PositionOverflow>)
    requires
        old(summary).refs_checked < usize::MAX,
        old(summary).refs_resolved < usize::MAX,
    ensures
        match ref_step((old(builder)@, *old(summary)), *index, views(only@), r@, v@) {
            Ok(st) => res is Ok && final(builder)@ == st.0 && *final(summary) == st.1,
            Err(e) => res == Err::<(), PositionOverflow>(e),
        },
{
    if !scoped(only, &r.site.path) {
        return Ok(());
    }
    summary.refs_checked = summary.refs_checked + 1;
    let located = match locate(index, r.site.clone()) {
        Ok(l) => l,
        Err(e) => return Err(e),
    };
    match &v.resolution {
        Resolution::Resolved => {
            summary.refs_resolved = summary.refs_resolved + 1;
        },
        Resolution::Unresolved(u) => {
            let kind = DiagnosticKind::Unresolved(u.clone());
            builder.suggestion(&kind, clone_text_option(&v.suggestion));
            add_notes(builder, &kind, &v.notes);
            if let Some(alias) = r.declares {
                note_alias_uses(builder, &kind, index, &r.site.path, alias);
            }
            builder.site(kind, located);
        },
        Resolution::Unverified(u) => {
            let kind = DiagnosticKind::Unverified(u.clone());
            if let Some(alias) = r.declares {
                note_alias_uses(builder, &kind, index, &r.site.path, alias);
            }
            builder.site(kind, located);
        },
    }
    Ok(())
}

/// The state after checking `refs`, each against its verdict, in order.
fn record_refs(
    builder: &mut ReportBuilder,
    summary: &mut Summary,
    index: &Index,
    only: &Vec<FilePath>,
    verdicts: &Vec<Verdict>,
) -> (res: Result<(), PositionOverflow>)
    requires
        verdicts@.len() == all_refs(index@.0, index@.1).len(),
        old(summary).refs_checked == 0,
        old(summary).refs_resolved == 0,
    ensures
        match after_refs(
            (old(builder)@, *old(summary)),
            *index,
            views(only@),
            all_refs(index@.0, index@.1),
            views(verdicts@),
        ) {
            Ok(st) => res is Ok && final(builder)@ == st.0 && *final(summary) == st.1,
            Err(e) => res == Err::<(), PositionOverflow>(e),
        },
        res is Ok ==> final(summary).alias_uses == old(summary).alias_uses,
{
    let refs = index.refs();
    let ghost rv = crate::index::refs_view(refs@);
    let ghost vv = views(verdicts@);
    let ghost start = (builder@, *summary);
    let mut i: usize = 0;
    while i < refs.len()
        invariant
            i <= refs@.len(),
            rv == crate::index::refs_view(refs@),
            rv == all_refs(index@.0, index@.1),
            vv == views(verdicts@),
            verdicts@.len() == rv.len(),
            start == (old(builder)@, *old(summary)),
            after_refs(start, *index, views(only@), rv.take(i as int), vv) == Ok::<State, PositionOverflow>(
                (builder@, *summary),
            ),
            summary.refs_checked <= i,
            summary.refs_resolved <= i,
            summary.alias_uses == start.1.alias_uses,
        decreases refs.len() - i,
    {
        assert(rv.take(i + 1).drop_last() =~= rv.take(i as int));
        assert(rv.take(i + 1).last() == refs@[i as int]@);
        assert(vv[i as int] == verdicts@[i as int]@);
        let ghost pre = (builder@, *summary);
        let step = record_ref(builder, summary, index, only, &refs[i], &verdicts[i]);
        if let Err(e) = step {
            proof {
                assert(rv.take(i + 1).len() - 1 == i);
                assert(after_refs(start, *index, views(only@), rv.take(i + 1), vv) == ref_step(
                    pre,
                    *index,
                    views(only@),
                    rv[i as int],
                    vv[i as int],
                ));
                lemma_refs_stop(start, *index, views(only@), rv, vv, i as int + 1);
                assert(after_refs(start, *index, views(only@), rv, vv) == Err::<State, PositionOverflow>(e));
            }
            return Err(e);
        }
        i += 1;
    }
    assert(rv.take(i as int) =~= rv);
    Ok(())
}

/// Once a prefix of the references stops the check, so do all of them.
proof fn lemma_refs_stop(st: State, index: Index, only: Seq<Seq<char>>, refs: Seq<RefSiteView>, verdicts: Seq<VerdictView>, n: int)
    requires
        0 <= n <= refs.len(),
        after_refs(st, index, only, refs.take(n), verdicts) is Err,
    ensures
        after_refs(st, index, only, refs, verdicts) == after_refs(st, index, only, refs.take(n), verdicts),
    decreases refs.len() - n,
{
    if n < refs.len() {
        assert(refs.take(n + 1).drop_last() =~= refs.take(n));
        lemma_refs_stop(st, index, only, refs, verdicts, n + 1);
    } else {
        assert(refs.take(n) =~= refs);
    }
}

/// The aliases the file at `path` declares, each once.
pub open spec fn declared_names(index: Index, path: Seq<char>) -> Seq<Seq<char>> {
    match files_with(index@.1, path) {
        Some(f) => names_of(declarations(f.1)),
        None => Seq::empty(),
    }
}

/// One alias use checked: counted when bound, recorded as undeclared otherwise.
pub open spec fn use_step(st: State, index: Index, only: Seq<Seq<char>>, u: AliasUseView) -> Result<State, PositionOverflow> {
    if !in_scope(only, u.site.path) {
        Ok(st)
    } else if u.binding is Some {
        Ok((st.0, Summary { alias_uses: (st.1.alias_uses + 1) as usize, ..st.1 }))
    } else {
        let k = KindView::AliasUndeclared { root: index@.0, path: u.site.path, alias: u.alias };
        let b1 = BuilderView {
            groups: st.0.groups,
            suggestions: with_suggestion(
                st.0.suggestions,
                k,
                suggestion(u.alias, declared_names(index, u.site.path), None),
            ),
            notes: st.0.notes,
        };
        match located(index, u.site) {
            Err(e) => Err(e),
            Ok(loc) => Ok((regroup(b1, with_site(b1.groups, k, loc)), st.1)),
        }
    }
}

pub open spec fn after_uses(st: State, index: Index, only: Seq<Seq<char>>, uses: Seq<AliasUseView>) -> Result<
    State,
    PositionOverflow,
>
    decreases uses.len(),
{
    if uses.len() == 0 {
        Ok(st)
    } else {
        match after_uses(st, index, only, uses.drop_last()) {
            Err(e) => Err(e),
            Ok(s2) => use_step(s2, index, only, uses.last()),
        }
    }
}

proof fn lemma_uses_stop(st: State, index: Index, only: Seq<Seq<char>>, uses: Seq<AliasUseView>, n: int)
    requires
        0 <= n <= uses.len(),
        after_uses(st, index, only, uses.take(n)) is Err,
    ensures
        after_uses(st, index, only, uses) == after_uses(st, index, only, uses.take(n)),
    decreases uses.len() - n,
{
    if n < uses.len() {
        assert(uses.take(n + 1).drop_last() =~= uses.take(n));
        lemma_uses_stop(st, index, only, uses, n + 1);
    } else {
        assert(uses.take(n) =~= uses);
    }
}

/// The aliases the file at `path` declares, for suggestions.
fn declared_aliases<'a>(index: &'a Index, path: &FilePath) -> (r: Vec<&'a str>)
    ensures
        strs(r@) == declared_names(*index, path@),
{
    match index.file_record(path) {
        Some(record) => {
            let aliases = record.aliases.aliases();
            let ghost names = aliases@.map_values(|a: &Alias| a@);
            let mut out: Vec<&str> = Vec::new();
            let mut i: usize = 0;
            while i < aliases.len()
                invariant
                    i <= aliases@.len(),
                    names == aliases@.map_values(|a: &Alias| a@),
                    strs(out@) == names.take(i as int),
                decreases aliases.len() - i,
            {
                let ghost before = strs(out@);
                out.push(aliases[i].as_str());
                assert(strs(out@) =~= before.push(names[i as int]));
                assert(names.take(i + 1) =~= names.take(i as int).push(names[i as int]));
                i += 1;
            }
            assert(names.take(i as int) =~= names);
            out
        },
        None => {
            let out: Vec<&str> = Vec::new();
            assert(strs(out@) =~= Seq::<Seq<char>>::empty());
            out
        },
    }
}

fn record_use(
    builder: &mut ReportBuilder,
    summary: &mut Summary,
    index: &Index,
    only: &Vec<FilePath>,
    u: &crate::index::AliasUse<'_>,
) -> (res: Result<(), PositionOverflow>)
    requires
        old(summary).alias_uses < usize::MAX,
    ensures
        match use_step((old(builder)@, *old(summary)), *index, views(only@), u@) {
            Ok(st) => res is Ok && final(builder)@ == st.0 && *final(summary) == st.1,
            Err(e) => res == Err::<(), PositionOverflow>(e),
        },
{
    if !scoped(only, &u.site.path) {
        return Ok(());
    }
    if u.binding.is_some() {
        summary.alias_uses = summary.alias_uses + 1;
        return Ok(());
    }
    let kind = DiagnosticKind::AliasUndeclared {
        root: index.root().clone(),
        path: u.site.path.clone(),
        alias: u.alias.clone(),
    };
    let declared = declared_aliases(index, &u.site.path);
    builder.suggestion(&kind, suggest(u.alias.as_str(), &declared));
    let located = match locate(index, u.site.clone()) {
        Ok(l) => l,
        Err(e) => return Err(e),
    };
    builder.site(kind, located);
    Ok(())
}

fn record_uses(builder: &mut ReportBuilder, summary: &mut Summary, index: &Index, only: &Vec<FilePath>) -> (res: Result<
    (),
    PositionOverflow,
>)
    requires
        old(summary).alias_uses == 0,
    ensures
        match after_uses((old(builder)@, *old(summary)), *index, views(only@), all_uses(index@.0, index@.1)) {
            Ok(st) => res is Ok && final(builder)@ == st.0 && *final(summary) == st.1,
            Err(e) => res == Err::<(), PositionOverflow>(e),
        },
{
    let uses = index.alias_uses();
    let ghost uv = crate::index::uses_view(uses@);
    let ghost start = (builder@, *summary);
    let mut i: usize = 0;
    while i < uses.len()
        invariant
            i <= uses@.len(),
            uv == crate::index::uses_view(uses@),
            uv == all_uses(index@.0, index@.1),
            start == (old(builder)@, *old(summary)),
            after_uses(start, *index, views(only@), uv.take(i as int)) == Ok::<State, PositionOverflow>(
                (builder@, *summary),
            ),
            summary.alias_uses <= i,
        decreases uses.len() - i,
    {
        assert(uv.take(i + 1).drop_last() =~= uv.take(i as int));
        assert(uv.take(i + 1).last() == uses@[i as int]@);
        let ghost pre = (builder@, *summary);
        let step = record_use(builder, summary, index, only, &uses[i]);
        if let Err(e) = step {
            proof {
                assert(after_uses(start, *index, views(only@), uv.take(i + 1)) == use_step(
                    pre,
                    *index,
                    views(only@),
                    uv[i as int],
                ));
                lemma_uses_stop(start, *index, views(only@), uv, i as int + 1);
            }
            return Err(e);
        }
        i += 1;
    }
    assert(uv.take(i as int) =~= uv);
    Ok(())
}

/// The builder after every one of `sites` is placed and recorded under cause `k`.
pub open spec fn with_sites(b: BuilderView, index: Index, k: KindView, sites: Seq<SiteView>) -> Result<
    BuilderView,
    PositionOverflow,
>
    decreases sites.len(),
{
    if sites.len() == 0 {
        Ok(b)
    } else {
        match with_sites(b, index, k, sites.drop_last()) {
            Err(e) => Err(e),
            Ok(b2) => match located(index, sites.last()) {
                Err(e) => Err(e),
                Ok(loc) => Ok(regroup(b2, with_site(b2.groups, k, loc))),
            },
        }
    }
}

proof fn lemma_sites_stop(b: BuilderView, index: Index, k: KindView, sites: Seq<SiteView>, n: int)
    requires
        0 <= n <= sites.len(),
        with_sites(b, index, k, sites.take(n)) is Err,
    ensures
        with_sites(b, index, k, sites) == with_sites(b, index, k, sites.take(n)),
    decreases sites.len() - n,
{
    if n < sites.len() {
        assert(sites.take(n + 1).drop_last() =~= sites.take(n));
        lemma_sites_stop(b, index, k, sites, n + 1);
    } else {
        assert(sites.take(n) =~= sites);
    }
}

/// Records every one of `sites` under `kind`.
fn record_sites(builder: &mut ReportBuilder, index: &Index, kind: &DiagnosticKind, sites: &Vec<Site>) -> (res: Result<
    (),
    PositionOverflow,
>)
    ensures
        match with_sites(old(builder)@, *index, kind@, views(sites@)) {
            Ok(b) => res is Ok && final(builder)@ == b,
            Err(e) => res == Err::<(), PositionOverflow>(e),
        },
{
    let ghost sv = views(sites@);
    let ghost start = builder@;
    let mut i: usize = 0;
    while i < sites.len()
        invariant
            i <= sites@.len(),
            sv == views(sites@),
            start == old(builder)@,
            with_sites(start, *index, kind@, sv.take(i as int)) == Ok::<BuilderView, PositionOverflow>(builder@),
        decreases sites.len() - i,
    {
        assert(sv.take(i + 1).drop_last() =~= sv.take(i as int));
        assert(sv.take(i + 1).last() == sites@[i as int]@);
        match locate(index, sites[i].clone()) {
            Ok(located) => builder.site(kind.clone(), located),
            Err(e) => {
                proof {
                    assert(with_sites(start, *index, kind@, sv.take(i + 1)) == Err::<BuilderView, PositionOverflow>(e));
                    lemma_sites_stop(start, *index, kind@, sv, i as int + 1);
                }
                return Err(e);
            },
        }
        i += 1;
    }
    assert(sv.take(i as int) =~= sv);
    Ok(())
}

/// The builder after recording each alias declared more than once in a file in scope, at
/// every declaration.
pub open spec fn after_duplicate_aliases(
    b: BuilderView,
    index: Index,
    only: Seq<Seq<char>>,
    dups: Seq<(Seq<char>, Seq<char>, Seq<SiteView>)>,
) -> Result<BuilderView, PositionOverflow>
    decreases dups.len(),
{
    if dups.len() == 0 {
        Ok(b)
    } else {
        match after_duplicate_aliases(b, index, only, dups.drop_last()) {
            Err(e) => Err(e),
            Ok(b2) => {
                let d = dups.last();
                if !in_scope(only, d.0) {
                    Ok(b2)
                } else {
                    with_sites(b2, index, KindView::AliasDuplicate { root: index@.0, path: d.0, alias: d.1 }, d.2)
                }
            },
        }
    }
}

/// The builder after recording each malformed marker in scope.
pub open spec fn after_malformed(b: BuilderView, index: Index, only: Seq<Seq<char>>, ms: Seq<MalformedSiteView>) -> Result<
    BuilderView,
    PositionOverflow,
>
    decreases ms.len(),
{
    if ms.len() == 0 {
        Ok(b)
    } else {
        match after_malformed(b, index, only, ms.drop_last()) {
            Err(e) => Err(e),
            Ok(b2) => {
                let m = ms.last();
                if !in_scope(only, m.site.path) {
                    Ok(b2)
                } else {
                    match located(index, m.site) {
                        Err(e) => Err(e),
                        Ok(loc) => Ok(
                            regroup(
                                b2,
                                with_site(
                                    b2.groups,
                                    KindView::Malformed { kind: m.malformed.kind, reason: m.malformed.reason },
                                    loc,
                                ),
                            ),
                        ),
                    }
                }
            },
        }
    }
}

/// The cause a duplicate anchor is recorded under: an error in the current root, a note-worthy
/// but unfixable finding in an external one.
pub open spec fn duplicate_kind(root: Seq<char>, id: Seq<char>, external: bool) -> KindView {
    if external {
        KindView::ExternalDuplicate { root, id }
    } else {
        KindView::DuplicateAnchor { root, id }
    }
}

/// The builder after recording each duplicated anchor id of `index` at all its sites.
pub open spec fn after_duplicate_anchors(
    b: BuilderView,
    index: Index,
    dups: Seq<(Seq<char>, Seq<SiteView>)>,
    external: bool,
) -> Result<BuilderView, PositionOverflow>
    decreases dups.len(),
{
    if dups.len() == 0 {
        Ok(b)
    } else {
        match after_duplicate_anchors(b, index, dups.drop_last(), external) {
            Err(e) => Err(e),
            Ok(b2) => with_sites(b2, index, duplicate_kind(index@.0, dups.last().0, external), dups.last().1),
        }
    }
}

/// The duplicated anchor ids of an index, each with its sites sorted.
pub open spec fn duplicates_in(index: Index) -> Seq<(Seq<char>, Seq<SiteView>)> {
    duplicate_anchors_of(all_anchors(index@.0, index@.1), all_anchors(index@.0, index@.1).len() as int)
}

/// The builder after recording the duplicate anchors of every present external root, root by
/// root.
pub open spec fn after_external(b: BuilderView, external: Seq<(RootName, Option<Index>, String)>) -> Result<
    BuilderView,
    PositionOverflow,
>
    decreases external.len(),
{
    if external.len() == 0 {
        Ok(b)
    } else {
        match after_external(b, external.drop_last()) {
            Err(e) => Err(e),
            Ok(b2) => match external.last().1 {
                Some(index) => after_duplicate_anchors(b2, index, duplicates_in(index), true),
                None => Ok(b2),
            },
        }
    }
}

proof fn lemma_dup_aliases_stop(
    b: BuilderView,
    index: Index,
    only: Seq<Seq<char>>,
    dups: Seq<(Seq<char>, Seq<char>, Seq<SiteView>)>,
    n: int,
)
    requires
        0 <= n <= dups.len(),
        after_duplicate_aliases(b, index, only, dups.take(n)) is Err,
    ensures
        after_duplicate_aliases(b, index, only, dups) == after_duplicate_aliases(b, index, only, dups.take(n)),
    decreases dups.len() - n,
{
    if n < dups.len() {
        assert(dups.take(n + 1).drop_last() =~= dups.take(n));
        lemma_dup_aliases_stop(b, index, only, dups, n + 1);
    } else {
        assert(dups.take(n) =~= dups);
    }
}

proof fn lemma_malformed_stop(b: BuilderView, index: Index, only: Seq<Seq<char>>, ms: Seq<MalformedSiteView>, n: int)
    requires
        0 <= n <= ms.len(),
        after_malformed(b, index, only, ms.take(n)) is Err,
    ensures
        after_malformed(b, index, only, ms) == after_malformed(b, index, only, ms.take(n)),
    decreases ms.len() - n,
{
    if n < ms.len() {
        assert(ms.take(n + 1).drop_last() =~= ms.take(n));
        lemma_malformed_stop(b, index, only, ms, n + 1);
    } else {
        assert(ms.take(n) =~= ms);
    }
}

proof fn lemma_dup_anchors_stop(b: BuilderView, index: Index, dups: Seq<(Seq<char>, Seq<SiteView>)>, external: bool, n: int)
    requires
        0 <= n <= dups.len(),
        after_duplicate_anchors(b, index, dups.take(n), external) is Err,
    ensures
        after_duplicate_anchors(b, index, dups, external) == after_duplicate_anchors(b, index, dups.take(n), external),
    decreases dups.len() - n,
{
    if n < dups.len() {
        assert(dups.take(n + 1).drop_last() =~= dups.take(n));
        lemma_dup_anchors_stop(b, index, dups, external, n + 1);
    } else {
        assert(dups.take(n) =~= dups);
    }
}

proof fn lemma_external_stop(b: BuilderView, external: Seq<(RootName, Option<Index>, String)>, n: int)
    requires
        0 <= n <= external.len(),
        after_external(b, external.take(n)) is Err,
    ensures
        after_external(b, external) == after_external(b, external.take(n)),
    decreases external.len() - n,
{
    if n < external.len() {
        assert(external.take(n + 1).drop_last() =~= external.take(n));
        lemma_external_stop(b, external, n + 1);
    } else {
        assert(external.take(n) =~= external);
    }
}

fn record_duplicate_aliases(builder: &mut ReportBuilder, index: &Index, only: &Vec<FilePath>) -> (res: Result<
    (),
    PositionOverflow,
>)
    ensures
        match after_duplicate_aliases(old(builder)@, *index, views(only@), all_duplicate_aliases(index@.0, index@.1)) {
            Ok(b) => res is Ok && final(builder)@ == b,
            Err(e) => res == Err::<(), PositionOverflow>(e),
        },
{
    let dups = index.duplicate_aliases();
    let ghost dv = dups@.map_values(|d: (&FilePath, &Alias, Vec<Site>)| crate::index::duplicate_view(d));
    let ghost start = builder@;
    let mut i: usize = 0;
    while i < dups.len()
        invariant
            i <= dups@.len(),
            dv == dups@.map_values(|d: (&FilePath, &Alias, Vec<Site>)| crate::index::duplicate_view(d)),
            dv == all_duplicate_aliases(index@.0, index@.1),
            start == old(builder)@,
            after_duplicate_aliases(start, *index, views(only@), dv.take(i as int)) == Ok::<
                BuilderView,
                PositionOverflow,
            >(builder@),
        decreases dups.len() - i,
    {
        assert(dv.take(i + 1).drop_last() =~= dv.take(i as int));
        assert(dv.take(i + 1).last() == dv[i as int]);
        let (path, alias, sites) = (dups[i].0, dups[i].1, &dups[i].2);
        assert(dv[i as int] == (path@, alias@, views(sites@)));
        if scoped(only, path) {
            let kind = DiagnosticKind::AliasDuplicate { root: index.root().clone(), path: path.clone(), alias: alias.clone() };
            let ghost pre = builder@;
            let step = record_sites(builder, index, &kind, sites);
            if let Err(e) = step {
                proof {
                    assert(after_duplicate_aliases(start, *index, views(only@), dv.take(i + 1)) == with_sites(
                        pre,
                        *index,
                        kind@,
                        views(sites@),
                    ));
                    lemma_dup_aliases_stop(start, *index, views(only@), dv, i as int + 1);
                }
                return Err(e);
            }
        }
        i += 1;
    }
    assert(dv.take(i as int) =~= dv);
    Ok(())
}

fn record_malformed(builder: &mut ReportBuilder, index: &Index, only: &Vec<FilePath>) -> (res: Result<
    (),
    PositionOverflow,
>)
    ensures
        match after_malformed(old(builder)@, *index, views(only@), all_malformed(index@.0, index@.1)) {
            Ok(b) => res is Ok && final(builder)@ == b,
            Err(e) => res == Err::<(), PositionOverflow>(e),
        },
{
    let ms = index.malformed();
    let ghost mv = crate::index::malformed_sites_view(ms@);
    let ghost start = builder@;
    let mut i: usize = 0;
    while i < ms.len()
        invariant
            i <= ms@.len(),
            mv == crate::index::malformed_sites_view(ms@),
            mv == all_malformed(index@.0, index@.1),
            start == old(builder)@,
            after_malformed(start, *index, views(only@), mv.take(i as int)) == Ok::<BuilderView, PositionOverflow>(
                builder@,
            ),
        decreases ms.len() - i,
    {
        assert(mv.take(i + 1).drop_last() =~= mv.take(i as int));
        assert(mv.take(i + 1).last() == ms@[i as int]@);
        let m = &ms[i];
        if scoped(only, &m.site.path) {
            let ghost pre = builder@;
            match locate(index, m.site.clone()) {
                Ok(located) => {
                    builder.site(
                        DiagnosticKind::Malformed { kind: m.malformed.kind, reason: m.malformed.reason.clone() },
                        located,
                    );
                },
                Err(e) => {
                    proof {
                        assert(after_malformed(start, *index, views(only@), mv.take(i + 1)) == Err::<
                            BuilderView,
                            PositionOverflow,
                        >(e));
                        lemma_malformed_stop(start, *index, views(only@), mv, i as int + 1);
                    }
                    return Err(e);
                },
            }
        }
        i += 1;
    }
    assert(mv.take(i as int) =~= mv);
    Ok(())
}

fn record_duplicate_anchors(builder: &mut ReportBuilder, index: &Index, external: bool) -> (res: Result<
    (),
    PositionOverflow,
>)
    ensures
        match after_duplicate_anchors(old(builder)@, *index, duplicates_in(*index), external) {
            Ok(b) => res is Ok && final(builder)@ == b,
            Err(e) => res == Err::<(), PositionOverflow>(e),
        },
{
    let dups = index.duplicate_anchors();
    let ghost dv = dups@.map_values(|d: (&crate::marker::AnchorId, Vec<Site>)| (d.0@, d.1@.map_values(|s: Site| s@)));
    let ghost start = builder@;
    let mut i: usize = 0;
    while i < dups.len()
        invariant
            i <= dups@.len(),
            dv == dups@.map_values(|d: (&crate::marker::AnchorId, Vec<Site>)| (d.0@, d.1@.map_values(|s: Site| s@))),
            dv == duplicates_in(*index),
            start == old(builder)@,
            after_duplicate_anchors(start, *index, dv.take(i as int), external) == Ok::<BuilderView, PositionOverflow>(
                builder@,
            ),
        decreases dups.len() - i,
    {
        assert(dv.take(i + 1).drop_last() =~= dv.take(i as int));
        assert(dv.take(i + 1).last() == dv[i as int]);
        let (id, sites) = (dups[i].0, &dups[i].1);
        assert(dv[i as int] == (id@, views(sites@)));
        let kind = if external {
            DiagnosticKind::ExternalDuplicate { root: index.root().clone(), id: id.clone() }
        } else {
            DiagnosticKind::DuplicateAnchor { root: index.root().clone(), id: id.clone() }
        };
        let ghost pre = builder@;
        let step = record_sites(builder, index, &kind, sites);
        if let Err(e) = step {
            proof {
                assert(after_duplicate_anchors(start, *index, dv.take(i + 1), external) == with_sites(
                    pre,
                    *index,
                    kind@,
                    views(sites@),
                ));
                lemma_dup_anchors_stop(start, *index, dv, external, i as int + 1);
            }
            return Err(e);
        }
        i += 1;
    }
    assert(dv.take(i as int) =~= dv);
    Ok(())
}

fn record_external(builder: &mut ReportBuilder, external: &Vec<(RootName, Option<Index>, String)>) -> (res: Result<
    (),
    PositionOverflow,
>)
    ensures
        match after_external(old(builder)@, external@) {
            Ok(b) => res is Ok && final(builder)@ == b,
            Err(e) => res == Err::<(), PositionOverflow>(e),
        },
{
    let ghost ev = external@;
    let ghost start = builder@;
    let mut i: usize = 0;
    while i < external.len()
        invariant
            i <= external@.len(),
            ev == external@,
            start == old(builder)@,
            after_external(start, ev.take(i as int)) == Ok::<BuilderView, PositionOverflow>(builder@),
        decreases external.len() - i,
    {
        assert(ev.take(i + 1).drop_last() =~= ev.take(i as int));
        assert(ev.take(i + 1).last() == ev[i as int]);
        match &external[i].1 {
            Some(index) => {
                let ghost pre = builder@;
                let step = record_duplicate_anchors(builder, index, true);
                if let Err(e) = step {
                    proof {
                        assert(after_external(start, ev.take(i + 1)) == after_duplicate_anchors(
                            pre,
                            *index,
                            duplicates_in(*index),
                            true,
                        ));
                        lemma_external_stop(start, ev, i as int + 1);
                    }
                    return Err(e);
                }
            },
            None => {},
        }
        i += 1;
    }
    assert(ev.take(i as int) =~= ev);
    Ok(())
}

/// How many of the external roots are present.
pub open spec fn present_count(external: Seq<(RootName, Option<Index>, String)>) -> nat
    decreases external.len(),
{
    if external.len() == 0 {
        0
    } else {
        present_count(external.drop_last()) + if external.last().1 is Some {
            1nat
        } else {
            0nat
        }
    }
}

/// A builder that has recorded nothing.
pub open spec fn empty_builder() -> BuilderView {
    BuilderView { groups: Seq::empty(), suggestions: Seq::empty(), notes: Seq::empty() }
}

/// The counts a check starts from: every present root, the current root's scanned files and
/// anchors, nothing checked yet.
pub open spec fn initial_summary(ws: Workspace) -> Summary {
    Summary {
        roots_scanned: (present_count(ws.external@) + 1) as usize,
        files_scanned: ws.files_scanned,
        anchors: all_anchors(ws.index@.0, ws.index@.1).len() as usize,
        refs_checked: 0,
        refs_resolved: 0,
        alias_uses: 0,
        errors: 0,
        unverified: 0,
    }
}

/// What a check records, in order: every root's scan findings, the current root's references
/// with their verdicts, its alias uses, aliases declared twice, malformed markers, duplicate
/// anchors, and then the duplicate anchors of each present external root.
pub open spec fn check_result(ws: Workspace, only: Seq<Seq<char>>, verdicts: Seq<VerdictView>) -> Result<
    State,
    PositionOverflow,
> {
    let index = ws.index;
    let b1 = with_findings(empty_builder(), ws.findings@);
    match after_refs((b1, initial_summary(ws)), index, only, all_refs(index@.0, index@.1), verdicts) {
        Err(e) => Err(e),
        Ok(s2) => match after_uses(s2, index, only, all_uses(index@.0, index@.1)) {
            Err(e) => Err(e),
            Ok(s3) => match after_duplicate_aliases(s3.0, index, only, all_duplicate_aliases(index@.0, index@.1)) {
                Err(e) => Err(e),
                Ok(b4) => match after_malformed(b4, index, only, all_malformed(index@.0, index@.1)) {
                    Err(e) => Err(e),
                    Ok(b5) => match after_duplicate_anchors(b5, index, duplicates_in(index), false) {
                        Err(e) => Err(e),
                        Ok(b6) => match after_external(b6, ws.external@) {
                            Err(e) => Err(e),
                            Ok(b7) => Ok((b7, s3.1)),
                        },
                    },
                },
            },
        },
    }
}

/// The policy a check applies: the options' override, else the configured one.
pub open spec fn chosen_policy(ws: Workspace, options: CheckOptions) -> UnverifiedPolicy {
    match options.unverified {
        Some(p) => p,
        None => ws.policy,
    }
}

/// Root directories by value.
pub open spec fn dirs_view(dirs: Seq<(RootName, String)>) -> Seq<(Seq<char>, Seq<char>)> {
    dirs.map_values(|d: (RootName, String)| (d.0@, d.1@))
}

fn clone_dirs(dirs: &Vec<(RootName, String)>) -> (r: Vec<(RootName, String)>)
    ensures
        dirs_view(r@) == dirs_view(dirs@),
{
    let mut r: Vec<(RootName, String)> = Vec::new();
    let mut i: usize = 0;
    while i < dirs.len()
        invariant
            i <= dirs@.len(),
            dirs_view(r@) == dirs_view(dirs@).take(i as int),
        decreases dirs.len() - i,
    {
        let ghost before = dirs_view(r@);
        r.push((dirs[i].0.clone(), dirs[i].1.clone()));
        assert(dirs_view(r@) =~= before.push((dirs@[i as int].0@, dirs@[i as int].1@)));
        assert(dirs_view(dirs@).take(i + 1) =~= dirs_view(dirs@).take(i as int).push(
            (dirs@[i as int].0@, dirs@[i as int].1@),
        ));
        i += 1;
    }
    assert(dirs_view(dirs@).take(i as int) =~= dirs_view(dirs@));
    r
}

/// Checks the current root: every reference against its verdict from the resolver, every alias
/// use, every malformed marker, and duplicate anchors here and in external roots. Findings are
/// grouped by cause; references, alias uses and malformed markers outside `only_files` are left
/// out when it is non-empty.
pub fn check(workspace: &Workspace, options: &CheckOptions, verdicts: &Vec<Verdict>) -> (r: Result<
    Report,
    CheckError,
>)
    requires
        verdicts@.len() == all_refs(workspace.index@.0, workspace.index@.1).len(),
        workspace.external@.len() < usize::MAX,
    ensures
        match check_result(*workspace, views(options.only_files@), views(verdicts@)) {
            Ok(st) => r matches Ok(report) && views(report.diagnostics@) == report_of(
                st.0,
                chosen_policy(*workspace, *options),
            ) && report.summary == (Summary {
                errors: count_severity(report_of(st.0, chosen_policy(*workspace, *options)), Severity::Error) as usize,
                unverified: count_severity(report_of(st.0, chosen_policy(*workspace, *options)), Severity::Unverified)
                    as usize,
                ..st.1
            }) && report.policy == chosen_policy(*workspace, *options) && dirs_view(report.root_dirs@) == dirs_view(
                workspace.root_dirs@,
            ),
            Err(e) => r == Err::<Report, CheckError>(CheckError::Position(e)),
        },
{
    let policy = match options.unverified {
        Some(p) => p,
        None => workspace.policy,
    };
    let index = &workspace.index;
    let only = &options.only_files;

    let mut roots_scanned: usize = 1;
    let mut k: usize = 0;
    while k < workspace.external.len()
        invariant
            k <= workspace.external@.len(),
            workspace.external@.len() < usize::MAX,
            roots_scanned == present_count(workspace.external@.take(k as int)) + 1,
            roots_scanned <= k + 1,
        decreases workspace.external.len() - k,
    {
        assert(workspace.external@.take(k + 1).drop_last() =~= workspace.external@.take(k as int));
        if workspace.external[k].1.is_some() {
            roots_scanned = roots_scanned + 1;
        }
        k += 1;
    }
    assert(workspace.external@.take(k as int) =~= workspace.external@);

    let mut builder = ReportBuilder::default();
    let mut summary = Summary {
        roots_scanned,
        files_scanned: workspace.files_scanned,
        anchors: index.anchor_count(),
        ..Summary::default()
    };
    assert(summary == initial_summary(*workspace));
    assert(builder@ == empty_builder()) by {
        assert(builder@.groups =~= Seq::<crate::diagnostic::GroupView>::empty());
        assert(builder@.suggestions =~= Seq::<(KindView, Seq<char>)>::empty());
        assert(builder@.notes =~= Seq::<(KindView, Seq<Seq<char>>)>::empty());
    }

    let ghost fs = workspace.findings@;
    let mut f: usize = 0;
    while f < workspace.findings.len()
        invariant
            f <= fs.len(),
            fs == workspace.findings@,
            builder@ == with_findings(empty_builder(), fs.take(f as int)),
        decreases workspace.findings.len() - f,
    {
        assert(fs.take(f + 1).drop_last() =~= fs.take(f as int));
        assert(fs.take(f + 1).last() == fs[f as int]);
        record_scan_findings(&mut builder, &workspace.findings[f].0, &workspace.findings[f].1);
        f += 1;
    }
    assert(fs.take(f as int) =~= fs);

    if let Err(e) = record_refs(&mut builder, &mut summary, index, only, verdicts) {
        return Err(CheckError::Position(e));
    }
    if let Err(e) = record_uses(&mut builder, &mut summary, index, only) {
        return Err(CheckError::Position(e));
    }
    if let Err(e) = record_duplicate_aliases(&mut builder, index, only) {
        return Err(CheckError::Position(e));
    }
    if let Err(e) = record_malformed(&mut builder, index, only) {
        return Err(CheckError::Position(e));
    }
    if let Err(e) = record_duplicate_anchors(&mut builder, index, false) {
        return Err(CheckError::Position(e));
    }
    if let Err(e) = record_external(&mut builder, &workspace.external) {
        return Err(CheckError::Position(e));
    }
    Ok(builder.finish(policy, summary, clone_dirs(&workspace.root_dirs)))
}

} // verus!
