//! Reference-shaped strings that carry no marker yet. Opt-in markers give soundness on what is
//! annotated and nothing on what is not; coverage reports the strings that carry no marker, and
//! annotation proposes markers only where the target already resolves.
pub mod fallback;
pub mod linguist;
pub mod token;

use vstd::prelude::*;

use vstd::string::StringSliceAdditionalSpecFns;
use vstd::utf8::{decode_utf8, encode_utf8, is_char_boundary};

use crate::chars::{less_path, less_text, path_less, push_text, same_text, str_slice, text_less};
use crate::order::{lemma_sorted_elements, lemma_sorted_in_order, sort_items, sorted, strict_weak, views, Ordered};
use crate::index::{less_site, site_less};
use crate::coverage::token::{aliases_view, tokens, tokens_of, tokens_view, KnownExtensions, PathShape, Shape, ShapeView, TokenSpec};
use crate::edit::TextEdit;
use crate::index::{all_refs, all_unused, all_uses, declarations, files_with, names_of, site_of, FileRecord, FileView, Index, Site, SiteView};
use crate::check::in_scope;
use crate::marker::lex::{markers_view, malformed_view, MarkerSpec, MalformedSpec};
use crate::marker::{MarkerPayload, NoRefItem, PayloadView};
use crate::noref::unused_of;
use crate::marker::{Alias, NoRefEntry};
use crate::noref::{first_match, NoRefSet};
use crate::marker::noref::portable_candidate;
use crate::rename::{add_to_groups, edit_view, grouped, groups_view, EditView};
use crate::root::{FilePath, RootName};
use crate::span::ByteSpan;
use crate::text::{RegionKind, TextRegion};

verus! {

/// What coverage concluded about one token.
#[derive(Debug, Clone, PartialEq, Eq, Hash)]
pub enum CandidateKind {
    /// The target resolves; replacing the token with this marker would add a checked
    /// reference without introducing an error.
    Proposal { replacement: String },
    /// Reference-shaped but does not resolve: quite possibly a stale reference in prose.
    Unresolvable { reason: String },
    /// Declared with `as` in this file and never written as `@[alias]`. Advisory only, never
    /// an edit: the fix is to use it or drop the clause.
    UnusedAlias { alias: Alias },
    /// Listed in this file's `@noref[...]` and matched nothing. Advisory only: the fix is to
    /// drop the entry.
    UnusedIgnore { entry: NoRefEntry },
}

/// One site of a token.
#[derive(Debug, Clone, PartialEq, Eq)]
pub struct CandidateSite {
    pub site: Site,
    /// The bytes a proposal would replace: the token, or the whole code span when the token
    /// is all the code span holds (a marker inside backticks would not be checked).
    pub text: String,
}

/// The sites that share a string and what coverage concluded about it: the same string in a
/// thousand files is one entry with a thousand sites.
#[derive(Debug, Clone, PartialEq, Eq)]
pub struct CandidateGroup {
    pub kind: CandidateKind,
    /// The token as the author wrote it, without the backticks a code span adds.
    pub token: String,
    /// Sorted by root, path, and span.
    pub sites: Vec<CandidateSite>,
}

/// The counts a coverage run reports.
#[derive(Debug, Clone, Copy, PartialEq, Eq, Structural)]
pub struct CoverageSummary {
    /// Direct references plus bound alias uses: every checked mention.
    pub annotated_refs: usize,
    pub proposals: usize,
    pub unresolvable: usize,
    /// Not reference-shaped strings, so not part of `total`.
    pub unused_aliases: usize,
    /// Tokens an ignore list suppressed. The author has said they are not references, so they
    /// are not part of `total` either.
    pub ignored: usize,
    /// `@noref` entries plus `[ignore] tokens` entries that matched nothing.
    pub unused_ignores: usize,
}

impl CoverageSummary {
    /// Reference-shaped strings, annotated or not.
    pub fn total(&self) -> (n: usize)
        requires
            self.annotated_refs + self.proposals + self.unresolvable <= usize::MAX,
        ensures
            n == self.annotated_refs + self.proposals + self.unresolvable,
    {
        self.annotated_refs + self.proposals + self.unresolvable
    }
}

impl Default for CoverageSummary {
    fn default() -> (r: Self)
        ensures
            r == (CoverageSummary {
                annotated_refs: 0,
                proposals: 0,
                unresolvable: 0,
                unused_aliases: 0,
                ignored: 0,
                unused_ignores: 0,
            }),
    {
        CoverageSummary {
            annotated_refs: 0,
            proposals: 0,
            unresolvable: 0,
            unused_aliases: 0,
            ignored: 0,
            unused_ignores: 0,
        }
    }
}

/// What a coverage run found.
#[derive(Debug, Clone, PartialEq, Eq)]
pub struct CoverageReport {
    /// Proposals first, then unresolvable strings, then the advisories; within a kind the
    /// groups with the most sites come first, ties broken by token.
    pub candidates: Vec<CandidateGroup>,
    /// `[ignore] tokens` entries that matched nothing. Not candidates: they have no site in
    /// an indexed file.
    pub unused_config_ignores: Vec<NoRefEntry>,
    pub summary: CoverageSummary,
}

/// The edits a group proposes, one per site, each with the file it applies to.
pub open spec fn group_edits(g: CandidateGroup) -> Seq<(Seq<char>, EditView)> {
    match g.kind {
        CandidateKind::Proposal { replacement } => g.sites@.map_values(
            |c: CandidateSite|
                (
                    c.site.path@,
                    ((c.site.span.start as int, c.site.span.end as int), c.text@, replacement@),
                ),
        ),
        _ => Seq::empty(),
    }
}

/// Every proposed edit, group by group.
pub open spec fn planned_edits(groups: Seq<CandidateGroup>) -> Seq<(Seq<char>, EditView)>
    decreases groups.len(),
{
    if groups.len() == 0 {
        Seq::empty()
    } else {
        planned_edits(groups.drop_last()) + group_edits(groups.last())
    }
}

/// `grouped` over a longer list is `grouped` over its prefix with the rest inserted.
proof fn lemma_grouped_push(planned: Seq<(Seq<char>, EditView)>, x: (Seq<char>, EditView))
    ensures
        grouped(planned.push(x)) == crate::rename::group_insert(grouped(planned), x.0, x.1),
{
    assert(planned.push(x).drop_last() =~= planned);
}

impl CoverageReport {
    /// The edits annotation would make, per file: files in path order, each file's edits
    /// sorted by span start.
    pub fn proposals(&self) -> (r: Vec<(FilePath, Vec<TextEdit>)>)
        ensures
            groups_view(r@) == grouped(planned_edits(self.candidates@)),
    {
        let mut edits: Vec<(FilePath, Vec<TextEdit>)> = Vec::new();
        let ghost all = self.candidates@;
        assert(groups_view(edits@) =~= grouped(planned_edits(all.take(0))));
        let mut i: usize = 0;
        while i < self.candidates.len()
            invariant
                i <= all.len(),
                all == self.candidates@,
                groups_view(edits@) == grouped(planned_edits(all.take(i as int))),
            decreases self.candidates.len() - i,
        {
            let group = &self.candidates[i];
            assert(all.take(i + 1).drop_last() =~= all.take(i as int));
            assert(all.take(i + 1).last() == *group);
            let ghost before = planned_edits(all.take(i as int));
            if let CandidateKind::Proposal { replacement } = &group.kind {
                let ghost ge = group_edits(*group);
                let mut k: usize = 0;
                assert(before + ge.take(0) =~= before);
                while k < group.sites.len()
                    invariant
                        k <= group.sites@.len(),
                        ge == group_edits(*group),
                        ge.len() == group.sites@.len(),
                        group.kind == (CandidateKind::Proposal { replacement: *replacement }),
                        groups_view(edits@) == grouped(before + ge.take(k as int)),
                    decreases group.sites.len() - k,
                {
                    let c = &group.sites[k];
                    let edit = TextEdit { span: c.site.span, expected: c.text.clone(), replacement: replacement.clone() };
                    assert(edit_view(edit) == ge[k as int].1);
                    assert(c.site.path@ == ge[k as int].0);
                    proof {
                        lemma_grouped_push(before + ge.take(k as int), ge[k as int]);
                        assert(before + ge.take(k + 1) =~= (before + ge.take(k as int)).push(ge[k as int]));
                    }
                    add_to_groups(&mut edits, &c.site.path, edit);
                    k += 1;
                }
                assert(ge.take(k as int) =~= ge);
            } else {
                assert(group_edits(*group) =~= Seq::<(Seq<char>, EditView)>::empty());
                assert(before + group_edits(*group) =~= before);
            }
            i += 1;
        }
        assert(all.take(i as int) =~= all);
        edits
    }
}

/// `CandidateKind` with its texts taken by value.
pub enum CandView {
    Proposal { replacement: Seq<char> },
    Unresolvable { reason: Seq<char> },
    UnusedAlias { alias: Seq<char> },
    UnusedIgnore { entry: Seq<char> },
}

impl View for CandidateKind {
    type V = CandView;

    open spec fn view(&self) -> CandView {
        match self {
            CandidateKind::Proposal { replacement } => CandView::Proposal { replacement: replacement@ },
            CandidateKind::Unresolvable { reason } => CandView::Unresolvable { reason: reason@ },
            CandidateKind::UnusedAlias { alias } => CandView::UnusedAlias { alias: alias@ },
            CandidateKind::UnusedIgnore { entry } => CandView::UnusedIgnore { entry: entry@ },
        }
    }
}

impl CandidateKind {
    /// A copy, as its view says.
    pub fn duplicate(&self) -> (r: CandidateKind)
        ensures
            r@ == self@,
    {
        match self {
            CandidateKind::Proposal { replacement } => CandidateKind::Proposal { replacement: replacement.clone() },
            CandidateKind::Unresolvable { reason } => CandidateKind::Unresolvable { reason: reason.clone() },
            CandidateKind::UnusedAlias { alias } => CandidateKind::UnusedAlias { alias: alias.clone() },
            CandidateKind::UnusedIgnore { entry } => CandidateKind::UnusedIgnore { entry: entry.clone() },
        }
    }
}

/// One classified token at one site, before grouping.
#[derive(Debug)]
pub struct Finding {
    pub kind: CandidateKind,
    pub token: String,
    pub site: CandidateSite,
}

pub struct FindingView {
    pub kind: CandView,
    pub token: Seq<char>,
    pub site: SiteView,
    pub text: Seq<char>,
}

impl View for Finding {
    type V = FindingView;

    open spec fn view(&self) -> FindingView {
        FindingView { kind: self.kind@, token: self.token@, site: self.site.site@, text: self.site.text@ }
    }
}

/// The text of `source` in the byte span `span` when it lies on character boundaries, else
/// `fallback`.
pub open spec fn span_text(source: Seq<char>, span: (int, int), fallback: Seq<char>) -> Seq<char> {
    let bytes = encode_utf8(source);
    if span.0 <= span.1 && is_char_boundary(bytes, span.0) && is_char_boundary(bytes, span.1) {
        decode_utf8(bytes.subrange(span.0, span.1))
    } else {
        fallback
    }
}

/// Whether `span` shares a byte with any of `spans`.
pub open spec fn occupied_by(spans: Seq<(int, int)>, span: (int, int)) -> bool {
    exists|i: int| 0 <= i < spans.len() && (#[trigger] spans[i]).0 < span.1 && span.0 < spans[i].1
}

/// A set of ignore entries after `token` is offered to it.
pub open spec fn claimed(set: (Seq<Seq<char>>, Seq<bool>), token: Seq<char>) -> (Seq<Seq<char>>, Seq<bool>) {
    if first_match(set.0, token) >= 0 {
        (set.0, set.1.update(first_match(set.0, token), true))
    } else {
        set
    }
}

/// What scanning carries from token to token: the file's and the root's ignore lists, how many
/// tokens they suppressed, the path tokens handed to the resolver, and the findings so far.
pub struct ScanState {
    pub local: (Seq<Seq<char>>, Seq<bool>),
    pub global: (Seq<Seq<char>>, Seq<bool>),
    pub ignored: usize,
    pub asked: Seq<(Seq<char>, Seq<char>, PathShape)>,
    pub findings: Seq<FindingView>,
}

/// The file a scan is in: its root, path, text, and the bytes its markers already occupy.
pub struct FileContext {
    pub root: Seq<char>,
    pub path: Seq<char>,
    pub source: Seq<char>,
    pub occupied: Seq<(int, int)>,
}

/// The answer for the `k`-th path token handed to the resolver; none when it gave none.
pub open spec fn verdict_at(verdicts: Seq<Option<CandView>>, k: int) -> Option<CandView> {
    if 0 <= k < verdicts.len() {
        verdicts[k]
    } else {
        None
    }
}

/// One token, `start` bytes into the file, seen: skipped when a marker holds its bytes,
/// counted when an ignore list claims it (the file's first), and otherwise a finding: an alias
/// word is proposed as `@[alias]`, a path is asked about and recorded with the answer.
pub open spec fn token_step(
    st: ScanState,
    ctx: FileContext,
    start: int,
    region: RegionKind,
    t: TokenSpec,
    verdicts: Seq<Option<CandView>>,
) -> ScanState {
    let span = (t.span.0 + start, t.span.1 + start);
    if !(0 <= t.span.0 <= t.span.1 && t.span.1 + start <= usize::MAX) {
        st
    } else if occupied_by(ctx.occupied, span) {
        st
    } else if first_match(st.local.0, t.text) >= 0 {
        ScanState { local: claimed(st.local, t.text), ignored: st.ignored.saturating_add(1), ..st }
    } else if first_match(st.global.0, t.text) >= 0 {
        ScanState { global: claimed(st.global, t.text), ignored: st.ignored.saturating_add(1), ..st }
    } else {
        let site = site_of(ctx.root, ctx.path, span, region);
        let text = span_text(ctx.source, span, t.text);
        match t.shape {
            ShapeView::Alias(a) => ScanState {
                findings: st.findings.push(
                    FindingView {
                        kind: CandView::Proposal { replacement: "@["@ + a + "]"@ },
                        token: t.text,
                        site,
                        text,
                    },
                ),
                ..st
            },
            ShapeView::Path(shape) => {
                let asked = st.asked.push((ctx.path, t.text, shape));
                match verdict_at(verdicts, st.asked.len() as int) {
                    None => ScanState { asked, ..st },
                    Some(kind) => ScanState {
                        asked,
                        findings: st.findings.push(FindingView { kind, token: t.text, site, text }),
                        ..st
                    },
                }
            },
        }
    }
}

/// The state after the tokens of one region, in order.
pub open spec fn tokens_step(
    st: ScanState,
    ctx: FileContext,
    start: int,
    region: RegionKind,
    ts: Seq<TokenSpec>,
    verdicts: Seq<Option<CandView>>,
) -> ScanState
    decreases ts.len(),
{
    if ts.len() == 0 {
        st
    } else {
        token_step(tokens_step(st, ctx, start, region, ts.drop_last(), verdicts), ctx, start, region, ts.last(), verdicts)
    }
}

/// Whether every token of `ts` is free of `\\`, so the ignore lists answer for it the same way
/// on every platform (see `portable_candidate`).
pub open spec fn tokens_portable(ts: Seq<TokenSpec>) -> bool {
    forall|i: int| 0 <= i < ts.len() ==> portable_candidate(#[trigger] ts[i].text)
}

/// Whether every token of every region of `source` is free of `\\`.
pub open spec fn regions_portable(
    source: Seq<char>,
    regions: Seq<TextRegion>,
    aliases: Seq<Seq<char>>,
    known: Seq<Seq<char>>,
) -> bool {
    forall|i: int|
        0 <= i < regions.len() ==> match region_text(source, ((#[trigger] regions[i]).span.start as int, regions[i].span.end as int)) {
            Some(t) => tokens_portable(tokens_of(t, regions[i].kind, aliases, known)),
            None => true,
        }
}

/// Whether every token that covering `files` can offer to an ignore list is free of `\\`:
/// then the lists answer the same way on every platform, and coverage is what `coverage_of`
/// states.
pub open spec fn coverage_portable(index: Index, files: Seq<CoverageFile>, known: Seq<Seq<char>>) -> bool {
    forall|p: Seq<char>|
        match (#[trigger] files_with(index@.1, p), file_text(files, p)) {
            (Some(f), Some(t)) => regions_portable(t.0, t.1, names_of(declarations(f.1)), known),
            _ => true,
        }
}

/// The text of a region, when it lies on character boundaries of the file.
pub open spec fn region_text(source: Seq<char>, span: (int, int)) -> Option<Seq<char>> {
    let bytes = encode_utf8(source);
    if span.0 <= span.1 && is_char_boundary(bytes, span.0) && is_char_boundary(bytes, span.1) {
        Some(decode_utf8(bytes.subrange(span.0, span.1)))
    } else {
        None
    }
}

/// The state after the regions of one file, in order; a region off character boundaries is
/// skipped.
pub open spec fn regions_step(
    st: ScanState,
    ctx: FileContext,
    regions: Seq<TextRegion>,
    aliases: Seq<Seq<char>>,
    known: Seq<Seq<char>>,
    verdicts: Seq<Option<CandView>>,
) -> ScanState
    decreases regions.len(),
{
    if regions.len() == 0 {
        st
    } else {
        let before = regions_step(st, ctx, regions.drop_last(), aliases, known, verdicts);
        let r = regions.last();
        match region_text(ctx.source, (r.span.start as int, r.span.end as int)) {
            None => before,
            Some(t) => tokens_step(before, ctx, r.span.start as int, r.kind, tokens_of(t, r.kind, aliases, known), verdicts),
        }
    }
}

/// The findings of `findings`, by value.
pub open spec fn findings_view(findings: Seq<Finding>) -> Seq<FindingView> {
    findings.map_values(|f: Finding| f@)
}

/// The path tokens asked about, with the file each was found in, by value.
pub open spec fn asked_view(asked: Seq<(FilePath, String, PathShape)>) -> Seq<(Seq<char>, Seq<char>, PathShape)> {
    asked.map_values(|a: (FilePath, String, PathShape)| (a.0@, a.1@, a.2))
}

/// The verdicts, by value.
pub open spec fn verdicts_view(verdicts: Seq<Option<CandidateKind>>) -> Seq<Option<CandView>> {
    verdicts.map_values(
        |v: Option<CandidateKind>|
            match v {
                Some(k) => Some(k@),
                None => None,
            },
    )
}

/// The scanning state held by the variables of a scan.
pub open spec fn state_of(
    local: NoRefSet,
    global: NoRefSet,
    ignored: usize,
    asked: Seq<(FilePath, String, PathShape)>,
    findings: Seq<Finding>,
) -> ScanState {
    ScanState { local: local@, global: global@, ignored, asked: asked_view(asked), findings: findings_view(findings) }
}

/// Whether `span` shares a byte with one of `occupied`.
fn is_occupied(occupied: &Vec<ByteSpan>, span: ByteSpan) -> (b: bool)
    ensures
        b == occupied_by(crate::coverage::token::spans_view(occupied@), (span.start as int, span.end as int)),
{
    let ghost sv = crate::coverage::token::spans_view(occupied@);
    let mut i: usize = 0;
    while i < occupied.len()
        invariant
            i <= occupied@.len(),
            sv == crate::coverage::token::spans_view(occupied@),
            forall|j: int| 0 <= j < i ==> !((#[trigger] sv[j]).0 < span.end && span.start < sv[j].1),
        decreases occupied.len() - i,
    {
        if occupied[i].intersects(span) {
            assert(sv[i as int].0 < span.end && span.start < sv[i as int].1);
            return true;
        }
        i += 1;
    }
    false
}

/// The scan of one file, its context and its running state.
pub struct FileScanInput<'a> {
    pub source: &'a str,
    pub root: &'a RootName,
    pub path: &'a FilePath,
    /// The spans of the file's markers and malformed markers.
    pub occupied: &'a Vec<ByteSpan>,
}

pub open spec fn context_of(input: FileScanInput) -> FileContext {
    FileContext {
        root: input.root@,
        path: input.path@,
        source: input.source@,
        occupied: crate::coverage::token::spans_view(input.occupied@),
    }
}

/// The running state of a coverage scan.
pub struct Scan {
    pub local: NoRefSet,
    pub global: NoRefSet,
    pub ignored: usize,
    /// The path tokens handed to the resolver, with the file each was found in.
    pub asked: Vec<(FilePath, String, PathShape)>,
    pub findings: Vec<Finding>,
}

impl View for Scan {
    type V = ScanState;

    open spec fn view(&self) -> ScanState {
        state_of(self.local, self.global, self.ignored, self.asked@, self.findings@)
    }
}

/// Sees one token of a region that starts `start` bytes into the file.
fn see_token(
    scan: &mut Scan,
    input: &FileScanInput,
    start: usize,
    region: RegionKind,
    token: &crate::coverage::token::Token,
    verdicts: &Vec<Option<CandidateKind>>,
)
    ensures
        portable_candidate(token@.text) ==> final(scan)@ == token_step(
            old(scan)@,
            context_of(*input),
            start as int,
            region,
            token@,
            verdicts_view(verdicts@),
        ),
        final(scan)@.local.0 == old(scan)@.local.0,
        final(scan)@.local.1.len() == old(scan)@.local.1.len(),
{
    if token.span.start > token.span.end || token.span.end > usize::MAX - start {
        return;
    }
    let span = token.span.shifted_by(start);
    if is_occupied(input.occupied, span) {
        return;
    }
    let ghost before = scan@;
    if scan.local.claim(token.text.as_str()) {
        scan.ignored = scan.ignored.saturating_add(1);
        return;
    }
    if scan.global.claim(token.text.as_str()) {
        scan.ignored = scan.ignored.saturating_add(1);
        return;
    }
    let site = Site { root: input.root.clone(), path: input.path.clone(), span, region };
    let text = match str_slice(input.source, span.start, span.end) {
        Some(t) => {
            proof {
                vstd::utf8::encode_utf8_decode_utf8(t@);
            }
            t.to_owned()
        },
        None => token.text.clone(),
    };
    match &token.shape {
        Shape::Alias(alias) => {
            let mut replacement = "@[".to_owned();
            push_text(&mut replacement, alias.as_str());
            push_text(&mut replacement, "]");
            let f = Finding {
                kind: CandidateKind::Proposal { replacement },
                token: token.text.clone(),
                site: CandidateSite { site, text },
            };
            let ghost fv = f@;
            scan.findings.push(f);
            assert(findings_view(scan.findings@) =~= before.findings.push(fv));
        },
        Shape::Path(shape) => {
            let k = scan.asked.len();
            let ghost asked_before = asked_view(scan.asked@);
            scan.asked.push((input.path.clone(), token.text.clone(), *shape));
            assert(asked_view(scan.asked@) =~= asked_before.push((input.path@, token.text@, *shape)));
            if k < verdicts.len() {
                assert(verdicts_view(verdicts@)[k as int] == match verdicts@[k as int] {
                    Some(c) => Some(c@),
                    None => None::<CandView>,
                });
                match &verdicts[k] {
                    Some(kind) => {
                        let f = Finding {
                            kind: kind.duplicate(),
                            token: token.text.clone(),
                            site: CandidateSite { site, text },
                        };
                        let ghost fv = f@;
                        scan.findings.push(f);
                        assert(findings_view(scan.findings@) =~= before.findings.push(fv));
                    },
                    None => {},
                }
            }
        },
    }
}

/// Scans the regions of one file, in order.
pub fn scan_file(
    scan: &mut Scan,
    input: &FileScanInput,
    regions: &Vec<TextRegion>,
    aliases: &Vec<&Alias>,
    known: KnownExtensions,
    verdicts: &Vec<Option<CandidateKind>>,
)
    ensures
        regions_portable(input.source@, regions@, aliases_view(aliases@), known@) ==> final(scan)@ == regions_step(
            old(scan)@,
            context_of(*input),
            regions@,
            aliases_view(aliases@),
            known@,
            verdicts_view(verdicts@),
        ),
        final(scan)@.local.0 == old(scan)@.local.0,
        final(scan)@.local.1.len() == old(scan)@.local.1.len(),
{
    let ghost ctx = context_of(*input);
    let ghost start_state = scan@;
    let ghost av = aliases_view(aliases@);
    let ghost vv = verdicts_view(verdicts@);
    let mut i: usize = 0;
    while i < regions.len()
        invariant
            i <= regions@.len(),
            ctx == context_of(*input),
            av == aliases_view(aliases@),
            vv == verdicts_view(verdicts@),
            start_state == old(scan)@,
            regions_portable(input.source@, regions@, av, known@) ==> scan@ == regions_step(
                start_state,
                ctx,
                regions@.take(i as int),
                av,
                known@,
                vv,
            ),
            scan@.local.0 == start_state.local.0,
            scan@.local.1.len() == start_state.local.1.len(),
        decreases regions.len() - i,
    {
        let region = regions[i];
        assert(regions@.take(i + 1).drop_last() =~= regions@.take(i as int));
        assert(regions@.take(i + 1).last() == region);
        let ghost before = scan@;
        match str_slice(input.source, region.span.start, region.span.end) {
            None => {},
            Some(text) => {
                proof {
                    vstd::utf8::encode_utf8_decode_utf8(text@);
                }
                assert(region_text(ctx.source, (region.span.start as int, region.span.end as int)) == Some(text@));
                let toks = tokens(text, region.kind, aliases.as_slice(), known);
                let ghost tv = tokens_view(toks@);
                proof {
                    if regions_portable(input.source@, regions@, av, known@) {
                        assert(regions@[i as int] == region);
                        assert(tokens_portable(tv));
                    }
                }
                let mut k: usize = 0;
                while k < toks.len()
                    invariant
                        k <= toks@.len(),
                        tv == tokens_view(toks@),
                        ctx == context_of(*input),
                        vv == verdicts_view(verdicts@),
                        tokens_portable(tv) ==> scan@ == tokens_step(
                            before,
                            ctx,
                            region.span.start as int,
                            region.kind,
                            tv.take(k as int),
                            vv,
                        ),
                        scan@.local.0 == start_state.local.0,
                        scan@.local.1.len() == start_state.local.1.len(),
                    decreases toks.len() - k,
                {
                    assert(tv[k as int] == toks@[k as int]@);
                    assert(tv.take(k + 1).drop_last() =~= tv.take(k as int));
                    assert(tv.take(k + 1).last() == toks@[k as int]@);
                    see_token(scan, input, region.span.start, region.kind, &toks[k], verdicts);
                    k += 1;
                }
                assert(tv.take(k as int) =~= tv);
            },
        }
        i += 1;
    }
    assert(regions@.take(i as int) =~= regions@);
}

/// The entries of every `@noref[...]` among `markers`, in order, with their spans.
pub open spec fn noref_items_of(markers: Seq<MarkerSpec>) -> Seq<(Seq<char>, (int, int))>
    decreases markers.len(),
{
    if markers.len() == 0 {
        Seq::empty()
    } else {
        noref_items_of(markers.drop_last()) + match markers.last().payload {
            PayloadView::NoRef { items } => items,
            _ => Seq::empty(),
        }
    }
}

/// The region of the first marker whose span holds byte `offset`; prose when none does.
pub open spec fn region_containing(markers: Seq<MarkerSpec>, offset: int) -> RegionKind
    decreases markers.len(),
{
    if markers.len() == 0 {
        RegionKind::Prose
    } else if markers[0].span.0 <= offset < markers[0].span.1 {
        markers[0].region
    } else {
        region_containing(markers.drop_first(), offset)
    }
}

/// The bytes a file's markers and malformed markers hold.
pub open spec fn occupied_of(markers: Seq<MarkerSpec>, malformed: Seq<MalformedSpec>) -> Seq<(int, int)> {
    markers.map_values(|m: MarkerSpec| m.span) + malformed.map_values(|m: MalformedSpec| m.span)
}

/// The advisory for each entry of a file's ignore lists that claimed nothing.
pub open spec fn unused_ignore_findings(
    root: Seq<char>,
    path: Seq<char>,
    markers: Seq<MarkerSpec>,
    items: Seq<(Seq<char>, (int, int))>,
    unused: Seq<(int, Seq<char>)>,
) -> Seq<FindingView> {
    unused.map_values(
        |u: (int, Seq<char>)|
            FindingView {
                kind: CandView::UnusedIgnore { entry: u.1 },
                token: u.1,
                site: site_of(root, path, items[u.0].1, region_containing(markers, items[u.0].1.0)),
                text: u.1,
            },
    )
}

/// One file covered: its own ignore list in force, its regions scanned, and then every entry of
/// that list that claimed nothing reported where it was written.
pub open spec fn file_state(
    st: ScanState,
    root: Seq<char>,
    path: Seq<char>,
    markers: Seq<MarkerSpec>,
    malformed: Seq<MalformedSpec>,
    source: Seq<char>,
    regions: Seq<TextRegion>,
    known: Seq<Seq<char>>,
    verdicts: Seq<Option<CandView>>,
) -> ScanState {
    let items = noref_items_of(markers);
    let fresh = ScanState {
        local: (items.map_values(|i: (Seq<char>, (int, int))| i.0), Seq::new(items.len(), |i: int| false)),
        ..st
    };
    let ctx = FileContext { root, path, source, occupied: occupied_of(markers, malformed) };
    let after = regions_step(fresh, ctx, regions, names_of(declarations(markers)), known, verdicts);
    ScanState {
        findings: after.findings + unused_ignore_findings(root, path, markers, items, unused_of(after.local, 0)),
        ..after
    }
}

/// The region of the first of `markers` whose span holds `offset`.
fn region_holding(markers: &Vec<crate::marker::Marker>, offset: usize) -> (r: RegionKind)
    ensures
        r == region_containing(markers_view(markers@), offset as int),
{
    let ghost mv = markers_view(markers@);
    let mut i: usize = 0;
    assert(mv.skip(0) =~= mv);
    while i < markers.len()
        invariant
            i <= markers@.len(),
            mv == markers_view(markers@),
            region_containing(mv, offset as int) == region_containing(mv.skip(i as int), offset as int),
        decreases markers.len() - i,
    {
        let ghost rest = mv.skip(i as int);
        assert(rest[0] == markers@[i as int]@);
        assert(rest.drop_first() =~= mv.skip(i + 1));
        if markers[i].span.contains(offset) {
            return markers[i].region;
        }
        i += 1;
    }
    RegionKind::Prose
}

/// The spans markers and malformed markers hold, in that order.
fn occupied_spans(record: &FileRecord) -> (r: Vec<ByteSpan>)
    ensures
        crate::coverage::token::spans_view(r@) == occupied_of(markers_view(record.markers@), malformed_view(record.malformed@)),
{
    let ghost mv = markers_view(record.markers@);
    let ghost fv = malformed_view(record.malformed@);
    let mut out: Vec<ByteSpan> = Vec::new();
    let mut i: usize = 0;
    while i < record.markers.len()
        invariant
            i <= record.markers@.len(),
            mv == markers_view(record.markers@),
            crate::coverage::token::spans_view(out@) == mv.take(i as int).map_values(|m: MarkerSpec| m.span),
        decreases record.markers.len() - i,
    {
        let ghost before = crate::coverage::token::spans_view(out@);
        out.push(record.markers[i].span);
        assert(crate::coverage::token::spans_view(out@) =~= before.push(mv[i as int].span));
        assert(mv.take(i + 1).map_values(|m: MarkerSpec| m.span) =~= mv.take(i as int).map_values(
            |m: MarkerSpec| m.span,
        ).push(mv[i as int].span));
        i += 1;
    }
    assert(mv.take(i as int) =~= mv);
    let ghost first = crate::coverage::token::spans_view(out@);
    let mut j: usize = 0;
    while j < record.malformed.len()
        invariant
            j <= record.malformed@.len(),
            fv == malformed_view(record.malformed@),
            first == mv.map_values(|m: MarkerSpec| m.span),
            crate::coverage::token::spans_view(out@) == first + fv.take(j as int).map_values(|m: MalformedSpec| m.span),
        decreases record.malformed.len() - j,
    {
        let ghost before = crate::coverage::token::spans_view(out@);
        out.push(record.malformed[j].span);
        assert(crate::coverage::token::spans_view(out@) =~= before.push(fv[j as int].span));
        assert(fv.take(j + 1).map_values(|m: MalformedSpec| m.span) =~= fv.take(j as int).map_values(
            |m: MalformedSpec| m.span,
        ).push(fv[j as int].span));
        j += 1;
    }
    assert(fv.take(j as int) =~= fv);
    out
}

/// The `@noref[...]` entries of a file's markers, in order.
fn noref_items(markers: &Vec<crate::marker::Marker>) -> (r: Vec<&NoRefItem>)
    ensures
        r@.map_values(|i: &NoRefItem| (i.entry@, (i.span.start as int, i.span.end as int))) == noref_items_of(
            markers_view(markers@),
        ),
{
    let ghost mv = markers_view(markers@);
    let mut out: Vec<&NoRefItem> = Vec::new();
    let mut i: usize = 0;
    while i < markers.len()
        invariant
            i <= markers@.len(),
            mv == markers_view(markers@),
            out@.map_values(|i: &NoRefItem| (i.entry@, (i.span.start as int, i.span.end as int))) == noref_items_of(
                mv.take(i as int),
            ),
        decreases markers.len() - i,
    {
        assert(mv.take(i + 1).drop_last() =~= mv.take(i as int));
        assert(mv.take(i + 1).last() == markers@[i as int]@);
        match &markers[i].payload {
            MarkerPayload::NoRef { items } => {
                let ghost base = out@.map_values(|i: &NoRefItem| (i.entry@, (i.span.start as int, i.span.end as int)));
                let ghost iv = crate::marker::noref::items_view(items@);
                let mut k: usize = 0;
                while k < items.len()
                    invariant
                        k <= items@.len(),
                        iv == crate::marker::noref::items_view(items@),
                        out@.map_values(|i: &NoRefItem| (i.entry@, (i.span.start as int, i.span.end as int))) == base
                            + iv.take(k as int),
                    decreases items.len() - k,
                {
                    let ghost b2 = out@.map_values(|i: &NoRefItem| (i.entry@, (i.span.start as int, i.span.end as int)));
                    out.push(&items[k]);
                    assert(out@.map_values(|i: &NoRefItem| (i.entry@, (i.span.start as int, i.span.end as int)))
                        =~= b2.push(iv[k as int]));
                    assert(iv.take(k + 1) =~= iv.take(k as int).push(iv[k as int]));
                    k += 1;
                }
                assert(iv.take(k as int) =~= iv);
            },
            _ => {
                assert(noref_items_of(mv.take(i + 1)) =~= noref_items_of(mv.take(i as int)));
            },
        }
        i += 1;
    }
    assert(mv.take(i as int) =~= mv);
    out
}

/// A file's text and the regions its grammar marks, as the analyzer read them.
#[derive(Debug)]
pub struct CoverageFile {
    pub path: FilePath,
    pub source: String,
    pub regions: Vec<TextRegion>,
}

/// Covers one file: its ignore list in force, its regions scanned, its unused entries reported.
pub fn cover_file(
    scan: &mut Scan,
    root: &RootName,
    path: &FilePath,
    record: &FileRecord,
    file: &CoverageFile,
    known: KnownExtensions,
    verdicts: &Vec<Option<CandidateKind>>,
)
    requires
        record.aliases@ == declarations(markers_view(record.markers@)),
    ensures
        regions_portable(
            file.source@,
            file.regions@,
            names_of(declarations(markers_view(record.markers@))),
            known@,
        ) ==> final(scan)@ == file_state(
            old(scan)@,
            root@,
            path@,
            markers_view(record.markers@),
            malformed_view(record.malformed@),
            file.source@,
            file.regions@,
            known@,
            verdicts_view(verdicts@),
        ),
{
    let occupied = occupied_spans(record);
    let aliases = record.aliases.aliases();
    let items = noref_items(&record.markers);
    let ghost iv = items@.map_values(|i: &NoRefItem| (i.entry@, (i.span.start as int, i.span.end as int)));
    let mut entries: Vec<NoRefEntry> = Vec::new();
    let mut k: usize = 0;
    while k < items.len()
        invariant
            k <= items@.len(),
            iv == items@.map_values(|i: &NoRefItem| (i.entry@, (i.span.start as int, i.span.end as int))),
            entries@.map_values(|e: NoRefEntry| e@) == iv.take(k as int).map_values(|i: (Seq<char>, (int, int))| i.0),
        decreases items.len() - k,
    {
        let ghost before = entries@.map_values(|e: NoRefEntry| e@);
        entries.push(items[k].entry.clone());
        assert(entries@.map_values(|e: NoRefEntry| e@) =~= before.push(iv[k as int].0));
        assert(iv.take(k + 1).map_values(|i: (Seq<char>, (int, int))| i.0) =~= iv.take(k as int).map_values(
            |i: (Seq<char>, (int, int))| i.0,
        ).push(iv[k as int].0));
        k += 1;
    }
    assert(iv.take(k as int) =~= iv);
    scan.local = NoRefSet::new(entries);
    let ghost fresh_state = scan@;
    let input = FileScanInput { source: file.source.as_str(), root, path, occupied: &occupied };
    scan_file(scan, &input, &file.regions, &aliases, known, verdicts);
    let unused = scan.local.unused();
    let ghost uv = unused@.map_values(|p: (usize, &NoRefEntry)| (p.0 as int, p.1@));
    let ghost mv = markers_view(record.markers@);
    let ghost want = unused_ignore_findings(root@, path@, mv, iv, uv);
    let ghost base = findings_view(scan.findings@);
    let ghost after = scan@;
    proof {
        lemma_regions_keep_lists(
            fresh_state,
            context_of(input),
            file.regions@,
            aliases_view(aliases@),
            known@,
            verdicts_view(verdicts@),
        );
        lemma_unused_of_bounds(scan.local@, 0);
    }
    let mut j: usize = 0;
    while j < unused.len()
        invariant
            j <= unused@.len(),
            uv == unused@.map_values(|p: (usize, &NoRefEntry)| (p.0 as int, p.1@)),
            uv == unused_of(scan.local@, 0),
            want == unused_ignore_findings(root@, path@, mv, iv, uv),
            mv == markers_view(record.markers@),
            iv == items@.map_values(|i: &NoRefItem| (i.entry@, (i.span.start as int, i.span.end as int))),
            forall|q: int| 0 <= q < uv.len() ==> 0 <= (#[trigger] uv[q]).0 < iv.len(),
            findings_view(scan.findings@) == base + want.take(j as int),
            scan.local@ == after.local,
            scan.global@ == after.global,
            scan.ignored == after.ignored,
            asked_view(scan.asked@) == after.asked,
        decreases unused.len() - j,
    {
        let (position, entry) = unused[j];
        assert(uv[j as int] == (position as int, entry@));
        let item = items[position];
        let region = region_holding(&record.markers, item.span.start);
        let f = Finding {
            kind: CandidateKind::UnusedIgnore { entry: entry.clone() },
            token: entry.as_str().to_owned(),
            site: CandidateSite {
                site: Site { root: root.clone(), path: path.clone(), span: item.span, region },
                text: entry.as_str().to_owned(),
            },
        };
        let ghost fv = f@;
        assert(fv == want[j as int]);
        let ghost before = findings_view(scan.findings@);
        scan.findings.push(f);
        assert(findings_view(scan.findings@) =~= before.push(fv));
        assert(want.take(j + 1) =~= want.take(j as int).push(want[j as int]));
        j += 1;
    }
    assert(want.take(j as int) =~= want);
}

/// Scanning tokens never changes which entries the ignore lists hold.
proof fn lemma_tokens_keep_lists(
    st: ScanState,
    ctx: FileContext,
    start: int,
    region: RegionKind,
    ts: Seq<TokenSpec>,
    verdicts: Seq<Option<CandView>>,
)
    ensures
        tokens_step(st, ctx, start, region, ts, verdicts).local.0 == st.local.0,
        tokens_step(st, ctx, start, region, ts, verdicts).global.0 == st.global.0,
    decreases ts.len(),
{
    if ts.len() > 0 {
        lemma_tokens_keep_lists(st, ctx, start, region, ts.drop_last(), verdicts);
    }
}

/// Scanning regions never changes which entries the ignore lists hold.
proof fn lemma_regions_keep_lists(
    st: ScanState,
    ctx: FileContext,
    regions: Seq<TextRegion>,
    aliases: Seq<Seq<char>>,
    known: Seq<Seq<char>>,
    verdicts: Seq<Option<CandView>>,
)
    ensures
        regions_step(st, ctx, regions, aliases, known, verdicts).local.0 == st.local.0,
        regions_step(st, ctx, regions, aliases, known, verdicts).global.0 == st.global.0,
    decreases regions.len(),
{
    if regions.len() > 0 {
        lemma_regions_keep_lists(st, ctx, regions.drop_last(), aliases, known, verdicts);
        let before = regions_step(st, ctx, regions.drop_last(), aliases, known, verdicts);
        let r = regions.last();
        match region_text(ctx.source, (r.span.start as int, r.span.end as int)) {
            None => {},
            Some(t) => {
                lemma_tokens_keep_lists(before, ctx, r.span.start as int, r.kind, tokens_of(t, r.kind, aliases, known), verdicts);
            },
        }
    }
}

/// The unused entries are named by their positions in the list, in order.
proof fn lemma_unused_of_bounds(set: (Seq<Seq<char>>, Seq<bool>), i: int)
    requires
        0 <= i,
    ensures
        forall|q: int| 0 <= q < unused_of(set, i).len() ==> i <= (#[trigger] unused_of(set, i)[q]).0 < set.0.len()
            && unused_of(set, i)[q].1 == set.0[unused_of(set, i)[q].0],
    decreases set.0.len() - i,
{
    if i < set.0.len() {
        lemma_unused_of_bounds(set, i + 1);
        let r = unused_of(set, i + 1);
        if !set.1[i] {
            let whole = seq![(i, set.0[i])] + r;
            assert(unused_of(set, i) == whole);
            assert forall|q: int| 0 <= q < whole.len() implies i <= (#[trigger] whole[q]).0 < set.0.len()
                && whole[q].1 == set.0[whole[q].0] by {
                if q > 0 {
                    assert(whole[q] == r[q - 1]);
                }
            }
        }
    }
}

/// A group's kind, token and sites, by value.
pub type GroupV = (CandView, Seq<char>, Seq<(SiteView, Seq<char>)>);

impl View for CandidateSite {
    type V = (SiteView, Seq<char>);

    open spec fn view(&self) -> (SiteView, Seq<char>) {
        (self.site@, self.text@)
    }
}

impl View for CandidateGroup {
    type V = GroupV;

    open spec fn view(&self) -> GroupV {
        (self.kind@, self.token@, views(self.sites@))
    }
}

/// Where the group of `kind` and `token` is among `groups`, or their number.
pub open spec fn group_index(groups: Seq<GroupV>, kind: CandView, token: Seq<char>) -> int
    decreases groups.len(),
{
    if groups.len() == 0 {
        0
    } else if groups[0].0 == kind && groups[0].1 == token {
        0
    } else {
        1 + group_index(groups.drop_first(), kind, token)
    }
}

/// The groups after one more finding: joined to the group of its kind and token, or opening a
/// new one at the end.
pub open spec fn with_finding(groups: Seq<GroupV>, f: FindingView) -> Seq<GroupV> {
    let i = group_index(groups, f.kind, f.token);
    if i < groups.len() {
        groups.update(i, (groups[i].0, groups[i].1, groups[i].2.push((f.site, f.text))))
    } else {
        groups.push((f.kind, f.token, seq![(f.site, f.text)]))
    }
}

/// The findings gathered by kind and token, in the order each pair is first found.
pub open spec fn gathered(findings: Seq<FindingView>) -> Seq<GroupV>
    decreases findings.len(),
{
    if findings.len() == 0 {
        Seq::empty()
    } else {
        with_finding(gathered(findings.drop_last()), findings.last())
    }
}

impl Ordered for CandidateSite {
    /// By site: root, path, span, region.
    open spec fn before(a: (SiteView, Seq<char>), b: (SiteView, Seq<char>)) -> bool {
        site_less(a.0, b.0)
    }

    fn less(&self, other: &Self) -> (b: bool) {
        less_site(&self.site, &other.site)
    }
}

/// Report order of kinds: what can be acted on first, advisories last.
pub open spec fn rank(k: CandView) -> int {
    match k {
        CandView::Proposal { .. } => 0,
        CandView::Unresolvable { .. } => 1,
        CandView::UnusedAlias { .. } => 2,
        CandView::UnusedIgnore { .. } => 3,
    }
}

impl Ordered for CandidateGroup {
    /// By kind, then most sites first, then by token, then by first site.
    open spec fn before(a: GroupV, b: GroupV) -> bool {
        rank(a.0) < rank(b.0) || (rank(a.0) == rank(b.0) && (a.2.len() > b.2.len() || (a.2.len()
            == b.2.len() && (text_less(a.1, b.1) || (a.1 == b.1 && a.2.len() > 0 && site_less(
            a.2[0].0,
            b.2[0].0,
        ))))))
    }

    fn less(&self, other: &Self) -> (b: bool) {
        let a = kind_rank(&self.kind);
        let b = kind_rank(&other.kind);
        if a != b {
            return a < b;
        }
        if self.sites.len() != other.sites.len() {
            return self.sites.len() > other.sites.len();
        }
        if !same_text(self.token.as_str(), other.token.as_str()) {
            return less_text(self.token.as_str(), other.token.as_str());
        }
        proof {
            crate::chars::lemma_text_less_irreflexive(self.token@);
        }
        self.sites.len() > 0 && less_site(&self.sites[0].site, &other.sites[0].site)
    }
}

fn kind_rank(k: &CandidateKind) -> (r: u8)
    ensures
        r == rank(k@),
{
    match k {
        CandidateKind::Proposal { .. } => 0,
        CandidateKind::Unresolvable { .. } => 1,
        CandidateKind::UnusedAlias { .. } => 2,
        CandidateKind::UnusedIgnore { .. } => 3,
    }
}

impl CandidateKind {
    /// Whether the two are the same conclusion.
    pub fn same_as(&self, other: &CandidateKind) -> (b: bool)
        ensures
            b == (self@ == other@),
    {
        match (self, other) {
            (CandidateKind::Proposal { replacement: a }, CandidateKind::Proposal { replacement: b }) => same_text(
                a.as_str(),
                b.as_str(),
            ),
            (CandidateKind::Unresolvable { reason: a }, CandidateKind::Unresolvable { reason: b }) => same_text(
                a.as_str(),
                b.as_str(),
            ),
            (CandidateKind::UnusedAlias { alias: a }, CandidateKind::UnusedAlias { alias: b }) => a.same(b),
            (CandidateKind::UnusedIgnore { entry: a }, CandidateKind::UnusedIgnore { entry: b }) => same_text(
                a.as_str(),
                b.as_str(),
            ),
            _ => false,
        }
    }
}

/// The findings as groups: gathered by kind and token, each group's sites sorted, the groups in
/// report order.
pub open spec fn grouped_findings(findings: Seq<FindingView>) -> Seq<GroupV> {
    sorted::<CandidateGroup>(
        gathered(findings).map_values(|g: GroupV| (g.0, g.1, sorted::<CandidateSite>(g.2))),
    )
}

proof fn lemma_group_index<A>(groups: Seq<GroupV>, kind: CandView, token: Seq<char>, i: int)
    requires
        0 <= i <= groups.len(),
        forall|j: int| 0 <= j < i ==> !((#[trigger] groups[j]).0 == kind && groups[j].1 == token),
        i == groups.len() || (groups[i].0 == kind && groups[i].1 == token),
    ensures
        group_index(groups, kind, token) == i,
    decreases groups.len(),
{
    if groups.len() > 0 && i > 0 {
        assert forall|j: int| 0 <= j < i - 1 implies !((#[trigger] groups.drop_first()[j]).0 == kind
            && groups.drop_first()[j].1 == token) by {
            assert(groups.drop_first()[j] == groups[j + 1]);
        }
        if i < groups.len() {
            assert(groups.drop_first()[i - 1] == groups[i]);
        }
        lemma_group_index::<A>(groups.drop_first(), kind, token, i - 1);
    }
}

/// Gathers findings by kind and token, in the order each pair is first found.
fn gather(findings: Vec<Finding>) -> (r: Vec<CandidateGroup>)
    ensures
        views(r@) == gathered(findings_view(findings@)),
{
    let ghost all = findings_view(findings@);
    let total = findings.len();
    let mut rest = findings;
    let mut groups: Vec<CandidateGroup> = Vec::new();
    let mut n: usize = 0;
    assert(all.take(0) =~= Seq::<FindingView>::empty());
    while rest.len() > 0
        invariant
            all.len() == total,
            n + rest@.len() == total,
            findings_view(rest@) == all.skip(n as int),
            views(groups@) == gathered(all.take(n as int)),
        decreases rest.len(),
    {
        let ghost rs = rest@;
        let f = rest.remove(0);
        proof {
            assert(findings_view(rs)[0] == rs[0]@);
            assert(all.skip(n as int)[0] == all[n as int]);
            assert(rest@ =~= rs.subrange(1, rs.len() as int));
            let nv = findings_view(rest@);
            assert forall|j: int| 0 <= j < nv.len() implies #[trigger] nv[j] == all.skip(n + 1)[j] by {
                assert(rest@[j] == rs[j + 1]);
                assert(findings_view(rs)[j + 1] == all.skip(n as int)[j + 1]);
            }
            assert(nv =~= all.skip(n + 1));
            assert(all.take(n + 1).drop_last() =~= all.take(n as int));
            assert(all.take(n + 1).last() == f@);
        }
        let ghost gv = views(groups@);
        let mut i: usize = 0;
        while i < groups.len() && !(groups[i].kind.same_as(&f.kind) && same_text(groups[i].token.as_str(), f.token.as_str()))
            invariant
                i <= groups@.len(),
                gv == views(groups@),
                forall|j: int| 0 <= j < i ==> !((#[trigger] gv[j]).0 == f.kind@ && gv[j].1 == f.token@),
            decreases groups.len() - i,
        {
            assert(gv[i as int] == groups@[i as int]@);
            i += 1;
        }
        proof {
            if i < groups.len() {
                assert(gv[i as int] == groups@[i as int]@);
            }
            lemma_group_index::<()>(gv, f.kind@, f.token@, i as int);
        }
        let ghost fv = f@;
        if i < groups.len() {
            let mut g = groups.remove(i);
            let ghost before = g@;
            g.sites.push(f.site);
            assert(views(g.sites@) =~= before.2.push((fv.site, fv.text)));
            groups.insert(i, g);
            assert(views(groups@) =~= gv.update(i as int, (gv[i as int].0, gv[i as int].1, gv[i as int].2.push((fv.site, fv.text)))));
        } else {
            let mut sites: Vec<CandidateSite> = Vec::new();
            sites.push(f.site);
            let g = CandidateGroup { kind: f.kind, token: f.token, sites };
            assert(views(g.sites@) =~= seq![(fv.site, fv.text)]);
            let ghost gvi = g@;
            groups.push(g);
            assert(views(groups@) =~= gv.push(gvi));
        }
        n += 1;
    }
    assert(all.take(n as int) =~= all);
    groups
}

/// Groups findings by kind and token, sorts each group's sites, and orders the groups: proposals
/// first, then unresolvable strings, then advisories; more sites first; then by token.
pub fn group(findings: Vec<Finding>) -> (r: Vec<CandidateGroup>)
    ensures
        views(r@) == grouped_findings(findings_view(findings@)),
{
    let gathered_groups = gather(findings);
    let ghost gv = views(gathered_groups@);
    let total = gathered_groups.len();
    let mut rest = gathered_groups;
    let mut out: Vec<CandidateGroup> = Vec::new();
    let ghost want = gv.map_values(|g: GroupV| (g.0, g.1, sorted::<CandidateSite>(g.2)));
    let mut n: usize = 0;
    assert(want.take(0) =~= Seq::<GroupV>::empty());
    while rest.len() > 0
        invariant
            gv.len() == total,
            want == gv.map_values(|g: GroupV| (g.0, g.1, sorted::<CandidateSite>(g.2))),
            n + rest@.len() == total,
            views(rest@) == gv.skip(n as int),
            views(out@) == want.take(n as int),
        decreases rest.len(),
    {
        let ghost rs = rest@;
        let g = rest.remove(0);
        proof {
            assert(views(rs)[0] == rs[0]@);
            assert(gv.skip(n as int)[0] == gv[n as int]);
            assert(rest@ =~= rs.subrange(1, rs.len() as int));
            let nv = views(rest@);
            assert forall|j: int| 0 <= j < nv.len() implies #[trigger] nv[j] == gv.skip(n + 1)[j] by {
                assert(rest@[j] == rs[j + 1]);
                assert(views(rs)[j + 1] == gv.skip(n as int)[j + 1]);
            }
            assert(nv =~= gv.skip(n + 1));
        }
        let CandidateGroup { kind, token, sites } = g;
        let sorted_sites = sort_items(sites);
        let h = CandidateGroup { kind, token, sites: sorted_sites };
        let ghost hv = h@;
        assert(hv == want[n as int]);
        let ghost before = views(out@);
        out.push(h);
        assert(views(out@) =~= before.push(hv));
        assert(want.take(n + 1) =~= want.take(n as int).push(want[n as int]));
        n += 1;
    }
    assert(want.take(n as int) =~= want);
    sort_items(out)
}

impl<'a> Ordered for &'a FilePath {
    /// Path order.
    open spec fn before(a: Seq<char>, b: Seq<char>) -> bool {
        path_less(a, b)
    }

    fn less(&self, other: &Self) -> (b: bool) {
        less_path(self.as_str(), other.as_str())
    }
}

/// The paths among `paths` in scope, in order.
pub open spec fn scope_paths(paths: Seq<Seq<char>>, only: Seq<Seq<char>>) -> Seq<Seq<char>>
    decreases paths.len(),
{
    if paths.len() == 0 {
        Seq::empty()
    } else {
        let before = scope_paths(paths.drop_last(), only);
        if in_scope(only, paths.last()) {
            before.push(paths.last())
        } else {
            before
        }
    }
}

/// The text and regions supplied for the file at `path`, the first when several are.
pub open spec fn file_text(files: Seq<CoverageFile>, path: Seq<char>) -> Option<(Seq<char>, Seq<TextRegion>)>
    decreases files.len(),
{
    if files.len() == 0 {
        None
    } else if files[0].path@ == path {
        Some((files[0].source@, files[0].regions@))
    } else {
        file_text(files.drop_first(), path)
    }
}

/// The state after covering each of `paths` in turn; a path the index or the supplied texts do
/// not know is passed over.
pub open spec fn files_state(
    st: ScanState,
    index: Index,
    files: Seq<CoverageFile>,
    paths: Seq<Seq<char>>,
    known: Seq<Seq<char>>,
    verdicts: Seq<Option<CandView>>,
) -> ScanState
    decreases paths.len(),
{
    if paths.len() == 0 {
        st
    } else {
        let before = files_state(st, index, files, paths.drop_last(), known, verdicts);
        let p = paths.last();
        match (files_with(index@.1, p), file_text(files, p)) {
            (Some(f), Some(t)) => file_state(before, index@.0, p, f.1, f.2, t.0, t.1, known, verdicts),
            _ => before,
        }
    }
}

/// An alias declared and never used, where its name was written.
pub struct UnusedAt<'a> {
    pub path: &'a FilePath,
    pub alias: &'a Alias,
    pub span: ByteSpan,
}

impl<'a> View for UnusedAt<'a> {
    type V = (Seq<char>, Seq<char>, (int, int));

    open spec fn view(&self) -> (Seq<char>, Seq<char>, (int, int)) {
        (self.path@, self.alias@, (self.span.start as int, self.span.end as int))
    }
}

impl<'a> Ordered for UnusedAt<'a> {
    /// By path, then alias, then span.
    open spec fn before(a: (Seq<char>, Seq<char>, (int, int)), b: (Seq<char>, Seq<char>, (int, int))) -> bool {
        path_less(a.0, b.0) || (a.0 == b.0 && (text_less(a.1, b.1) || (a.1 == b.1 && (a.2.0 < b.2.0 || (a.2.0
            == b.2.0 && a.2.1 < b.2.1)))))
    }

    fn less(&self, other: &Self) -> (b: bool) {
        if !self.path.same(other.path) {
            return less_path(self.path.as_str(), other.path.as_str());
        }
        proof {
            crate::chars::lemma_path_less_irreflexive(self.path@);
        }
        if !self.alias.same(other.alias) {
            return less_text(self.alias.as_str(), other.alias.as_str());
        }
        proof {
            crate::chars::lemma_text_less_irreflexive(self.alias@);
        }
        self.span.start < other.span.start || (self.span.start == other.span.start && self.span.end
            < other.span.end)
    }
}

/// The unused aliases in scope, as path, alias and the span of the alias's name.
pub open spec fn unused_in_scope(
    unused: Seq<(Seq<char>, Seq<char>, crate::index::BindingView)>,
    only: Seq<Seq<char>>,
) -> Seq<(Seq<char>, Seq<char>, (int, int))>
    decreases unused.len(),
{
    if unused.len() == 0 {
        Seq::empty()
    } else {
        let before = unused_in_scope(unused.drop_last(), only);
        let u = unused.last();
        if in_scope(only, u.0) {
            before.push((u.0, u.1, u.2.alias_span))
        } else {
            before
        }
    }
}

/// The advisory for an unused alias.
pub open spec fn unused_alias_finding(root: Seq<char>, files: Seq<FileView>, u: (Seq<char>, Seq<char>, (int, int))) -> FindingView {
    let region = match files_with(files, u.0) {
        Some(f) => region_containing(f.1, u.2.0),
        None => RegionKind::Prose,
    };
    FindingView { kind: CandView::UnusedAlias { alias: u.1 }, token: u.1, site: site_of(root, u.0, u.2, region), text: u.1 }
}

/// How many of `findings` are of the kind ranked `r`.
pub open spec fn count_rank(findings: Seq<FindingView>, r: int) -> nat
    decreases findings.len(),
{
    if findings.len() == 0 {
        0
    } else {
        count_rank(findings.drop_last(), r) + if rank(findings.last().kind) == r {
            1nat
        } else {
            0nat
        }
    }
}

/// How many references in scope are written directly.
pub open spec fn direct_in_scope(refs: Seq<crate::index::RefSiteView>, only: Seq<Seq<char>>) -> nat
    decreases refs.len(),
{
    if refs.len() == 0 {
        0
    } else {
        direct_in_scope(refs.drop_last(), only) + if in_scope(only, refs.last().site.path) {
            1nat
        } else {
            0nat
        }
    }
}

/// How many alias uses in scope are bound to a declaration.
pub open spec fn bound_in_scope(uses: Seq<crate::index::AliasUseView>, only: Seq<Seq<char>>) -> nat
    decreases uses.len(),
{
    if uses.len() == 0 {
        0
    } else {
        bound_in_scope(uses.drop_last(), only) + if uses.last().binding is Some && in_scope(
            only,
            uses.last().site.path,
        ) {
            1nat
        } else {
            0nat
        }
    }
}

/// `n`, or the largest `usize` when it does not fit.
pub open spec fn clamp(n: int) -> usize {
    if n > usize::MAX {
        usize::MAX
    } else {
        n as usize
    }
}

/// What coverage reports, given the texts and regions of the files it could read and the
/// resolver's answers to the path tokens it asked about.
pub struct CoverageView {
    pub candidates: Seq<GroupV>,
    pub unused_config_ignores: Seq<Seq<char>>,
    pub summary: CoverageSummary,
    pub asked: Seq<(Seq<char>, Seq<char>, PathShape)>,
}

/// The scan of every file in scope, in path order, with the root-wide ignore list in force.
pub open spec fn scanned(
    index: Index,
    files: Seq<CoverageFile>,
    known: Seq<Seq<char>>,
    ignore: Seq<Seq<char>>,
    only: Seq<Seq<char>>,
    verdicts: Seq<Option<CandView>>,
) -> ScanState {
    let start = ScanState {
        local: (Seq::empty(), Seq::empty()),
        global: (ignore, Seq::new(ignore.len(), |i: int| false)),
        ignored: 0,
        asked: Seq::empty(),
        findings: Seq::empty(),
    };
    files_state(
        start,
        index,
        files,
        sorted::<&FilePath>(scope_paths(index@.1.map_values(|f: FileView| f.0), only)),
        known,
        verdicts,
    )
}

pub open spec fn coverage_of(
    index: Index,
    files: Seq<CoverageFile>,
    known: Seq<Seq<char>>,
    ignore: Seq<Seq<char>>,
    only: Seq<Seq<char>>,
    verdicts: Seq<Option<CandView>>,
) -> CoverageView {
    let st = scanned(index, files, known, ignore, only, verdicts);
    let unused = sorted::<UnusedAt>(unused_in_scope(all_unused(index@.1), only)).map_values(
        |u: (Seq<char>, Seq<char>, (int, int))| unused_alias_finding(index@.0, index@.1, u),
    );
    let findings = st.findings + unused;
    let config_unused = if only.len() == 0 {
        unused_of(st.global, 0).map_values(|u: (int, Seq<char>)| u.1)
    } else {
        Seq::empty()
    };
    CoverageView {
        candidates: grouped_findings(findings),
        unused_config_ignores: config_unused,
        summary: CoverageSummary {
            annotated_refs: clamp(
                (direct_in_scope(all_refs(index@.0, index@.1), only) + bound_in_scope(all_uses(index@.0, index@.1), only)) as int,
            ),
            proposals: count_rank(findings, 0) as usize,
            unresolvable: count_rank(findings, 1) as usize,
            unused_aliases: count_rank(findings, 2) as usize,
            ignored: st.ignored,
            unused_ignores: clamp((config_unused.len() + count_rank(findings, 3)) as int),
        },
        asked: st.asked,
    }
}

/// The supplied text of the file at `path`, the first when several are.
fn find_file<'a>(files: &'a Vec<CoverageFile>, path: &FilePath) -> (r: Option<&'a CoverageFile>)
    ensures
        match file_text(files@, path@) {
            Some(t) => r matches Some(f) && f.source@ == t.0 && f.regions@ == t.1,
            None => r is None,
        },
{
    let mut i: usize = 0;
    assert(files@.skip(0) =~= files@);
    while i < files.len()
        invariant
            i <= files@.len(),
            file_text(files@, path@) == file_text(files@.skip(i as int), path@),
        decreases files.len() - i,
    {
        assert(files@.skip(i as int)[0] == files@[i as int]);
        assert(files@.skip(i as int).drop_first() =~= files@.skip(i + 1));
        if files[i].path.same(path) {
            return Some(&files[i]);
        }
        i += 1;
    }
    None
}

/// The paths of the index in scope, in path order.
fn ordered_paths<'a>(index: &'a Index, only: &Vec<FilePath>) -> (r: Vec<&'a FilePath>)
    ensures
        views(r@) == sorted::<&FilePath>(scope_paths(index@.1.map_values(|f: FileView| f.0), views(only@))),
{
    let all = index.file_paths();
    let ghost pv = index@.1.map_values(|f: FileView| f.0);
    let mut kept: Vec<&FilePath> = Vec::new();
    let mut i: usize = 0;
    while i < all.len()
        invariant
            i <= all@.len(),
            all@.map_values(|p: &FilePath| p@) == pv,
            views(kept@) == scope_paths(pv.take(i as int), views(only@)),
        decreases all.len() - i,
    {
        assert(pv.take(i + 1).drop_last() =~= pv.take(i as int));
        assert(pv.take(i + 1).last() == all@[i as int]@);
        let ghost before = views(kept@);
        if crate::check::scoped(only, all[i]) {
            kept.push(all[i]);
            assert(views(kept@) =~= before.push(all@[i as int]@));
        }
        i += 1;
    }
    assert(pv.take(i as int) =~= pv);
    sort_items(kept)
}

/// The unused aliases in scope, sorted by path, alias and span.
fn unused_sorted<'a>(index: &'a Index, only: &Vec<FilePath>) -> (r: Vec<UnusedAt<'a>>)
    ensures
        views(r@) == sorted::<UnusedAt>(unused_in_scope(all_unused(index@.1), views(only@))),
{
    let unused = index.unused_aliases();
    let ghost uv = crate::index::unused_view(unused@);
    let mut kept: Vec<UnusedAt> = Vec::new();
    let mut i: usize = 0;
    while i < unused.len()
        invariant
            i <= unused@.len(),
            uv == crate::index::unused_view(unused@),
            uv == all_unused(index@.1),
            views(kept@) == unused_in_scope(uv.take(i as int), views(only@)),
        decreases unused.len() - i,
    {
        assert(uv.take(i + 1).drop_last() =~= uv.take(i as int));
        assert(uv.take(i + 1).last() == uv[i as int]);
        let (path, alias, binding) = unused[i];
        assert(uv[i as int] == (path@, alias@, binding@));
        let ghost before = views(kept@);
        if crate::check::scoped(only, path) {
            let u = UnusedAt { path, alias, span: binding.alias_span };
            let ghost v = u@;
            kept.push(u);
            assert(views(kept@) =~= before.push(v));
        }
        i += 1;
    }
    assert(uv.take(i as int) =~= uv);
    sort_items(kept)
}

/// How many direct references and bound alias uses lie in scope.
fn annotated_in_scope(index: &Index, only: &Vec<FilePath>) -> (n: usize)
    ensures
        n == clamp(
            (direct_in_scope(all_refs(index@.0, index@.1), views(only@)) + bound_in_scope(
                all_uses(index@.0, index@.1),
                views(only@),
            )) as int,
        ),
{
    let refs = index.refs();
    let ghost rv = crate::index::refs_view(refs@);
    let mut direct: usize = 0;
    let mut i: usize = 0;
    while i < refs.len()
        invariant
            i <= refs@.len(),
            rv == crate::index::refs_view(refs@),
            direct == direct_in_scope(rv.take(i as int), views(only@)),
            direct <= i,
        decreases refs.len() - i,
    {
        assert(rv.take(i + 1).drop_last() =~= rv.take(i as int));
        assert(rv.take(i + 1).last() == refs@[i as int]@);
        if crate::check::scoped(only, &refs[i].site.path) {
            direct = direct + 1;
        }
        i += 1;
    }
    assert(rv.take(i as int) =~= rv);
    let uses = index.alias_uses();
    let ghost wv = crate::index::uses_view(uses@);
    let mut bound: usize = 0;
    let mut j: usize = 0;
    while j < uses.len()
        invariant
            j <= uses@.len(),
            wv == crate::index::uses_view(uses@),
            bound == bound_in_scope(wv.take(j as int), views(only@)),
            bound <= j,
        decreases uses.len() - j,
    {
        assert(wv.take(j + 1).drop_last() =~= wv.take(j as int));
        assert(wv.take(j + 1).last() == uses@[j as int]@);
        if uses[j].binding.is_some() && crate::check::scoped(only, &uses[j].site.path) {
            bound = bound + 1;
        }
        j += 1;
    }
    assert(wv.take(j as int) =~= wv);
    direct.saturating_add(bound)
}

/// Scans the current root for reference-shaped strings that carry no marker. `files` holds the
/// text and regions of each file that could be read and analyzed; a file in scope without them
/// is passed over, since coverage informs and never fails. `verdicts` answers, in order, the
/// path tokens this scan hands to the resolver; they are returned beside the report, so a
/// first run with no answers learns what to ask.
pub fn coverage(
    index: &Index,
    files: &Vec<CoverageFile>,
    known: KnownExtensions,
    ignore: Vec<NoRefEntry>,
    only_files: &Vec<FilePath>,
    verdicts: &Vec<Option<CandidateKind>>,
) -> (r: (CoverageReport, Vec<(FilePath, String, PathShape)>))
    ensures
        coverage_portable(*index, files@, known@) ==> ({
            let want = coverage_of(
                *index,
                files@,
                known@,
                ignore@.map_values(|e: NoRefEntry| e@),
                views(only_files@),
                verdicts_view(verdicts@),
            );
            &&& views(r.0.candidates@) == want.candidates
            &&& r.0.unused_config_ignores@.map_values(|e: NoRefEntry| e@) == want.unused_config_ignores
            &&& r.0.summary == want.summary
            &&& asked_view(r.1@) == want.asked
        }),
{
    let ghost only = views(only_files@);
    let ghost iv = ignore@.map_values(|e: NoRefEntry| e@);
    let mut scan = Scan {
        local: NoRefSet::new(Vec::new()),
        global: NoRefSet::new(ignore),
        ignored: 0,
        asked: Vec::new(),
        findings: Vec::new(),
    };
    let ghost start = scan@;
    assert(start.asked =~= Seq::<(Seq<char>, Seq<char>, PathShape)>::empty());
    assert(start.findings =~= Seq::<FindingView>::empty());
    assert(start.local.0 =~= Seq::<Seq<char>>::empty());
    assert(start.local.1 =~= Seq::<bool>::empty());
    assert(start == ScanState {
        local: (Seq::empty(), Seq::empty()),
        global: (iv, Seq::new(iv.len(), |i: int| false)),
        ignored: 0,
        asked: Seq::empty(),
        findings: Seq::empty(),
    });
    let paths = ordered_paths(index, only_files);
    let ghost pv = views(paths@);
    let mut i: usize = 0;
    while i < paths.len()
        invariant
            i <= paths@.len(),
            pv == views(paths@),
            coverage_portable(*index, files@, known@) ==> scan@ == files_state(
                start,
                *index,
                files@,
                pv.take(i as int),
                known@,
                verdicts_view(verdicts@),
            ),
        decreases paths.len() - i,
    {
        assert(pv.take(i + 1).drop_last() =~= pv.take(i as int));
        assert(pv.take(i + 1).last() == paths@[i as int]@);
        let path = paths[i];
        match (index.file_record(path), find_file(files, path)) {
            (Some(record), Some(file)) => {
                cover_file(&mut scan, index.root(), path, record, file, known, verdicts);
            },
            _ => {},
        }
        i += 1;
    }
    assert(pv.take(i as int) =~= pv);
    let ghost st = scan@;
    assert(coverage_portable(*index, files@, known@) ==> st == scanned(
        *index,
        files@,
        known@,
        iv,
        only,
        verdicts_view(verdicts@),
    ));

    let unused = unused_sorted(index, only_files);
    let ghost uv = views(unused@);
    let ghost base = findings_view(scan.findings@);
    let mut k: usize = 0;
    while k < unused.len()
        invariant
            k <= unused@.len(),
            uv == views(unused@),
            scan.global@ == st.global,
            scan.ignored == st.ignored,
            asked_view(scan.asked@) == st.asked,
            findings_view(scan.findings@) == base + uv.take(k as int).map_values(
                |u: (Seq<char>, Seq<char>, (int, int))| unused_alias_finding(index@.0, index@.1, u),
            ),
        decreases unused.len() - k,
    {
        let u = &unused[k];
        let region = match index.file_record(u.path) {
            Some(record) => region_holding(&record.markers, u.span.start),
            None => RegionKind::Prose,
        };
        let f = Finding {
            kind: CandidateKind::UnusedAlias { alias: u.alias.clone() },
            token: u.alias.as_str().to_owned(),
            site: CandidateSite {
                site: Site { root: index.root().clone(), path: u.path.clone(), span: u.span, region },
                text: u.alias.as_str().to_owned(),
            },
        };
        let ghost fv = f@;
        assert(uv[k as int] == u@);
        assert(fv == unused_alias_finding(index@.0, index@.1, uv[k as int]));
        let ghost before = findings_view(scan.findings@);
        scan.findings.push(f);
        assert(findings_view(scan.findings@) =~= before.push(fv));
        assert(uv.take(k + 1).map_values(
            |u: (Seq<char>, Seq<char>, (int, int))| unused_alias_finding(index@.0, index@.1, u),
        ) =~= uv.take(k as int).map_values(
            |u: (Seq<char>, Seq<char>, (int, int))| unused_alias_finding(index@.0, index@.1, u),
        ).push(fv));
        k += 1;
    }
    assert(uv.take(k as int) =~= uv);

    let annotated = annotated_in_scope(index, only_files);
    let mut config_unused: Vec<NoRefEntry> = Vec::new();
    if only_files.len() == 0 {
        let unused_entries = scan.global.unused();
        let ghost ue = unused_entries@.map_values(|p: (usize, &NoRefEntry)| (p.0 as int, p.1@));
        let mut j: usize = 0;
        while j < unused_entries.len()
            invariant
                j <= unused_entries@.len(),
                ue == unused_entries@.map_values(|p: (usize, &NoRefEntry)| (p.0 as int, p.1@)),
                config_unused@.map_values(|e: NoRefEntry| e@) == ue.take(j as int).map_values(
                    |u: (int, Seq<char>)| u.1,
                ),
            decreases unused_entries.len() - j,
        {
            let ghost before = config_unused@.map_values(|e: NoRefEntry| e@);
            config_unused.push(unused_entries[j].1.clone());
            assert(ue[j as int].1 == unused_entries@[j as int].1@);
            assert(config_unused@.map_values(|e: NoRefEntry| e@) =~= before.push(ue[j as int].1));
            assert(ue.take(j + 1).map_values(|u: (int, Seq<char>)| u.1) =~= ue.take(j as int).map_values(
                |u: (int, Seq<char>)| u.1,
            ).push(ue[j as int].1));
            j += 1;
        }
        assert(ue.take(j as int) =~= ue);
    } else {
        assert(config_unused@.map_values(|e: NoRefEntry| e@) =~= Seq::<Seq<char>>::empty());
    }

    let ghost fv = findings_view(scan.findings@);
    let mut counts: [usize; 4] = [0, 0, 0, 0];
    let mut n: usize = 0;
    while n < scan.findings.len()
        invariant
            n <= scan.findings@.len(),
            fv == findings_view(scan.findings@),
            scan.global@ == st.global,
            scan.ignored == st.ignored,
            asked_view(scan.asked@) == st.asked,
            counts@.len() == 4,
            counts@[0] == count_rank(fv.take(n as int), 0),
            counts@[1] == count_rank(fv.take(n as int), 1),
            counts@[2] == count_rank(fv.take(n as int), 2),
            counts@[3] == count_rank(fv.take(n as int), 3),
            counts@[0] + counts@[1] + counts@[2] + counts@[3] <= n,
        decreases scan.findings.len() - n,
    {
        assert(fv.take(n + 1).drop_last() =~= fv.take(n as int));
        assert(fv.take(n + 1).last() == scan.findings@[n as int]@);
        let r = kind_rank(&scan.findings[n].kind) as usize;
        counts.set(r, counts[r] + 1);
        n += 1;
    }
    assert(fv.take(n as int) =~= fv);
    let summary = CoverageSummary {
        annotated_refs: annotated,
        proposals: counts[0],
        unresolvable: counts[1],
        unused_aliases: counts[2],
        ignored: scan.ignored,
        unused_ignores: config_unused.len().saturating_add(counts[3]),
    };
    let Scan { asked, findings, .. } = scan;
    let candidates = group(findings);
    (CoverageReport { candidates, unused_config_ignores: config_unused, summary }, asked)
}

/// The group order never goes both ways round.
proof fn lemma_group_order_asymmetric(a: GroupV, b: GroupV)
    requires
        CandidateGroup::before(a, b),
    ensures
        !CandidateGroup::before(b, a),
{
    if rank(a.0) == rank(b.0) && a.2.len() == b.2.len() {
        if text_less(a.1, b.1) {
            crate::chars::lemma_text_less_asymmetric(a.1, b.1);
        } else {
            crate::index::lemma_site_less_asymmetric(b.2[0].0, a.2[0].0);
        }
    }
}

/// A group that sorts before a third sorts before any second group or after it: the group
/// order, read the other way, is transitive.
proof fn lemma_group_order_splits(a: GroupV, b: GroupV, c: GroupV)
    requires
        CandidateGroup::before(a, c),
    ensures
        CandidateGroup::before(a, b) || CandidateGroup::before(b, c),
{
    if rank(a.0) == rank(b.0) && rank(b.0) == rank(c.0) && a.2.len() == b.2.len() && b.2.len() == c.2.len() {
        crate::chars::lemma_text_less_trichotomy(a.1, b.1);
        crate::chars::lemma_text_less_trichotomy(b.1, c.1);
        if text_less(a.1, c.1) {
            if text_less(b.1, a.1) {
                crate::chars::lemma_text_less_transitive(b.1, a.1, c.1);
            }
        } else {
            assert(a.1 == c.1 && a.2.len() > 0 && site_less(a.2[0].0, c.2[0].0));
            if text_less(b.1, a.1) {
                assert(CandidateGroup::before(b, c));
            } else if text_less(a.1, b.1) {
                assert(CandidateGroup::before(a, b));
            } else {
                crate::chars::lemma_text_less_total(a.1, b.1);
                if !site_less(a.2[0].0, b.2[0].0) && !site_less(b.2[0].0, c.2[0].0) {
                    if site_less(b.2[0].0, a.2[0].0) {
                        crate::index::lemma_site_less_transitive(b.2[0].0, a.2[0].0, c.2[0].0);
                    } else {
                        crate::index::lemma_site_less_total(a.2[0].0, b.2[0].0);
                    }
                }
            }
        }
    }
}

/// The report order of groups is a strict weak order.
proof fn lemma_group_order_strict_weak()
    ensures
        strict_weak::<CandidateGroup>(),
{
    assert forall|a: GroupV, b: GroupV| #[trigger] CandidateGroup::before(a, b) implies !CandidateGroup::before(b, a) by {
        lemma_group_order_asymmetric(a, b);
    }
    assert forall|a: GroupV, b: GroupV, c: GroupV|
        #![trigger CandidateGroup::before(a, b), CandidateGroup::before(b, c)]
        !CandidateGroup::before(a, b) && !CandidateGroup::before(b, c) implies !CandidateGroup::before(a, c) by {
        if CandidateGroup::before(a, c) {
            lemma_group_order_splits(a, b, c);
        }
    }
}

/// Coverage reports its groups in a fixed order: proposals first, then unresolvable strings,
/// then unused aliases, then unused ignore entries; within a kind, groups with more sites
/// first; among those, by token.
pub proof fn lemma_groups_in_report_order(findings: Seq<FindingView>)
    ensures
        ({
            let g = grouped_findings(findings);
            forall|i: int, j: int|
                0 <= i < j < g.len() ==> rank((#[trigger] g[i]).0) < rank((#[trigger] g[j]).0) || (rank(g[i].0)
                    == rank(g[j].0) && (g[i].2.len() > g[j].2.len() || (g[i].2.len() == g[j].2.len()
                    && (g[i].1 == g[j].1 || text_less(g[i].1, g[j].1)))))
        }),
{
    lemma_group_order_strict_weak();
    let s = gathered(findings).map_values(|g: GroupV| (g.0, g.1, sorted::<CandidateSite>(g.2)));
    lemma_sorted_in_order::<CandidateGroup>(s);
    let g = grouped_findings(findings);
    assert forall|i: int, j: int| 0 <= i < j < g.len() implies rank((#[trigger] g[i]).0) < rank((#[trigger] g[j]).0) || (rank(
        g[i].0,
    ) == rank(g[j].0) && (g[i].2.len() > g[j].2.len() || (g[i].2.len() == g[j].2.len() && (g[i].1 == g[j].1
        || text_less(g[i].1, g[j].1))))) by {
        assert(!CandidateGroup::before(g[j], g[i]));
        crate::chars::lemma_text_less_trichotomy(g[i].1, g[j].1);
    }
}

/// A run narrowed to some files never calls a root-wide `[ignore] tokens` entry unused: it
/// cannot see the files where such an entry matches.
pub proof fn lemma_narrowed_runs_keep_config_entries(
    index: Index,
    files: Seq<CoverageFile>,
    known: Seq<Seq<char>>,
    ignore: Seq<Seq<char>>,
    only: Seq<Seq<char>>,
    verdicts: Seq<Option<CandView>>,
)
    requires
        only.len() > 0,
    ensures
        coverage_of(index, files, known, ignore, only, verdicts).unused_config_ignores.len() == 0,
{
}

/// Whether no two groups share a kind and a token.
pub open spec fn one_group_each(groups: Seq<GroupV>) -> bool {
    forall|i: int, j: int|
        0 <= i < j < groups.len() ==> !((#[trigger] groups[i]).0 == (#[trigger] groups[j]).0 && groups[i].1 == groups[j].1)
}

/// Where `group_index` points: at the first group of that kind and token, or past the end when
/// there is none.
proof fn lemma_group_index_facts(groups: Seq<GroupV>, kind: CandView, token: Seq<char>)
    ensures
        0 <= group_index(groups, kind, token) <= groups.len(),
        group_index(groups, kind, token) < groups.len() ==> groups[group_index(groups, kind, token)].0 == kind
            && groups[group_index(groups, kind, token)].1 == token,
        forall|j: int|
            0 <= j < group_index(groups, kind, token) ==> !((#[trigger] groups[j]).0 == kind && groups[j].1 == token),
    decreases groups.len(),
{
    if groups.len() > 0 && !(groups[0].0 == kind && groups[0].1 == token) {
        let rest = groups.drop_first();
        lemma_group_index_facts(rest, kind, token);
        assert forall|j: int| 0 <= j < group_index(groups, kind, token) implies !((#[trigger] groups[j]).0 == kind
            && groups[j].1 == token) by {
            if j > 0 {
                assert(groups[j] == rest[j - 1]);
            }
        }
        if group_index(groups, kind, token) < groups.len() {
            assert(groups[group_index(groups, kind, token)] == rest[group_index(rest, kind, token)]);
        }
    }
}

/// Gathering opens a group only for a kind and token no group has yet.
proof fn lemma_gathered_one_group_each(findings: Seq<FindingView>)
    ensures
        one_group_each(gathered(findings)),
    decreases findings.len(),
{
    if findings.len() > 0 {
        let before = gathered(findings.drop_last());
        lemma_gathered_one_group_each(findings.drop_last());
        let f = findings.last();
        lemma_group_index_facts(before, f.kind, f.token);
        let after = with_finding(before, f);
        assert forall|i: int, j: int| 0 <= i < j < after.len() implies !((#[trigger] after[i]).0 == (#[trigger] after[j]).0
            && after[i].1 == after[j].1) by {
            if j == before.len() {
                assert(after[i] == before[i]);
            } else {
                assert(after[i].0 == before[i].0 && after[i].1 == before[i].1);
                assert(after[j].0 == before[j].0 && after[j].1 == before[j].1);
            }
        }
    }
}

/// Coverage reports one group per kind and token: every site of a token with the same verdict
/// is in the same group.
pub proof fn lemma_one_group_per_token_and_verdict(findings: Seq<FindingView>)
    ensures
        one_group_each(grouped_findings(findings)),
{
    let s = gathered(findings).map_values(|g: GroupV| (g.0, g.1, sorted::<CandidateSite>(g.2)));
    lemma_gathered_one_group_each(findings);
    assert(one_group_each(s)) by {
        assert forall|i: int, j: int| 0 <= i < j < s.len() implies !((#[trigger] s[i]).0 == (#[trigger] s[j]).0
            && s[i].1 == s[j].1) by {
            assert(s[i].0 == gathered(findings)[i].0 && s[i].1 == gathered(findings)[i].1);
            assert(s[j].0 == gathered(findings)[j].0 && s[j].1 == gathered(findings)[j].1);
        }
    }
    lemma_sorted_one_group_each(s);
}

/// Sorting keeps one group per kind and token.
proof fn lemma_sorted_one_group_each(s: Seq<GroupV>)
    requires
        one_group_each(s),
    ensures
        one_group_each(sorted::<CandidateGroup>(s)),
    decreases s.len(),
{
    if s.len() > 0 {
        let rest = s.drop_last();
        assert(one_group_each(rest)) by {
            assert forall|i: int, j: int| 0 <= i < j < rest.len() implies !((#[trigger] rest[i]).0 == (#[trigger] rest[j]).0
                && rest[i].1 == rest[j].1) by {
                assert(rest[i] == s[i] && rest[j] == s[j]);
            }
        }
        lemma_sorted_one_group_each(rest);
        let t = sorted::<CandidateGroup>(rest);
        lemma_sorted_elements::<CandidateGroup>(rest);
        let x = s.last();
        let p = crate::order::insert_point::<CandidateGroup>(t, x);
        crate::order::lemma_sorted_permutes::<CandidateGroup>(rest);
        crate::order::lemma_insert_point_facts::<CandidateGroup>(t, x);
        let u = t.insert(p, x);
        assert forall|i: int, j: int| 0 <= i < j < u.len() implies !((#[trigger] u[i]).0 == (#[trigger] u[j]).0
            && u[i].1 == u[j].1) by {
            if i == p || j == p {
                let k = if i == p { j } else { i };
                let m = if k < p { k } else { k - 1 };
                assert(u[k] == t[m]);
                assert(t.contains(t[m]));
                assert(rest.contains(t[m]));
                let n = choose|n: int| 0 <= n < rest.len() && rest[n] == t[m];
                assert(s[n] == t[m]);
                assert(!(s[n].0 == s[s.len() - 1].0 && s[n].1 == s[s.len() - 1].1));
            } else {
                let a = if i < p { i } else { i - 1 };
                let b = if j < p { j } else { j - 1 };
                assert(u[i] == t[a] && u[j] == t[b]);
            }
        }
    }
}

/// A token that the file's own ignore list claims is counted there: the root-wide list is left
/// as it was, so a local entry shadows a global one, and nothing is reported or asked.
pub proof fn lemma_local_entry_shadows_global(
    st: ScanState,
    ctx: FileContext,
    start: int,
    region: RegionKind,
    t: TokenSpec,
    verdicts: Seq<Option<CandView>>,
)
    requires
        first_match(st.local.0, t.text) >= 0,
    ensures
        token_step(st, ctx, start, region, t, verdicts).global == st.global,
        token_step(st, ctx, start, region, t, verdicts).findings == st.findings,
        token_step(st, ctx, start, region, t, verdicts).asked == st.asked,
{
}

} // verus!
