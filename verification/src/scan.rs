//! What a walk of one root produced, and the decisions made per file along the way. The walk
//! itself reads the disk; everything it decides from what it read is here.
use vstd::prelude::*;

use crate::chars::{
    less_path, path_less, ascii_lower, decimal, decimal_text, less_text, push_char, push_text, same_text, text_less, to_ascii_lower,
    to_chars,
};
use crate::marker::lex::{malformed_view, markers_view, MalformedSpec, MarkerSpec};
use crate::order::{sort_items, sorted, views, Ordered};
use crate::span::LineIndex;
use crate::marker::{Marker, PayloadView};
use crate::config::ScanConfig;
use crate::marker::noref::{glob_accepts, portable_candidate};
use crate::root::FilePath;
use crate::text::FileScan;

verus! {

/// External roots contribute only anchors: their references are someone else's to check.
#[derive(Debug, Clone, Copy, PartialEq, Eq, Structural)]
pub enum ScanMode {
    Full,
    AnchorsOnly,
}

/// One file that was lexed.
#[derive(Debug, Clone)]
pub struct ScannedFile {
    pub path: FilePath,
    pub scan: FileScan,
}

/// Why a file selected for scanning could not be checked.
#[derive(Debug, PartialEq, Eq, Hash)]
pub enum SkipReason {
    TooLarge { bytes: u64, limit: u64 },
    NotUtf8,
    Unreadable { message: String },
    /// The file's grammar could not be applied; the analyzer's own message.
    Analyze { message: String },
}

/// `SkipReason` with its text taken by value.
pub enum SkipView {
    TooLarge { bytes: u64, limit: u64 },
    NotUtf8,
    Unreadable { message: Seq<char> },
    Analyze { message: Seq<char> },
}

impl View for SkipReason {
    type V = SkipView;

    open spec fn view(&self) -> SkipView {
        match self {
            SkipReason::TooLarge { bytes, limit } => SkipView::TooLarge { bytes: *bytes, limit: *limit },
            SkipReason::NotUtf8 => SkipView::NotUtf8,
            SkipReason::Unreadable { message } => SkipView::Unreadable { message: message@ },
            SkipReason::Analyze { message } => SkipView::Analyze { message: message@ },
        }
    }
}

/// What a skipped file is reported as.
pub open spec fn skip_message(r: SkipView) -> Seq<char> {
    match r {
        SkipView::TooLarge { bytes, limit } => "file is "@ + decimal(bytes as nat) + " bytes, over the "@
            + decimal(limit as nat) + "-byte limit (`scan.max-file-bytes`)"@,
        SkipView::NotUtf8 => "file is not valid UTF-8"@,
        SkipView::Unreadable { message } => "could not read file: "@ + message,
        SkipView::Analyze { message } => message,
    }
}

impl SkipReason {
    /// The message this reason is reported with.
    pub fn message(&self) -> (s: String)
        ensures
            s@ == skip_message(self@),
    {
        match self {
            SkipReason::TooLarge { bytes, limit } => {
                let mut s = "file is ".to_owned();
                push_text(&mut s, &decimal_text(*bytes));
                push_text(&mut s, " bytes, over the ");
                push_text(&mut s, &decimal_text(*limit));
                push_text(&mut s, "-byte limit (`scan.max-file-bytes`)");
                s
            },
            SkipReason::NotUtf8 => "file is not valid UTF-8".to_owned(),
            SkipReason::Unreadable { message } => {
                let mut s = "could not read file: ".to_owned();
                push_text(&mut s, message.as_str());
                s
            },
            SkipReason::Analyze { message } => message.clone(),
        }
    }

    /// Whether the two reasons are the same.
    pub fn same_as(&self, other: &SkipReason) -> (b: bool)
        ensures
            b == (self@ == other@),
    {
        match (self, other) {
            (SkipReason::TooLarge { bytes: b1, limit: l1 }, SkipReason::TooLarge { bytes: b2, limit: l2 }) => {
                *b1 == *b2 && *l1 == *l2
            },
            (SkipReason::NotUtf8, SkipReason::NotUtf8) => true,
            (SkipReason::Unreadable { message: m1 }, SkipReason::Unreadable { message: m2 }) => {
                same_text(m1.as_str(), m2.as_str())
            },
            (SkipReason::Analyze { message: m1 }, SkipReason::Analyze { message: m2 }) => {
                same_text(m1.as_str(), m2.as_str())
            },
            _ => false,
        }
    }
}

impl Clone for SkipReason {
    fn clone(&self) -> (r: Self)
        ensures
            r@ == self@,
    {
        match self {
            SkipReason::TooLarge { bytes, limit } => SkipReason::TooLarge { bytes: *bytes, limit: *limit },
            SkipReason::NotUtf8 => SkipReason::NotUtf8,
            SkipReason::Unreadable { message } => SkipReason::Unreadable { message: message.clone() },
            SkipReason::Analyze { message } => SkipReason::Analyze { message: message.clone() },
        }
    }
}

/// A file that was selected for scanning but could not be checked. Always reported.
#[derive(Debug, Clone, PartialEq, Eq)]
pub struct SkippedFile {
    pub path: FilePath,
    pub reason: SkipReason,
}

/// A walker error not attributable to a scannable file (permission denied on a directory, a
/// non-UTF-8 file name).
#[derive(Debug, Clone, PartialEq, Eq)]
pub struct WalkProblem {
    pub path: Option<String>,
    pub message: String,
}

/// Everything one walk produced.
#[derive(Debug)]
pub struct ScanOutput {
    pub files: Vec<ScannedFile>,
    pub skipped: Vec<SkippedFile>,
    pub problems: Vec<WalkProblem>,
    /// Lowercased extensions of every file the walk reached, parsed or not, each once, in
    /// text order (see `note_extension`).
    pub extensions: Vec<String>,
}

impl View for ScannedFile {
    type V = (Seq<char>, Seq<MarkerSpec>, Seq<MalformedSpec>, Seq<char>);

    open spec fn view(&self) -> Self::V {
        (self.path@, markers_view(self.scan.markers@), malformed_view(self.scan.malformed@), self.scan.line_index@)
    }
}

impl Ordered for ScannedFile {
    /// By path.
    open spec fn before(a: Self::V, b: Self::V) -> bool {
        path_less(a.0, b.0)
    }

    fn less(&self, other: &Self) -> (b: bool) {
        less_path(self.path.as_str(), other.path.as_str())
    }
}

impl View for SkippedFile {
    type V = (Seq<char>, SkipView);

    open spec fn view(&self) -> Self::V {
        (self.path@, self.reason@)
    }
}

impl Ordered for SkippedFile {
    /// By path.
    open spec fn before(a: Self::V, b: Self::V) -> bool {
        path_less(a.0, b.0)
    }

    fn less(&self, other: &Self) -> (b: bool) {
        less_path(self.path.as_str(), other.path.as_str())
    }
}

/// The text of an optional string.
pub open spec fn opt_view(s: Option<String>) -> Option<Seq<char>> {
    match s {
        Some(t) => Some(t@),
        None => None,
    }
}

impl View for WalkProblem {
    type V = (Option<Seq<char>>, Seq<char>);

    open spec fn view(&self) -> Self::V {
        (opt_view(self.path), self.message@)
    }
}

/// Whether optional text `a` sorts before `b`: none first, then in text order.
pub open spec fn opt_text_less(a: Option<Seq<char>>, b: Option<Seq<char>>) -> bool {
    match (a, b) {
        (None, Some(_)) => true,
        (Some(x), Some(y)) => text_less(x, y),
        _ => false,
    }
}

impl Ordered for WalkProblem {
    /// By path, a problem with none first, then by message.
    open spec fn before(a: Self::V, b: Self::V) -> bool {
        opt_text_less(a.0, b.0) || (a.0 == b.0 && text_less(a.1, b.1))
    }

    fn less(&self, other: &Self) -> (b: bool) {
        let by_path = match (&self.path, &other.path) {
            (None, Some(_)) => true,
            (Some(x), Some(y)) => less_text(x.as_str(), y.as_str()),
            _ => false,
        };
        if by_path {
            return true;
        }
        let same_path = match (&self.path, &other.path) {
            (None, None) => true,
            (Some(x), Some(y)) => same_text(x.as_str(), y.as_str()),
            _ => false,
        };
        same_path && less_text(self.message.as_str(), other.message.as_str())
    }
}

/// A walk's output in report order: files and skipped files by path, problems by path and then
/// message, each sort stable; the extensions as they were.
pub fn sort_scan_output(output: ScanOutput) -> (r: ScanOutput)
    ensures
        views(r.files@) == sorted::<ScannedFile>(views(output.files@)),
        views(r.skipped@) == sorted::<SkippedFile>(views(output.skipped@)),
        views(r.problems@) == sorted::<WalkProblem>(views(output.problems@)),
        r.extensions@ == output.extensions@,
{
    let ScanOutput { files, skipped, problems, extensions } = output;
    ScanOutput { files: sort_items(files), skipped: sort_items(skipped), problems: sort_items(problems), extensions }
}

/// Whether the walk keeps an entry named `file_name`: `.git` is never walked, and an entry that
/// `[ignore] paths` removes (see `IgnoreConfig::removes`) is pruned with everything under it.
pub fn walk_keeps(file_name: &str, removed: bool) -> (b: bool)
    ensures
        b == (file_name@ != ".git"@ && !removed),
{
    let git = ".git";
    proof {
        reveal_strlit(".git");
    }
    !removed && !same_text(file_name, git)
}

/// Whether a walked file is checked: when `[scan] include` is set, one of its globs must match
/// the file's path.
pub fn selects(scan: &ScanConfig, path: &FilePath) -> (b: bool)
    ensures
        match scan.includes {
            None => b,
            Some(globs) => portable_candidate(path@) ==> b == exists|i: int|
                0 <= i < globs@.len() && glob_accepts(#[trigger] globs@[i], path@),
        },
{
    match &scan.includes {
        None => true,
        Some(globs) => globs.is_match(path.as_str()),
    }
}

/// The reason a file of `bytes` bytes is skipped before it is read, under a limit of `limit`.
pub fn size_verdict(bytes: u64, limit: u64) -> (r: Option<SkipReason>)
    ensures
        bytes > limit ==> (r matches Some(reason) && reason@ == (SkipView::TooLarge { bytes, limit })),
        bytes <= limit ==> r is None,
{
    if bytes > limit {
        Some(SkipReason::TooLarge { bytes, limit })
    } else {
        None
    }
}

/// The texts of `v`.
pub open spec fn texts(v: Seq<String>) -> Seq<Seq<char>> {
    v.map_values(|s: String| s@)
}

/// Whether each text sorts strictly before every later one: an ordered set of texts.
pub open spec fn strictly_increasing(s: Seq<Seq<char>>) -> bool {
    forall|i: int, j: int| 0 <= i < j < s.len() ==> text_less(#[trigger] s[i], #[trigger] s[j])
}

/// `e` with ASCII capitals lowered, as `str::to_ascii_lowercase` does.
pub open spec fn lowered(e: Seq<char>) -> Seq<char> {
    e.map_values(|c: char| ascii_lower(c))
}

/// Whether `e` can be the extension of `path`: text after a `.` of the path, holding no `.`
/// and no `/`.
pub open spec fn extension_of(path: Seq<char>, e: Seq<char>) -> bool {
    &&& !e.contains('.')
    &&& !e.contains('/')
    &&& exists|k: int| 1 <= k && k + e.len() <= path.len() && path[k - 1] == '.' && #[trigger] path.subrange(k, k + e.len()) == e
}

/// `Utf8Path::extension` of camino on `path`: the part of the file name after its last `.`,
/// none when the name has no `.` but a leading one. Which separators end the file name depends
/// on the platform, so the contract claims only what holds everywhere: the extension is text
/// of the path after a `.`, with no `.` or `/` in it.
#[verifier::external_body]
fn file_extension(path: &str) -> (r: Option<String>)
    ensures
        r matches Some(e) ==> extension_of(path@, e@),
{
    camino::Utf8Path::new(path).extension().map(|e| e.to_owned())
}

/// `extension` with ASCII capitals lowered.
fn lower_ascii(extension: &str) -> (r: String)
    ensures
        r@ == lowered(extension@),
{
    let chars = to_chars(extension);
    let mut out = String::new();
    let mut i: usize = 0;
    while i < chars.len()
        invariant
            chars@ == extension@,
            i <= chars@.len(),
            out@ == lowered(extension@).take(i as int),
        decreases chars.len() - i,
    {
        let c = to_ascii_lower(chars[i]);
        push_char(&mut out, c);
        assert(lowered(extension@).take(i + 1) =~= lowered(extension@).take(i as int).push(c));
        i += 1;
    }
    assert(lowered(extension@).take(i as int) =~= lowered(extension@));
    out
}

/// Adds `extension`, lowered to ASCII lower case, to the ordered set `extensions`: it stays in
/// text order, each text once, and gains the lowered extension if it lacked it.
pub fn note_extension(extensions: &mut Vec<String>, extension: &str)
    requires
        strictly_increasing(texts(old(extensions)@)),
    ensures
        strictly_increasing(texts(final(extensions)@)),
        texts(final(extensions)@).to_set() == texts(old(extensions)@).to_set().insert(lowered(extension@)),
{
    let low = lower_ascii(extension);
    let ghost before = texts(extensions@);
    let ghost x = low@;
    let mut i: usize = 0;
    while i < extensions.len() && less_text(extensions[i].as_str(), low.as_str())
        invariant
            before == texts(extensions@),
            x == low@,
            strictly_increasing(before),
            i <= extensions@.len(),
            forall|k: int| 0 <= k < i ==> text_less(#[trigger] before[k], x),
        decreases extensions.len() - i,
    {
        assert(before[i as int] == extensions@[i as int]@);
        i += 1;
    }
    if i < extensions.len() && same_text(extensions[i].as_str(), low.as_str()) {
        proof {
            assert(before[i as int] == x);
            assert(before.to_set().insert(x) =~= before.to_set());
        }
        return;
    }
    proof {
        if i < before.len() {
            assert(before[i as int] == extensions@[i as int]@);
            crate::chars::lemma_text_less_trichotomy(before[i as int], x);
        }
    }
    extensions.insert(i, low);
    let ghost after = texts(extensions@);
    assert(after =~= before.insert(i as int, x));
    proof {
        assert forall|a: int, b: int| 0 <= a < b < after.len() implies text_less(#[trigger] after[a], #[trigger] after[b]) by {
            if b < i {
            } else if b == i {
            } else if a < i {
                assert(text_less(before[a], before[b - 1]));
            } else if a == i {
                if b - 1 > i {
                    crate::chars::lemma_text_less_transitive(x, before[i as int], before[b - 1]);
                }
            } else {
            }
        }
        assert forall|y: Seq<char>| #[trigger] after.contains(y) == before.to_set().insert(x).contains(y) by {
            if after.contains(y) {
                let k = choose|k: int| 0 <= k < after.len() && after[k] == y;
                if k < i {
                    assert(before[k] == y);
                } else if k > i {
                    assert(before[k - 1] == y);
                }
            }
            if before.contains(y) {
                let k = choose|k: int| 0 <= k < before.len() && before[k] == y;
                if k < i {
                    assert(after[k] == y);
                } else {
                    assert(after[k + 1] == y);
                }
            }
            if y == x {
                assert(after[i as int] == x);
            }
        }
        assert(after.to_set() =~= before.to_set().insert(x));
    }
}

/// Adds the extension of `path`, if it has one, lowered, to the ordered set `extensions`.
/// Which text is the extension is camino's answer (see `file_extension`).
pub fn record_extension(extensions: &mut Vec<String>, path: &FilePath)
    requires
        strictly_increasing(texts(old(extensions)@)),
    ensures
        strictly_increasing(texts(final(extensions)@)),
        texts(final(extensions)@).to_set() == texts(old(extensions)@).to_set() || exists|e: Seq<char>|
            extension_of(path@, e) && texts(final(extensions)@).to_set() == texts(old(extensions)@).to_set().insert(
                #[trigger] lowered(e),
            ),
{
    match file_extension(path.as_str()) {
        Some(e) => {
            note_extension(extensions, e.as_str());
            assert(extension_of(path@, e@));
        },
        None => {},
    }
}

/// The anchors among `markers`, in order.
pub open spec fn anchors_of(markers: Seq<MarkerSpec>) -> Seq<MarkerSpec>
    decreases markers.len(),
{
    if markers.len() == 0 {
        markers
    } else {
        let rest = anchors_of(markers.drop_last());
        if markers.last().payload is Anchor {
            rest.push(markers.last())
        } else {
            rest
        }
    }
}

/// A scan as the mode keeps it: an external root keeps its anchors and nothing else.
pub fn keep_for_mode(scan: FileScan, mode: ScanMode) -> (r: FileScan)
    ensures
        r.line_index@ == scan.line_index@,
        mode == ScanMode::Full ==> markers_view(r.markers@) == markers_view(scan.markers@)
            && r.malformed@ == scan.malformed@,
        mode == ScanMode::AnchorsOnly ==> markers_view(r.markers@) == anchors_of(
            markers_view(scan.markers@),
        ) && r.malformed@.len() == 0,
{
    match mode {
        ScanMode::Full => scan,
        ScanMode::AnchorsOnly => {
            let FileScan { markers, malformed, line_index } = scan;
            let ghost all = markers_view(markers@);
            let mut rest = markers;
            let mut kept: Vec<Marker> = Vec::new();
            let mut i: usize = 0;
            let total = rest.len();
            assert(all.len() == total);
            assert(all.take(0) =~= Seq::<MarkerSpec>::empty());
            while rest.len() > 0
                invariant
                    i + rest@.len() == all.len(),
                    all.len() <= usize::MAX,
                    markers_view(rest@) == all.skip(i as int),
                    markers_view(kept@) == anchors_of(all.take(i as int)),
                decreases rest.len(),
            {
                let ghost rs = rest@;
                let m = rest.remove(0);
                proof {
                    assert(rest@ =~= rs.subrange(1, rs.len() as int));
                    assert(markers_view(rs)[0] == rs[0]@);
                    assert(all.skip(i as int)[0] == all[i as int]);
                    assert(m@ == all[i as int]);
                    assert(all.take(i + 1).drop_last() =~= all.take(i as int));
                    let nv = markers_view(rest@);
                    assert forall|j: int| 0 <= j < nv.len() implies #[trigger] nv[j] == all.skip(
                        i + 1,
                    )[j] by {
                        assert(rest@[j] == rs[j + 1]);
                        assert(markers_view(rs)[j + 1] == all.skip(i as int)[j + 1]);
                    }
                    assert(nv =~= all.skip(i + 1));
                }
                let is_anchor = match &m.payload {
                    crate::marker::MarkerPayload::Anchor { .. } => true,
                    _ => false,
                };
                if is_anchor {
                    let ghost before = markers_view(kept@);
                    kept.push(m);
                    assert(markers_view(kept@) =~= before.push(all[i as int]));
                }
                i += 1;
            }
            assert(all.take(i as int) =~= all);
            FileScan { markers: kept, malformed: Vec::new(), line_index }
        },
    }
}

} // verus!
