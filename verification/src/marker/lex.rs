//! Finding markers in the text regions of a file.
//!
//! A marker is `@`, one of the words `anchor`, `ref`, `noref` or nothing, `[`, and a body that
//! runs to the first `[`, `]` or line break; the body counts only when that character is `]`.
//! Otherwise the opener alone is a marker missing its `]`. `[` ends a body so one unclosed
//! opener cannot swallow the next marker. Markers are found leftmost first and never overlap.
use vstd::prelude::*;

use crate::chars::{
    byte_len, byte_offsets, lemma_byte_len_monotone, lemma_byte_len_subrange, str_byte_len,
    to_chars,
};
use crate::marker::noref::NoRefItem;
use crate::marker::target::{blen, file_dir};
use crate::marker::{
    Alias, AnchorId, MalformedMarker, MalformedReason, Marker, MarkerKind, MarkerPayload,
    PayloadView, ReasonView, body_verdict, parse_noref_body, parse_target, shift,
};
use crate::root::{FilePath, directory_of};
use crate::span::ByteSpan;
use crate::text::{RegionKind, TextRegion};

verus! {

broadcast use vstd::string::group_string_axioms;

/// Whether `c` is alphabetic or numeric in Unicode's sense.
pub uninterp spec fn unicode_alphanumeric(c: char) -> bool;

/// `char::is_alphanumeric`; the contract claims only that the answer is
/// `unicode_alphanumeric(c)`.
#[verifier::external_body]
pub(crate) fn is_alphanumeric(c: char) -> (b: bool)
    ensures
        b == unicode_alphanumeric(c),
{
    c.is_alphanumeric()
}

/// The word between `@` and `[` that opens a marker of `kind`.
pub open spec fn kind_word(kind: MarkerKind) -> Seq<char> {
    match kind {
        MarkerKind::Anchor => seq!['a', 'n', 'c', 'h', 'o', 'r'],
        MarkerKind::Ref => seq!['r', 'e', 'f'],
        MarkerKind::NoRef => seq!['n', 'o', 'r', 'e', 'f'],
        MarkerKind::Use => Seq::empty(),
    }
}

/// Whether `t` holds `w` starting at `i`.
pub open spec fn word_at(t: Seq<char>, i: int, w: Seq<char>) -> bool {
    0 <= i && i + w.len() <= t.len() && t.subrange(i, i + w.len()) == w
}

/// Whether `t` holds `kind`'s word followed by `[` right after an `@` at `p`.
pub open spec fn opens(t: Seq<char>, p: int, kind: MarkerKind) -> bool {
    word_at(t, p + 1, kind_word(kind).push('['))
}

/// The kind of the marker whose `@` is at `p`: the first of `anchor`, `ref`, `noref` and the
/// empty word that `[` follows, if any.
pub open spec fn opener_at(t: Seq<char>, p: int) -> Option<MarkerKind> {
    if !(0 <= p < t.len() && t[p] == '@') {
        None
    } else if opens(t, p, MarkerKind::Anchor) {
        Some(MarkerKind::Anchor)
    } else if opens(t, p, MarkerKind::Ref) {
        Some(MarkerKind::Ref)
    } else if opens(t, p, MarkerKind::NoRef) {
        Some(MarkerKind::NoRef)
    } else if opens(t, p, MarkerKind::Use) {
        Some(MarkerKind::Use)
    } else {
        None
    }
}

pub open spec fn ends_body(c: char) -> bool {
    c == '[' || c == ']' || c == '\n'
}

/// The first index from `i` on whose character ends a body, or the length of `t`.
pub open spec fn body_stop(t: Seq<char>, i: int) -> int
    decreases t.len() - i,
{
    if i < 0 || i >= t.len() {
        t.len() as int
    } else if ends_body(t[i]) {
        i
    } else {
        body_stop(t, i + 1)
    }
}

pub proof fn lemma_body_stop(t: Seq<char>, i: int)
    requires
        0 <= i <= t.len(),
    ensures
        i <= body_stop(t, i) <= t.len(),
        forall|q: int| i <= q < body_stop(t, i) ==> !ends_body(#[trigger] t[q]),
        body_stop(t, i) < t.len() ==> ends_body(t[body_stop(t, i)]),
    decreases t.len() - i,
{
    if i < t.len() && !ends_body(t[i]) {
        lemma_body_stop(t, i + 1);
    }
}

/// The marker whose `@` is at `p`: its kind, the character range of its body when `]` closes
/// it, and where it ends.
pub open spec fn marker_at(t: Seq<char>, p: int) -> Option<(MarkerKind, Option<(int, int)>, int)> {
    match opener_at(t, p) {
        None => None,
        Some(kind) => {
            let b = p + 2 + kind_word(kind).len();
            let e = body_stop(t, b);
            if e < t.len() && t[e] == ']' {
                Some((kind, Some((b, e)), e + 1))
            } else {
                Some((kind, None, b))
            }
        },
    }
}

pub proof fn lemma_marker_at(t: Seq<char>, p: int)
    ensures
        marker_at(t, p) matches Some((kind, body, end)) ==> {
            &&& p + 2 <= end <= t.len()
            &&& body matches Some((b, e)) ==> p + 2 <= b <= e < end && end == e + 1
        },
{
    if let Some(kind) = opener_at(t, p) {
        lemma_body_stop(t, p + 2 + kind_word(kind).len());
    }
}

/// The markers of `t` from `p` on, leftmost first and never overlapping: each with the index
/// of its `@`.
pub open spec fn markers_from(t: Seq<char>, p: int) -> Seq<(int, MarkerKind, Option<(int, int)>, int)>
    decreases t.len() - p,
{
    if p < 0 || p >= t.len() {
        Seq::empty()
    } else {
        proof {
            lemma_marker_at(t, p);
        }
        match marker_at(t, p) {
            Some((kind, body, end)) => seq![(p, kind, body, end)] + markers_from(t, end),
            None => markers_from(t, p + 1),
        }
    }
}

/// Byte offset of the character `i` of `s`.
pub open spec fn off(s: Seq<char>, i: int) -> int {
    byte_len(s.take(i)) as int
}

/// `foo@ref[x]` inside an email-like token is not a marker, and `\@ref[x]` is an escaped
/// example: the character before the `@` at `i`, in the whole file, decides.
pub open spec fn glued_at(s: Seq<char>, i: int) -> bool {
    i > 0 && (unicode_alphanumeric(s[i - 1]) || s[i - 1] == '_' || s[i - 1] == '\\')
}

/// A marker with its spans as file byte ranges.
pub struct MarkerSpec {
    pub payload: PayloadView,
    pub span: (int, int),
    pub body_span: (int, int),
    pub region: RegionKind,
}

/// A malformed marker with its span as a file byte range.
pub struct MalformedSpec {
    pub kind: MarkerKind,
    pub reason: ReasonView,
    pub span: (int, int),
    pub region: RegionKind,
}

impl View for Marker {
    type V = MarkerSpec;

    open spec fn view(&self) -> MarkerSpec {
        MarkerSpec {
            payload: self.payload@,
            span: (self.span.start as int, self.span.end as int),
            body_span: (self.body_span.start as int, self.body_span.end as int),
            region: self.region,
        }
    }
}

impl View for MalformedMarker {
    type V = MalformedSpec;

    open spec fn view(&self) -> MalformedSpec {
        MalformedSpec {
            kind: self.kind,
            reason: self.reason@,
            span: (self.span.start as int, self.span.end as int),
            region: self.region,
        }
    }
}

/// The markers and malformed markers that the `found` markers of a region yield, the region
/// starting at character `ci` of the file `s`, in a file whose directory is `dir`.
pub open spec fn lex_items(
    s: Seq<char>,
    ci: int,
    found: Seq<(int, MarkerKind, Option<(int, int)>, int)>,
    region: RegionKind,
    dir: Seq<char>,
) -> (Seq<MarkerSpec>, Seq<MalformedSpec>)
    decreases found.len(),
{
    if found.len() == 0 {
        (Seq::empty(), Seq::empty())
    } else {
        let (p, kind, body, end) = found[0];
        let rest = lex_items(s, ci, found.drop_first(), region, dir);
        if glued_at(s, ci + p) {
            rest
        } else {
            let span = (off(s, ci + p), off(s, ci + end));
            match body {
                None => (
                    rest.0,
                    seq![MalformedSpec { kind, reason: ReasonView::Unclosed, span, region }]
                        + rest.1,
                ),
                Some((b, e)) => {
                    let body_span = (off(s, ci + b), off(s, ci + e));
                    match body_verdict(kind, s.subrange(ci + b, ci + e), body_span.0, Some(dir)) {
                        Ok(payload) => (
                            seq![MarkerSpec { payload, span, body_span, region }] + rest.0,
                            rest.1,
                        ),
                        Err(reason) => (
                            rest.0,
                            seq![MalformedSpec { kind, reason, span, region }] + rest.1,
                        ),
                    }
                },
            }
        }
    }
}

/// The characters `i..j` of `s` whose byte offsets are the ends of `span`, when both ends fall
/// on character boundaries and the span does not run backwards.
pub open spec fn char_range(s: Seq<char>, span: ByteSpan) -> Option<(int, int)> {
    if exists|i: int, j: int|
        0 <= i <= j <= s.len() && off(s, i) == span.start && off(s, j) == span.end {
        Some(
            choose|i: int, j: int|
                0 <= i <= j <= s.len() && off(s, i) == span.start && off(s, j) == span.end,
        )
    } else {
        None
    }
}

/// What `lex` finds in `regions` of the file `s` whose directory is `dir`, or the first
/// region that does not lie on character boundaries.
pub open spec fn lex_regions(s: Seq<char>, regions: Seq<TextRegion>, dir: Seq<char>) -> Result<
    (Seq<MarkerSpec>, Seq<MalformedSpec>),
    ByteSpan,
>
    decreases regions.len(),
{
    if regions.len() == 0 {
        Ok((Seq::empty(), Seq::empty()))
    } else {
        let region = regions[0];
        match char_range(s, region.span) {
            None => Err(region.span),
            Some((i, j)) => {
                let here = lex_items(s, i, markers_from(s.subrange(i, j), 0), region.kind, dir);
                match lex_regions(s, regions.drop_first(), dir) {
                    Err(span) => Err(span),
                    Ok(rest) => Ok((here.0 + rest.0, here.1 + rest.1)),
                }
            },
        }
    }
}

#[derive(Debug, Clone, PartialEq, Eq)]
pub struct Lexed {
    pub markers: Vec<Marker>,
    pub malformed: Vec<MalformedMarker>,
}

#[derive(Debug, Clone, Copy, PartialEq, Eq, Structural, Hash)]
pub enum LexError {
    RegionNotOnCharBoundary { span: ByteSpan },
}

pub open spec fn markers_view(markers: Seq<Marker>) -> Seq<MarkerSpec> {
    markers.map_values(|m: Marker| m@)
}

pub open spec fn malformed_view(malformed: Seq<MalformedMarker>) -> Seq<MalformedSpec> {
    malformed.map_values(|m: MalformedMarker| m@)
}

/// Finds every marker inside the given regions of `source`. Bytes outside the regions are
/// never examined, which is how code fences and non-comment code stay unchecked. `written_in`
/// is the file being lexed; `./` and `../` targets are anchored to its directory here, so no
/// marker ever carries a path that is not root-relative.
#[verifier::spinoff_prover]
#[verifier::rlimit(60)]
pub fn lex(source: &str, regions: &[TextRegion], written_in: &FilePath) -> (r: Result<
    Lexed,
    LexError,
>)
    ensures
        match lex_regions(source@, regions@, directory_of(written_in@)) {
            Ok((markers, malformed)) => r matches Ok(lexed) && markers_view(lexed.markers@)
                == markers && malformed_view(lexed.malformed@) == malformed,
            Err(span) => r == Err::<Lexed, LexError>(LexError::RegionNotOnCharBoundary { span }),
        },
{
    let chars = to_chars(source);
    let total = str_byte_len(source);
    let offsets = byte_offsets(&chars);
    let ghost s = source@;
    let ghost dir = directory_of(written_in@);
    let mut lexed = Lexed { markers: Vec::new(), malformed: Vec::new() };
    let mut k: usize = 0;
    proof {
        lemma_offsets_increase(s);
        assert(regions@.skip(0) =~= regions@);
    }
    while k < regions.len()
        invariant
            k <= regions@.len(),
            chars@ == s,
            s == source@,
            dir == directory_of(written_in@),
            total == byte_len(s),
            offsets@.len() == s.len() + 1,
            forall|i: int| 0 <= i <= s.len() ==> offsets@[i] == off(s, i),
            forall|i: int, j: int| 0 <= i < j <= s.len() ==> off(s, i) < off(s, j),
            lex_regions(s, regions@, dir) == match lex_regions(s, regions@.skip(k as int), dir) {
                Err(span) => Err(span),
                Ok(rest) => Ok(
                    (
                        markers_view(lexed.markers@) + rest.0,
                        malformed_view(lexed.malformed@) + rest.1,
                    ),
                ),
            },
        decreases regions.len() - k,
    {
        let region = regions[k];
        let ghost tail = regions@.skip(k as int);
        assert(tail[0] == region);
        assert(tail.drop_first() =~= regions@.skip(k + 1));
        let found = char_range_of(&offsets, region.span, Ghost(s));
        proof {
            lemma_regions_step(s, tail, dir);
        }
        let (ci, cj) = match found {
            Some(ij) => ij,
            None => {
                return Err(LexError::RegionNotOnCharBoundary { span: region.span });
            },
        };
        let ghost before_m = markers_view(lexed.markers@);
        let ghost before_f = malformed_view(lexed.malformed@);
        lex_region(source, &chars, &offsets, ci, cj, region.kind, written_in, &mut lexed);
        proof {
            let here = lex_items(s, ci as int, markers_from(s.subrange(ci as int, cj as int), 0), region.kind, dir);
            let rest = lex_regions(s, regions@.skip(k + 1), dir);
            if rest is Ok {
                assert(before_m + (here.0 + rest->Ok_0.0) =~= markers_view(lexed.markers@)
                    + rest->Ok_0.0);
                assert(before_f + (here.1 + rest->Ok_0.1) =~= malformed_view(lexed.malformed@)
                    + rest->Ok_0.1);
            }
        }
        k += 1;
    }
    proof {
        assert(regions@.skip(k as int).len() == 0);
        assert(markers_view(lexed.markers@) + Seq::<MarkerSpec>::empty() =~= markers_view(
            lexed.markers@,
        ));
        assert(malformed_view(lexed.malformed@) + Seq::<MalformedSpec>::empty() =~= malformed_view(
            lexed.malformed@,
        ));
    }
    Ok(lexed)
}

/// One step of `lex_regions`: the first region's findings come before the rest.
proof fn lemma_regions_step(s: Seq<char>, tail: Seq<TextRegion>, dir: Seq<char>)
    requires
        tail.len() > 0,
    ensures
        match char_range(s, tail[0].span) {
            None => lex_regions(s, tail, dir) == Err::<
                (Seq<MarkerSpec>, Seq<MalformedSpec>),
                ByteSpan,
            >(tail[0].span),
            Some((i, j)) => lex_regions(s, tail, dir) == match lex_regions(
                s,
                tail.drop_first(),
                dir,
            ) {
                Err(span) => Err(span),
                Ok(rest) => Ok(
                    (
                        lex_items(s, i, markers_from(s.subrange(i, j), 0), tail[0].kind, dir).0
                            + rest.0,
                        lex_items(s, i, markers_from(s.subrange(i, j), 0), tail[0].kind, dir).1
                            + rest.1,
                    ),
                ),
            },
        },
{
}

/// Byte offsets grow strictly with the character index.
proof fn lemma_offsets_increase(s: Seq<char>)
    ensures
        forall|i: int, j: int| 0 <= i < j <= s.len() ==> off(s, i) < off(s, j),
{
    assert forall|i: int, j: int| 0 <= i < j <= s.len() implies off(s, i) < off(s, j) by {
        lemma_byte_len_monotone(s, i, j);
    }
}

/// The character index whose offset is `b`, found by binary search.
fn index_of_offset(offsets: &Vec<usize>, b: usize, Ghost(s): Ghost<Seq<char>>) -> (r: Option<usize>)
    requires
        offsets@.len() == s.len() + 1,
        forall|i: int| 0 <= i <= s.len() ==> offsets@[i] == off(s, i),
        forall|i: int, j: int| 0 <= i < j <= s.len() ==> off(s, i) < off(s, j),
    ensures
        match r {
            Some(i) => i <= s.len() && off(s, i as int) == b,
            None => forall|i: int| 0 <= i <= s.len() ==> off(s, i) != b,
        },
{
    let mut lo: usize = 0;
    let mut hi: usize = offsets.len();
    while lo < hi
        invariant
            offsets@.len() == s.len() + 1,
            forall|i: int| 0 <= i <= s.len() ==> offsets@[i] == off(s, i),
            forall|i: int, j: int| 0 <= i < j <= s.len() ==> off(s, i) < off(s, j),
            lo <= hi <= offsets@.len(),
            forall|i: int| 0 <= i < lo ==> off(s, i) < b,
            forall|i: int| hi <= i <= s.len() ==> off(s, i) > b,
        decreases hi - lo,
    {
        let mid = lo + (hi - lo) / 2;
        if offsets[mid] == b {
            return Some(mid);
        } else if offsets[mid] < b {
            assert forall|i: int| 0 <= i < mid + 1 implies off(s, i) < b by {
                if i < mid {
                    assert(off(s, i) < off(s, mid as int));
                }
            }
            lo = mid + 1;
        } else {
            assert forall|i: int| mid <= i <= s.len() implies off(s, i) > b by {
                if i > mid {
                    assert(off(s, mid as int) < off(s, i));
                }
            }
            hi = mid;
        }
    }
    None
}

/// The character range of `span`, as `char_range` describes it.
fn char_range_of(offsets: &Vec<usize>, span: ByteSpan, Ghost(s): Ghost<Seq<char>>) -> (r: Option<
    (usize, usize),
>)
    requires
        offsets@.len() == s.len() + 1,
        forall|i: int| 0 <= i <= s.len() ==> offsets@[i] == off(s, i),
        forall|i: int, j: int| 0 <= i < j <= s.len() ==> off(s, i) < off(s, j),
    ensures
        match r {
            Some((i, j)) => i <= j <= s.len() && char_range(s, span) == Some((i as int, j as int)),
            None => char_range(s, span) is None,
        },
{
    let i = index_of_offset(offsets, span.start, Ghost(s));
    let j = index_of_offset(offsets, span.end, Ghost(s));
    match (i, j) {
        (Some(i), Some(j)) => {
            if i <= j {
                proof {
                    assert(off(s, i as int) == span.start && off(s, j as int) == span.end);
                    let (x, y) = choose|x: int, y: int|
                        0 <= x <= y <= s.len() && off(s, x) == span.start && off(s, y) == span.end;
                    if x < i {
                        assert(off(s, x) < off(s, i as int));
                    }
                    if x > i {
                        assert(off(s, i as int) < off(s, x));
                    }
                    if y < j {
                        assert(off(s, y) < off(s, j as int));
                    }
                    if y > j {
                        assert(off(s, j as int) < off(s, y));
                    }
                }
                Some((i, j))
            } else {
                proof {
                    assert forall|x: int, y: int|
                        0 <= x <= y <= s.len() && off(s, x) == span.start implies off(s, y)
                        != span.end by {
                        if x < i {
                            assert(off(s, x) < off(s, i as int));
                        }
                        if x > i {
                            assert(off(s, i as int) < off(s, x));
                        }
                        if y < j {
                            assert(off(s, y) < off(s, j as int));
                        }
                        if y > j {
                            assert(off(s, j as int) < off(s, y));
                        }
                    }
                }
                None
            }
        },
        _ => None,
    }
}

/// Whether the characters `ci..cj` of `chars` hold `w` at index `i` of that range.
fn has_word(chars: &Vec<char>, ci: usize, cj: usize, i: usize, w: &Vec<char>) -> (b: bool)
    requires
        ci <= cj <= chars@.len(),
    ensures
        b == word_at(chars@.subrange(ci as int, cj as int), i as int, w@),
{
    let ghost t = chars@.subrange(ci as int, cj as int);
    let m = cj - ci;
    if i > m || w.len() > m - i {
        return false;
    }
    let mut q: usize = 0;
    while q < w.len()
        invariant
            ci <= cj <= chars@.len(),
            t == chars@.subrange(ci as int, cj as int),
            m == cj - ci,
            i + w@.len() <= m,
            q <= w@.len(),
            forall|x: int| 0 <= x < q ==> t[i + x] == w@[x],
        decreases w.len() - q,
    {
        if chars[ci + i + q] != w[q] {
            assert(t.subrange(i as int, i + w@.len())[q as int] != w@[q as int]);
            return false;
        }
        q += 1;
    }
    assert(t.subrange(i as int, i + w@.len()) =~= w@);
    true
}

/// `opener_at` on the characters `ci..cj` of `chars`.
fn opener(chars: &Vec<char>, ci: usize, cj: usize, p: usize) -> (r: Option<MarkerKind>)
    requires
        ci <= cj <= chars@.len(),
        p < cj - ci,
        chars@[ci + p] == '@',
    ensures
        r == opener_at(chars@.subrange(ci as int, cj as int), p as int),
{
    let ghost t = chars@.subrange(ci as int, cj as int);
    assert(t[p as int] == '@');
    let anchor = vec!['a', 'n', 'c', 'h', 'o', 'r', '['];
    let reference = vec!['r', 'e', 'f', '['];
    let noref = vec!['n', 'o', 'r', 'e', 'f', '['];
    let open = vec!['['];
    assert(anchor@ =~= kind_word(MarkerKind::Anchor).push('['));
    assert(reference@ =~= kind_word(MarkerKind::Ref).push('['));
    assert(noref@ =~= kind_word(MarkerKind::NoRef).push('['));
    assert(open@ =~= kind_word(MarkerKind::Use).push('['));
    if has_word(chars, ci, cj, p + 1, &anchor) {
        Some(MarkerKind::Anchor)
    } else if has_word(chars, ci, cj, p + 1, &reference) {
        Some(MarkerKind::Ref)
    } else if has_word(chars, ci, cj, p + 1, &noref) {
        Some(MarkerKind::NoRef)
    } else if has_word(chars, ci, cj, p + 1, &open) {
        Some(MarkerKind::Use)
    } else {
        None
    }
}

/// `body_stop` on the characters `ci..cj` of `chars`.
fn body_end(chars: &Vec<char>, ci: usize, cj: usize, b: usize) -> (e: usize)
    requires
        ci <= cj <= chars@.len(),
        b <= cj - ci,
    ensures
        e == body_stop(chars@.subrange(ci as int, cj as int), b as int),
        b <= e <= cj - ci,
{
    let ghost t = chars@.subrange(ci as int, cj as int);
    let m = cj - ci;
    let mut q = b;
    while q < m && !(chars[ci + q] == '[' || chars[ci + q] == ']' || chars[ci + q] == '\n')
        invariant
            ci <= cj <= chars@.len(),
            t == chars@.subrange(ci as int, cj as int),
            m == cj - ci,
            b <= q <= m,
            body_stop(t, b as int) == body_stop(t, q as int),
        decreases m - q,
    {
        assert(t[q as int] == chars@[ci + q]);
        q += 1;
    }
    if q < m {
        assert(t[q as int] == chars@[ci + q]);
    }
    q
}

/// Word length of a marker kind, as `kind_word` spells it.
fn word_len(kind: MarkerKind) -> (n: usize)
    ensures
        n == kind_word(kind).len(),
{
    match kind {
        MarkerKind::Anchor => 6,
        MarkerKind::Ref => 3,
        MarkerKind::NoRef => 5,
        MarkerKind::Use => 0,
    }
}

/// Lexes the characters `ci..cj` of `source`, a region of kind `region`, appending what it
/// finds to `lexed`.
fn lex_region(
    source: &str,
    chars: &Vec<char>,
    offsets: &Vec<usize>,
    ci: usize,
    cj: usize,
    region: RegionKind,
    written_in: &FilePath,
    lexed: &mut Lexed,
)
    requires
        chars@ == source@,
        ci <= cj <= chars@.len(),
        offsets@.len() == chars@.len() + 1,
        forall|i: int| 0 <= i <= chars@.len() ==> offsets@[i] == off(chars@, i),
        forall|i: int, j: int| 0 <= i < j <= chars@.len() ==> off(chars@, i) < off(chars@, j),
    ensures
        ({
            let here = lex_items(
                source@,
                ci as int,
                markers_from(source@.subrange(ci as int, cj as int), 0),
                region,
                directory_of(written_in@),
            );
            &&& markers_view(final(lexed).markers@) == markers_view(old(lexed).markers@) + here.0
            &&& malformed_view(final(lexed).malformed@) == malformed_view(old(lexed).malformed@)
                + here.1
        }),
{
    let ghost s = source@;
    let ghost t = s.subrange(ci as int, cj as int);
    let ghost dir = directory_of(written_in@);
    let ghost all = lex_items(s, ci as int, markers_from(t, 0), region, dir);
    let ghost start_m = markers_view(lexed.markers@);
    let ghost start_f = malformed_view(lexed.malformed@);
    let m = cj - ci;
    let mut p: usize = 0;
    assert(start_m + all.0 =~= start_m + all.0);
    while p < m
        invariant
            chars@ == s,
            s == source@,
            t == s.subrange(ci as int, cj as int),
            dir == directory_of(written_in@),
            all == lex_items(s, ci as int, markers_from(t, 0), region, dir),
            ci <= cj <= chars@.len(),
            m == cj - ci,
            p <= m,
            offsets@.len() == chars@.len() + 1,
            forall|i: int| 0 <= i <= chars@.len() ==> offsets@[i] == off(chars@, i),
            forall|i: int, j: int| 0 <= i < j <= chars@.len() ==> off(chars@, i) < off(chars@, j),
            markers_view(lexed.markers@) + lex_items(s, ci as int, markers_from(t, p as int), region, dir).0
                == start_m + all.0,
            malformed_view(lexed.malformed@) + lex_items(s, ci as int, markers_from(t, p as int), region, dir).1
                == start_f + all.1,
        decreases m - p,
    {
        let ghost before_m = markers_view(lexed.markers@);
        let ghost before_f = malformed_view(lexed.malformed@);
        let next = lex_at(source, chars, offsets, ci, cj, p, region, written_in, lexed);
        let ghost here = lex_items(s, ci as int, markers_from(t, p as int), region, dir);
        let ghost later = lex_items(s, ci as int, markers_from(t, next as int), region, dir);
        assert(before_m + here.0 == markers_view(lexed.markers@) + later.0);
        assert(before_f + here.1 == malformed_view(lexed.malformed@) + later.1);
        p = next;
    }
    assert(markers_from(t, p as int).len() == 0);
    assert(markers_view(lexed.markers@) + Seq::<MarkerSpec>::empty() =~= markers_view(
        lexed.markers@,
    ));
    assert(malformed_view(lexed.malformed@) + Seq::<MalformedSpec>::empty() =~= malformed_view(
        lexed.malformed@,
    ));
}

/// Lexes the marker at character `p` of the region `ci..cj`, if one starts there, and returns
/// where scanning goes on.
#[verifier::rlimit(100)]
#[verifier::spinoff_prover]
fn lex_at(
    source: &str,
    chars: &Vec<char>,
    offsets: &Vec<usize>,
    ci: usize,
    cj: usize,
    p: usize,
    region: RegionKind,
    written_in: &FilePath,
    lexed: &mut Lexed,
) -> (next: usize)
    requires
        chars@ == source@,
        ci <= cj <= chars@.len(),
        p < cj - ci,
        offsets@.len() == chars@.len() + 1,
        forall|i: int| 0 <= i <= chars@.len() ==> offsets@[i] == off(chars@, i),
        forall|i: int, j: int| 0 <= i < j <= chars@.len() ==> off(chars@, i) < off(chars@, j),
    ensures
        p < next <= cj - ci,
        ({
            let t = source@.subrange(ci as int, cj as int);
            let dir = directory_of(written_in@);
            let here = lex_items(source@, ci as int, markers_from(t, p as int), region, dir);
            let later = lex_items(source@, ci as int, markers_from(t, next as int), region, dir);
            &&& markers_view(old(lexed).markers@) + here.0 == markers_view(final(lexed).markers@)
                + later.0
            &&& malformed_view(old(lexed).malformed@) + here.1 == malformed_view(
                final(lexed).malformed@,
            ) + later.1
        }),
{
    let ghost s = source@;
    let ghost t = s.subrange(ci as int, cj as int);
    let ghost dir = directory_of(written_in@);
    let m = cj - ci;
    proof {
        lemma_marker_at(t, p as int);
    }
    assert(t[p as int] == chars@[ci + p]);
    if chars[ci + p] != '@' {
        return p + 1;
    }
    let kind = match opener(chars, ci, cj, p) {
        Some(kind) => kind,
        None => {
            return p + 1;
        },
    };
    let b = p + 2 + word_len(kind);
    let e = body_end(chars, ci, cj, b);
    let closed = e < m && chars[ci + e] == ']';
    if e < m {
        assert(t[e as int] == chars@[ci + e]);
    }
    let end = if closed {
        e + 1
    } else {
        b
    };
    let ghost found = markers_from(t, p as int);
    let ghost rest = markers_from(t, end as int);
    assert(found.drop_first() =~= rest);
    let glued = if ci + p > 0 {
        let prev = chars[ci + p - 1];
        prev == '_' || prev == '\\' || is_alphanumeric(prev)
    } else {
        false
    };
    let ghost later = lex_items(s, ci as int, rest, region, dir);
    let ghost before_m = markers_view(lexed.markers@);
    let ghost before_f = malformed_view(lexed.malformed@);
    if !glued {
        let span = ByteSpan::new(offsets[ci + p], offsets[ci + end]);
        if !closed {
            lexed.malformed.push(
                MalformedMarker { kind, reason: MalformedReason::Unclosed, span, region },
            );
            assert(malformed_view(lexed.malformed@) =~= before_f.push(
                lexed.malformed@.last()@,
            ));
            assert(before_f + lex_items(s, ci as int, found, region, dir).1 =~= malformed_view(
                lexed.malformed@,
            ) + later.1);
        } else {
            proof {
                lemma_byte_len_subrange(s, (ci + b) as int, (ci + e) as int);
                lemma_byte_len_monotone(s, (ci + e) as int, s.len() as int);
            }
            let body = source.substring_char(ci + b, ci + e);
            let body_span = ByteSpan::new(offsets[ci + b], offsets[ci + e]);
            match parse_body(kind, body, body_span, written_in) {
                Ok(payload) => {
                    lexed.markers.push(Marker { payload, span, body_span, region });
                    assert(markers_view(lexed.markers@) =~= before_m.push(
                        lexed.markers@.last()@,
                    ));
                    assert(before_m + lex_items(s, ci as int, found, region, dir).0
                        =~= markers_view(lexed.markers@) + later.0);
                },
                Err(reason) => {
                    lexed.malformed.push(MalformedMarker { kind, reason, span, region });
                    assert(malformed_view(lexed.malformed@) =~= before_f.push(
                        lexed.malformed@.last()@,
                    ));
                    assert(before_f + lex_items(s, ci as int, found, region, dir).1
                        =~= malformed_view(lexed.malformed@) + later.1);
                },
            }
        }
    }
    end
}

/// Parses a marker body that starts `body_span.start` bytes into a file written in `written_in`.
fn parse_body(kind: MarkerKind, body: &str, body_span: ByteSpan, written_in: &FilePath) -> (r:
    Result<MarkerPayload, MalformedReason>)
    requires
        body_span.start + byte_len(body@) == body_span.end,
    ensures
        match body_verdict(kind, body@, body_span.start as int, Some(directory_of(written_in@))) {
            Ok(payload) => r matches Ok(p) && p@ == payload,
            Err(reason) => r matches Err(e) && e@ == reason,
        },
{
    proof {
        crate::chars::lemma_byte_len_is_encoded_len(body@);
    }
    if body.is_empty() {
        return Err(MalformedReason::EmptyBody);
    }
    let base = body_span.start;
    match kind {
        MarkerKind::Anchor => match AnchorId::parse(body) {
            Ok(id) => Ok(MarkerPayload::Anchor { id }),
            Err(reason) => Err(MalformedReason::InvalidAnchorId { raw: body.to_owned(), reason }),
        },
        MarkerKind::Ref => match parse_target(body, Some(written_in)) {
            Ok(parsed) => {
                let id_span = match parsed.id_span {
                    Some(relative) => Some(relative.shifted_by(base)),
                    None => None,
                };
                let alias = match parsed.alias {
                    Some(declared) => Some(declared.shifted_by(base)),
                    None => None,
                };
                Ok(MarkerPayload::Ref { target: parsed.target, id_span, alias })
            },
            Err(reason) => Err(MalformedReason::InvalidTarget { raw: body.to_owned(), reason }),
        },
        MarkerKind::Use => match Alias::parse(body) {
            Ok(alias) => Ok(MarkerPayload::Use { alias }),
            Err(reason) => Err(MalformedReason::InvalidAlias { raw: body.to_owned(), reason }),
        },
        MarkerKind::NoRef => match parse_noref_body(body) {
            Ok(items) => {
                let shifted = shift_items(items, base, Ghost(byte_len(body@)));
                Ok(MarkerPayload::NoRef { items: shifted })
            },
            Err(reason) => Err(MalformedReason::InvalidNoRef { raw: body.to_owned(), reason }),
        },
    }
}

/// Moves every item `base` bytes later.
fn shift_items(items: Vec<NoRefItem>, base: usize, Ghost(limit): Ghost<nat>) -> (r: Vec<NoRefItem>)
    requires
        base + limit <= usize::MAX,
        forall|i: int|
            0 <= i < items@.len() ==> (#[trigger] items@[i]).span.wf() && items@[i].span.end
                <= limit,
    ensures
        crate::marker::noref::items_view(r@) == crate::marker::noref::items_view(items@).map_values(
            |item: (Seq<char>, (int, int))| (item.0, shift(item.1, base as int)),
        ),
{
    let ghost orig = items@;
    let mut out: Vec<NoRefItem> = Vec::new();
    let mut items = items;
    while items.len() > 0
        invariant
            base + limit <= usize::MAX,
            out@.len() + items@.len() == orig.len(),
            items@ == orig.skip(out@.len() as int),
            forall|i: int|
                0 <= i < orig.len() ==> (#[trigger] orig[i]).span.wf() && orig[i].span.end <= limit,
            crate::marker::noref::items_view(out@) == crate::marker::noref::items_view(
                orig.take(out@.len() as int),
            ).map_values(|item: (Seq<char>, (int, int))| (item.0, shift(item.1, base as int))),
        decreases items.len(),
    {
        let ghost n = out@.len();
        let item = items.remove(0);
        assert(item == orig[n as int]);
        let moved = item.shifted_by(base);
        let ghost old_out = out@;
        out.push(moved);
        assert(items@ =~= orig.skip(out@.len() as int));
        assert(orig.take((n + 1) as int) =~= orig.take(n as int).push(item));
        assert(crate::marker::noref::items_view(out@) =~= crate::marker::noref::items_view(old_out).push(
            (moved.entry@, (moved.span.start as int, moved.span.end as int)),
        ));
        assert(crate::marker::noref::items_view(orig.take((n + 1) as int)) =~= crate::marker::noref::items_view(
            orig.take(n as int),
        ).push((item.entry@, (item.span.start as int, item.span.end as int))));
        assert(crate::marker::noref::items_view(out@) =~= crate::marker::noref::items_view(
            orig.take(out@.len() as int),
        ).map_values(|item: (Seq<char>, (int, int))| (item.0, shift(item.1, base as int))));
    }
    assert(orig.take(orig.len() as int) =~= orig);
    out
}

} // verus!
