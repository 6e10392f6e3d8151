//! Anchor identities.
use vstd::prelude::*;
use crate::chars::same_text;
use crate::chars::{decimal, decimal_text, push_char, push_text};

use crate::chars::{
    all_chars, ascii_alnum, byte_len, byte_offsets, first_failing, is_ascii_alnum,
    lemma_byte_len_subrange, lemma_first_failing, lemma_split_on_nonempty, ranges_of_split,
    split_on, split_ranges, str_byte_len, to_chars,
};

verus! {

broadcast use vstd::string::group_string_axioms;

pub const MAX_ID_BYTES: usize = 256;

pub const MAX_SEGMENT_BYTES: usize = 64;

/// Identity declared by `@anchor[...]`. Segments `[A-Za-z0-9_][A-Za-z0-9_.-]*` joined by `/`.
#[derive(Debug, PartialEq, Eq, Hash, PartialOrd, Ord)]
pub struct AnchorId(String);

#[derive(Debug, PartialEq, Eq, Hash)]
pub enum IdError {
    Empty,
    TooLong { len: usize },
    EmptySegment,
    SegmentTooLong { segment: String },
    InvalidSegmentStart { ch: char },
    InvalidChar { ch: char },
}

/// `IdError` with its owned text taken by value, for contracts.
pub enum IdFault {
    Empty,
    TooLong { len: usize },
    EmptySegment,
    SegmentTooLong { segment: Seq<char> },
    InvalidSegmentStart { ch: char },
    InvalidChar { ch: char },
}

impl View for IdError {
    type V = IdFault;

    open spec fn view(&self) -> IdFault {
        match self {
            IdError::Empty => IdFault::Empty,
            IdError::TooLong { len } => IdFault::TooLong { len: *len },
            IdError::EmptySegment => IdFault::EmptySegment,
            IdError::SegmentTooLong { segment } => IdFault::SegmentTooLong { segment: segment@ },
            IdError::InvalidSegmentStart { ch } => IdFault::InvalidSegmentStart { ch: *ch },
            IdError::InvalidChar { ch } => IdFault::InvalidChar { ch: *ch },
        }
    }
}

pub open spec fn is_id_start(ch: char) -> bool {
    is_ascii_alnum(ch) || ch == '_'
}

pub open spec fn is_id_char(ch: char) -> bool {
    is_ascii_alnum(ch) || ch == '_' || ch == '.' || ch == '-'
}

pub open spec fn id_pred() -> spec_fn(char) -> bool {
    |c: char| is_id_char(c)
}

/// What is wrong with one `/`-separated segment of an id, if anything.
pub open spec fn segment_fault(seg: Seq<char>) -> Option<IdFault> {
    if seg.len() == 0 {
        Some(IdFault::EmptySegment)
    } else if byte_len(seg) > MAX_SEGMENT_BYTES {
        Some(IdFault::SegmentTooLong { segment: seg })
    } else if !is_id_start(seg[0]) {
        Some(IdFault::InvalidSegmentStart { ch: seg[0] })
    } else if !all_chars(seg.drop_first(), id_pred()) {
        Some(
            IdFault::InvalidChar {
                ch: seg.drop_first()[first_failing(seg.drop_first(), id_pred())],
            },
        )
    } else {
        None
    }
}

/// The fault of the first faulty segment.
pub open spec fn segments_fault(segs: Seq<Seq<char>>) -> Option<IdFault>
    decreases segs.len(),
{
    if segs.len() == 0 {
        None
    } else {
        match segment_fault(segs[0]) {
            Some(fault) => Some(fault),
            None => segments_fault(segs.drop_first()),
        }
    }
}

/// What `AnchorId::parse` decides for `raw`, whose UTF-8 length is `len`.
pub open spec fn id_verdict(raw: Seq<char>, len: usize) -> Option<IdFault> {
    if raw.len() == 0 {
        Some(IdFault::Empty)
    } else if len > MAX_ID_BYTES {
        Some(IdFault::TooLong { len })
    } else {
        segments_fault(split_on(raw, '/'))
    }
}

/// Whether `s` spells a valid anchor id.
pub open spec fn is_anchor_id(s: Seq<char>) -> bool {
    s.len() > 0 && byte_len(s) <= MAX_ID_BYTES && segments_fault(split_on(s, '/')) is None
}

impl View for AnchorId {
    type V = Seq<char>;

    closed spec fn view(&self) -> Seq<char> {
        self.0@
    }
}

/// Checks the segment `chars[a..b]` of `raw`.
fn validate_segment(raw: &str, chars: &Vec<char>, offsets: &Vec<usize>, a: usize, b: usize) -> (r:
    Result<(), IdError>)
    requires
        chars@ == raw@,
        a <= b <= chars@.len(),
        offsets@.len() == chars@.len() + 1,
        forall|i: int| 0 <= i <= chars@.len() ==> offsets@[i] == byte_len(#[trigger] chars@.take(i)),
    ensures
        match segment_fault(chars@.subrange(a as int, b as int)) {
            None => r is Ok,
            Some(f) => r matches Err(e) && e@ == f,
        },
{
    let ghost seg = chars@.subrange(a as int, b as int);
    if a == b {
        return Err(IdError::EmptySegment);
    }
    proof {
        lemma_byte_len_subrange(chars@, a as int, b as int);
    }
    if offsets[b] - offsets[a] > MAX_SEGMENT_BYTES {
        let segment = raw.substring_char(a, b).to_owned();
        return Err(IdError::SegmentTooLong { segment });
    }
    let first = chars[a];
    assert(seg[0] == first);
    if !(ascii_alnum(first) || first == '_') {
        return Err(IdError::InvalidSegmentStart { ch: first });
    }
    let ghost rest = seg.drop_first();
    let mut i: usize = a + 1;
    while i < b
        invariant
            a < i <= b <= chars@.len(),
            seg == chars@.subrange(a as int, b as int),
            rest == seg.drop_first(),
            segment_fault(seg) is None || !all_chars(rest, id_pred()),
            byte_len(seg) <= MAX_SEGMENT_BYTES,
            is_id_start(seg[0]),
            forall|j: int| 0 <= j < i - a - 1 ==> is_id_char(#[trigger] rest[j]),
        decreases b - i,
    {
        let ch = chars[i];
        assert(rest[i - a - 1] == ch);
        if !(ascii_alnum(ch) || ch == '_' || ch == '.' || ch == '-') {
            proof {
                lemma_first_failing(rest, id_pred(), i - a - 1);
                assert(!id_pred()(rest[i - a - 1]));
            }
            return Err(IdError::InvalidChar { ch });
        }
        i += 1;
    }
    assert(all_chars(rest, id_pred()));
    Ok(())
}

impl AnchorId {
    pub fn parse(raw: &str) -> (r: Result<Self, IdError>)
        ensures
            match id_verdict(raw@, raw.len()) {
                None => r matches Ok(id) && id@ == raw@ && is_anchor_id(raw@),
                Some(f) => r matches Err(e) && e@ == f,
            },
    {
        let n = str_byte_len(raw);
        if raw.is_empty() {
            return Err(IdError::Empty);
        }
        if n > MAX_ID_BYTES {
            return Err(IdError::TooLong { len: n });
        }
        let chars = to_chars(raw);
        let offsets = byte_offsets(&chars);
        let ranges = split_ranges(&chars, '/');
        let ghost segs = split_on(raw@, '/');
        assert(segs.skip(0) =~= segs);
        let mut k: usize = 0;
        while k < ranges.len()
            invariant
                k <= ranges@.len(),
                chars@ == raw@,
                raw@.len() > 0,
                n == raw.len(),
                n == byte_len(raw@),
                n <= MAX_ID_BYTES,
                segs == split_on(raw@, '/'),
                ranges_of_split(raw@, '/', ranges@),
                offsets@.len() == chars@.len() + 1,
                forall|i: int|
                    0 <= i <= chars@.len() ==> offsets@[i] == byte_len(#[trigger] chars@.take(i)),
                segments_fault(segs) == segments_fault(segs.skip(k as int)),
            decreases ranges.len() - k,
        {
            let (a, b) = ranges[k];
            assert(segs.skip(k as int)[0] == segs[k as int]);
            assert(segs.skip(k as int).drop_first() =~= segs.skip(k + 1));
            match validate_segment(raw, &chars, &offsets, a, b) {
                Ok(()) => {},
                Err(e) => {
                    return Err(e);
                },
            }
            k += 1;
        }
        assert(segs.skip(k as int).len() == 0);
        Ok(AnchorId(raw.to_owned()))
    }

    pub fn as_str(&self) -> (s: &str)
        ensures
            s@ == self@,
    {
        self.0.as_str()
    }

    /// The part after the final `/`, or the whole id when it is flat.
    pub fn last_segment(&self) -> (s: &str)
        ensures
            s@ == split_on(self@, '/').last(),
    {
        let chars = to_chars(self.0.as_str());
        let ranges = split_ranges(&chars, '/');
        proof {
            lemma_split_on_nonempty(self@, '/');
        }
        let (a, b) = ranges[ranges.len() - 1];
        self.0.as_str().substring_char(a, b)
    }

    /// Whether two ids are the same.
    pub fn same(&self, other: &AnchorId) -> (b: bool)
        ensures
            b == (self@ == other@),
    {
        self.0 == other.0
    }
}

impl Clone for AnchorId {
    fn clone(&self) -> (r: Self)
        ensures
            r@ == self@,
    {
        AnchorId(self.0.clone())
    }
}

/// What an invalid anchor id is reported as.
pub open spec fn id_message(e: IdFault) -> Seq<char> {
    match e {
        IdFault::Empty => "anchor id is empty"@,
        IdFault::TooLong { len } => "anchor id is "@ + decimal(len as nat) + " bytes; the limit is "@ + decimal(MAX_ID_BYTES as nat),
        IdFault::EmptySegment => "anchor id has an empty segment (leading, trailing, or doubled `/`)"@,
        IdFault::SegmentTooLong { segment } => "anchor id segment `"@ + segment + "` is over "@ + decimal(MAX_SEGMENT_BYTES as nat) + " bytes"@,
        IdFault::InvalidSegmentStart { ch } => ("anchor id segment starts with `"@).push(ch) + "`; segments start with a letter, digit, or `_`"@,
        IdFault::InvalidChar { ch } => ("anchor id contains `"@).push(ch) + "`; only letters, digits, `_`, `.`, `-`, and `/` are allowed"@,
    }
}

impl IdError {
    /// The message this error is reported with.
    pub fn message(&self) -> (s: String)
        ensures
            s@ == id_message(self@),
    {
        match self {
            IdError::Empty => {
                "anchor id is empty".to_owned()
            },
            IdError::TooLong { len } => {
                let mut s = "anchor id is ".to_owned();
                push_text(&mut s, &decimal_text(*len as u64));
                push_text(&mut s, " bytes; the limit is ");
                push_text(&mut s, &decimal_text(MAX_ID_BYTES as u64));
                s
            },
            IdError::EmptySegment => {
                "anchor id has an empty segment (leading, trailing, or doubled `/`)".to_owned()
            },
            IdError::SegmentTooLong { segment } => {
                let mut s = "anchor id segment `".to_owned();
                push_text(&mut s, segment.as_str());
                push_text(&mut s, "` is over ");
                push_text(&mut s, &decimal_text(MAX_SEGMENT_BYTES as u64));
                push_text(&mut s, " bytes");
                s
            },
            IdError::InvalidSegmentStart { ch } => {
                let mut s = "anchor id segment starts with `".to_owned();
                push_char(&mut s, *ch);
                push_text(&mut s, "`; segments start with a letter, digit, or `_`");
                s
            },
            IdError::InvalidChar { ch } => {
                let mut s = "anchor id contains `".to_owned();
                push_char(&mut s, *ch);
                push_text(&mut s, "`; only letters, digits, `_`, `.`, `-`, and `/` are allowed");
                s
            },
        }
    }
}

impl IdError {
    /// Whether the two errors are the same, as their views compare.
    pub fn same_as(&self, other: &IdError) -> (b: bool)
        ensures
            b == (self@ == other@),
    {
        match (self, other) {
            (IdError::Empty, IdError::Empty) => true,
            (IdError::TooLong { len: len1 }, IdError::TooLong { len: len2 }) => *len1 == *len2,
            (IdError::EmptySegment, IdError::EmptySegment) => true,
            (IdError::SegmentTooLong { segment: segment1 }, IdError::SegmentTooLong { segment: segment2 }) => same_text(segment1.as_str(), segment2.as_str()),
            (IdError::InvalidSegmentStart { ch: ch1 }, IdError::InvalidSegmentStart { ch: ch2 }) => *ch1 == *ch2,
            (IdError::InvalidChar { ch: ch1 }, IdError::InvalidChar { ch: ch2 }) => *ch1 == *ch2,
            _ => false,
        }
    }
}

impl Clone for IdError {
    fn clone(&self) -> (r: Self)
        ensures
            r@ == self@,
    {
        match self {
            IdError::Empty => IdError::Empty,
            IdError::TooLong { len } => IdError::TooLong { len: *len },
            IdError::EmptySegment => IdError::EmptySegment,
            IdError::SegmentTooLong { segment } => IdError::SegmentTooLong { segment: segment.clone() },
            IdError::InvalidSegmentStart { ch } => IdError::InvalidSegmentStart { ch: *ch },
            IdError::InvalidChar { ch } => IdError::InvalidChar { ch: *ch },
        }
    }
}

/// Whether `seg` is a segment an id may hold, written out character by character: 1 to 64 bytes,
/// starting with an ASCII letter or digit or `_`, the rest ASCII letters, digits, `_`, `.`, `-`.
pub open spec fn well_formed_segment(seg: Seq<char>) -> bool {
    &&& seg.len() > 0
    &&& byte_len(seg) <= 64
    &&& ('a' <= seg[0] <= 'z' || 'A' <= seg[0] <= 'Z' || '0' <= seg[0] <= '9' || seg[0] == '_')
    &&& forall|i: int|
        1 <= i < seg.len() ==> ('a' <= #[trigger] seg[i] <= 'z' || 'A' <= seg[i] <= 'Z' || '0' <= seg[i] <= '9'
            || seg[i] == '_' || seg[i] == '.' || seg[i] == '-')
}

proof fn lemma_segment_fault_exactly(seg: Seq<char>)
    ensures
        segment_fault(seg) is None <==> well_formed_segment(seg),
{
    if seg.len() > 0 && byte_len(seg) <= MAX_SEGMENT_BYTES && is_id_start(seg[0]) {
        let rest = seg.drop_first();
        if all_chars(rest, id_pred()) {
            assert forall|i: int| 1 <= i < seg.len() implies ('a' <= #[trigger] seg[i] <= 'z' || 'A' <= seg[i] <= 'Z'
                || '0' <= seg[i] <= '9' || seg[i] == '_' || seg[i] == '.' || seg[i] == '-') by {
                assert(rest[i - 1] == seg[i]);
                assert(id_pred()(rest[i - 1]));
            }
        } else {
            let k = choose|k: int| 0 <= k < rest.len() && !id_pred()(#[trigger] rest[k]);
            assert(rest[k] == seg[k + 1]);
        }
    }
    if well_formed_segment(seg) {
        let rest = seg.drop_first();
        assert forall|k: int| 0 <= k < rest.len() implies id_pred()(#[trigger] rest[k]) by {
            assert(rest[k] == seg[k + 1]);
        }
    }
}

proof fn lemma_segments_fault_exactly(segs: Seq<Seq<char>>)
    ensures
        segments_fault(segs) is None <==> forall|i: int| 0 <= i < segs.len() ==> well_formed_segment(#[trigger] segs[i]),
    decreases segs.len(),
{
    if segs.len() > 0 {
        lemma_segment_fault_exactly(segs[0]);
        lemma_segments_fault_exactly(segs.drop_first());
        if segments_fault(segs) is None {
            assert forall|i: int| 0 <= i < segs.len() implies well_formed_segment(#[trigger] segs[i]) by {
                if i > 0 {
                    assert(segs.drop_first()[i - 1] == segs[i]);
                }
            }
        }
        if forall|i: int| 0 <= i < segs.len() ==> well_formed_segment(#[trigger] segs[i]) {
            assert(well_formed_segment(segs[0]));
            assert forall|i: int| 0 <= i < segs.drop_first().len() implies well_formed_segment(
                #[trigger] segs.drop_first()[i],
            ) by {
                assert(segs.drop_first()[i] == segs[i + 1]);
            }
        }
    }
}

/// What `AnchorId::parse` accepts, spelled out: a non-empty text of at most 256 bytes whose every
/// `/`-separated segment is 1 to 64 bytes, starts with an ASCII letter or digit or `_`, and
/// continues with ASCII letters, digits, `_`, `.` and `-`. Anything else is refused.
pub proof fn lemma_id_accepts_exactly(raw: Seq<char>, len: usize)
    requires
        len == byte_len(raw),
    ensures
        id_verdict(raw, len) is None <==> (raw.len() > 0 && len <= 256 && forall|i: int|
            0 <= i < split_on(raw, '/').len() ==> well_formed_segment(#[trigger] split_on(raw, '/')[i])),
{
    lemma_segments_fault_exactly(split_on(raw, '/'));
}

} // verus!
