//! Byte spans within one file.
use vstd::prelude::*;
use vstd::string::StringSliceAdditionalSpecFns;
use line_index::LineIndex as LineTable;

verus! {

/// Half-open byte range within one file.
#[derive(Debug, Clone, Copy, PartialEq, Eq, Structural, Hash, PartialOrd, Ord)]
pub struct ByteSpan {
    pub start: usize,
    pub end: usize,
}

impl ByteSpan {
    /// A span is well formed when it does not end before it starts.
    pub open spec fn wf(self) -> bool {
        self.start <= self.end
    }

    pub fn new(start: usize, end: usize) -> (span: Self)
        requires
            start <= end,
        ensures
            span.start == start,
            span.end == end,
    {
        ByteSpan { start, end }
    }

    pub fn len(&self) -> (n: usize)
        requires
            self.wf(),
        ensures
            n == self.end - self.start,
    {
        self.end - self.start
    }

    pub fn is_empty(&self) -> (b: bool)
        ensures
            b == (self.start == self.end),
    {
        self.start == self.end
    }

    /// Whether `offset` lies in the half-open range.
    pub fn contains(&self, offset: usize) -> (b: bool)
        ensures
            b == (self.start <= offset && offset < self.end),
    {
        self.start <= offset && offset < self.end
    }

    /// Whether the two spans share at least one byte.
    pub fn intersects(&self, other: ByteSpan) -> (b: bool)
        ensures
            b == (self.start < other.end && other.start < self.end),
    {
        self.start < other.end && other.start < self.end
    }

    pub fn shifted_by(&self, base: usize) -> (span: ByteSpan)
        requires
            self.wf(),
            self.end + base <= usize::MAX,
        ensures
            span.start == self.start + base,
            span.end == self.end + base,
    {
        ByteSpan::new(self.start + base, self.end + base)
    }
}

/// One-based line and column for display. Column counts UTF-8 bytes.
#[derive(Debug, Clone, Copy, PartialEq, Eq, Structural, Hash, PartialOrd, Ord)]
pub struct LineCol {
    pub line: u32,
    pub col: u32,
}

/// A byte offset past the end of the text, or past the 4 GiB limit positions are counted in.
#[derive(Debug, Clone, Copy, PartialEq, Eq, Structural, Hash)]
pub struct PositionOverflow {
    pub offset: usize,
}

/// How a client counts characters within a line. UTF-16 is the protocol default; UTF-8 is
/// negotiated when the client offers it.
#[derive(Debug, Clone, Copy, PartialEq, Eq, Structural)]
pub enum PositionEncoding {
    Utf8,
    Utf16,
}

/// Zero-based line and character, in whatever encoding was negotiated.
#[derive(Debug, Clone, Copy, PartialEq, Eq, Structural)]
pub struct ProtocolPosition {
    pub line: u32,
    pub character: u32,
}

/// The zero-based line and UTF-8 column that `line_index::LineIndex::try_line_col` gives for
/// `offset` in `text`, `None` past the end or inside a character.
pub uninterp spec fn utf8_line_col(text: Seq<char>, offset: u32) -> Option<(u32, u32)>;

/// The UTF-16 column that `line_index::LineIndex::to_wide` gives for a UTF-8 column of a line
/// of `text`.
pub uninterp spec fn utf16_col(text: Seq<char>, line: u32, col: u32) -> Option<u32>;

/// The UTF-8 column that `line_index::LineIndex::to_utf8` gives for a UTF-16 column of a line
/// of `text`.
pub uninterp spec fn utf8_col(text: Seq<char>, line: u32, col: u32) -> Option<u32>;

/// The byte offset that `line_index::LineIndex::offset` gives for a zero-based line and UTF-8
/// column of `text`, `None` when the line does not exist.
pub uninterp spec fn line_offset(text: Seq<char>, line: u32, col: u32) -> Option<u32>;

#[verifier::external_type_specification]
#[verifier::external_body]
pub struct ExLineIndex(LineTable);

/// The text a `line_index::LineIndex` was built for.
pub uninterp spec fn indexed_text(index: LineTable) -> Seq<char>;

/// `line_index::LineIndex::new` for `text`, which counts positions in 32 bits and asserts that
/// the text is shorter than `u32::MAX` bytes.
#[verifier::external_body]
fn build_index(text: &str) -> (r: LineTable)
    requires
        crate::chars::byte_len(text@) < u32::MAX,
    ensures
        indexed_text(r) == text@,
{
    LineTable::new(text)
}

/// The derived `Clone` of `line_index::LineIndex`: an index of the same text.
#[verifier::external_body]
fn clone_index(index: &LineTable) -> (r: LineTable)
    ensures
        indexed_text(r) == indexed_text(*index),
{
    index.clone()
}

/// `try_line_col` of the index. The contract claims that the answer is
/// `utf8_line_col(text, offset)` for the text it indexes, and, as the source computes them (the
/// column is the offset less the line's start, the line counts newlines before the offset),
/// that neither exceeds the offset.
#[verifier::external_body]
fn try_line_col(index: &LineTable, offset: u32) -> (r: Option<(u32, u32)>)
    requires
        indexed_text(*index).len() < u32::MAX,
        crate::chars::byte_len(indexed_text(*index)) < u32::MAX,
    ensures
        r == utf8_line_col(indexed_text(*index), offset),
        r matches Some((line, col)) ==> line <= offset && col <= offset,
{
    index.try_line_col(offset.into()).map(|lc| (lc.line, lc.col))
}

/// `to_wide` of the index with UTF-16. The contract claims only that the answer is
/// `utf16_col(text, line, col)` for the text it indexes.
#[verifier::external_body]
fn to_utf16_col(index: &LineTable, line: u32, col: u32) -> (r: Option<u32>)
    requires
        crate::chars::byte_len(indexed_text(*index)) < u32::MAX,
    ensures
        r == utf16_col(indexed_text(*index), line, col),
{
    index.to_wide(line_index::WideEncoding::Utf16, line_index::LineCol { line, col }).map(|wide| wide.col)
}

/// `to_utf8` of the index with UTF-16. The contract claims only that the answer is
/// `utf8_col(text, line, col)` for the text it indexes.
#[verifier::external_body]
fn to_utf8_col(index: &LineTable, line: u32, col: u32) -> (r: Option<u32>)
    requires
        crate::chars::byte_len(indexed_text(*index)) < u32::MAX,
    ensures
        r == utf8_col(indexed_text(*index), line, col),
{
    index.to_utf8(line_index::WideEncoding::Utf16, line_index::WideLineCol { line, col }).map(|utf8| utf8.col)
}

/// `offset` of the index. The contract claims that the answer is `line_offset(text, line, col)`
/// for the text it indexes; the caller keeps `col` small enough that a line's start plus `col`
/// cannot pass `u32::MAX`, where the source's addition would overflow.
#[verifier::external_body]
fn offset_at(index: &LineTable, line: u32, col: u32) -> (r: Option<u32>)
    requires
        crate::chars::byte_len(indexed_text(*index)) + col < u32::MAX,
    ensures
        r == line_offset(indexed_text(*index), line, col),
{
    index.offset(line_index::LineCol { line, col }).map(u32::from)
}

/// Byte offset → line/column lookup for one file's text.
#[derive(Debug)]
pub struct LineIndex {
    text: String,
    text_len: usize,
    /// Built once for `text`.
    inner: LineTable,
}

impl View for LineIndex {
    type V = Seq<char>;

    closed spec fn view(&self) -> Seq<char> {
        self.text@
    }
}

/// What `LineIndex::line_col` answers for `offset` in `text`.
pub open spec fn line_col_verdict(text: Seq<char>, offset: usize) -> Result<LineCol, PositionOverflow> {
    if offset > crate::chars::byte_len(text) || offset > u32::MAX {
        Err(PositionOverflow { offset })
    } else {
        match utf8_line_col(text, offset as u32) {
            None => Err(PositionOverflow { offset }),
            Some((line, col)) => Ok(LineCol { line: (line + 1) as u32, col: (col + 1) as u32 }),
        }
    }
}

/// What `LineIndex::protocol_position` answers for `offset` in `text`.
pub open spec fn position_verdict(text: Seq<char>, offset: usize, encoding: PositionEncoding) -> Result<
    ProtocolPosition,
    PositionOverflow,
> {
    if offset > crate::chars::byte_len(text) || offset > u32::MAX {
        Err(PositionOverflow { offset })
    } else {
        match utf8_line_col(text, offset as u32) {
            None => Err(PositionOverflow { offset }),
            Some((line, col)) => match encoding {
                PositionEncoding::Utf8 => Ok(ProtocolPosition { line, character: col }),
                PositionEncoding::Utf16 => match utf16_col(text, line, col) {
                    None => Err(PositionOverflow { offset }),
                    Some(wide) => Ok(ProtocolPosition { line, character: wide }),
                },
            },
        }
    }
}

/// What `LineIndex::offset_of` answers for `position` in `text`.
pub open spec fn offset_verdict(text: Seq<char>, position: ProtocolPosition, encoding: PositionEncoding) -> Option<usize> {
    let col = match encoding {
        PositionEncoding::Utf8 => Some(position.character),
        PositionEncoding::Utf16 => utf8_col(text, position.line, position.character),
    };
    match col {
        None => None,
        Some(c) => if crate::chars::byte_len(text) + c < u32::MAX {
            match line_offset(text, position.line, c) {
                Some(o) => Some(o as usize),
                None => None,
            }
        } else {
            None
        },
    }
}

impl LineIndex {
    #[verifier::type_invariant]
    closed spec fn indexes_text(&self) -> bool {
        indexed_text(self.inner) == self.text@
    }

    pub closed spec fn text_len_ok(&self) -> bool {
        &&& self.text_len == crate::chars::byte_len(self.text@)
        &&& self.text_len < u32::MAX
    }

    /// Positions are counted in 32 bits, so a text of 4 GiB or more has no index.
    pub fn new(text: &str) -> (r: Result<Self, PositionOverflow>)
        ensures
            match r {
                Ok(index) => index@ == text@ && index.text_len_ok(),
                Err(e) => e.offset == crate::chars::byte_len(text@) && crate::chars::byte_len(
                    text@,
                ) >= u32::MAX,
            },
    {
        let len = crate::chars::str_byte_len(text);
        if len >= 0xffff_ffff {
            return Err(PositionOverflow { offset: len });
        }
        let inner = build_index(text);
        Ok(LineIndex { text: text.to_owned(), text_len: len, inner })
    }

    /// `offset` may equal the text length (end of file); anything beyond is an overflow.
    pub fn line_col(&self, offset: usize) -> (r: Result<LineCol, PositionOverflow>)
        requires
            self.text_len_ok(),
        ensures
            r == line_col_verdict(self@, offset),
    {
        proof {
            use_type_invariant(self);
        }
        if offset > self.text_len || offset > 0xffff_ffff {
            return Err(PositionOverflow { offset });
        }
        proof {
            crate::chars::lemma_byte_len_is_encoded_len(self.text@);
            assert(self.text@.len() <= crate::chars::byte_len(self.text@)) by {
                crate::chars::lemma_byte_len_monotone(self.text@, 0, self.text@.len() as int);
                assert(self.text@.take(self.text@.len() as int) =~= self.text@);
                assert(self.text@.take(0).len() == 0);
            }
        }
        let at = offset as u32;
        match try_line_col(&self.inner, at) {
            None => Err(PositionOverflow { offset }),
            Some((line, col)) => Ok(LineCol { line: line + 1, col: col + 1 }),
        }
    }

    /// Zero-based line and character in the given encoding, as the Language Server Protocol
    /// counts them.
    pub fn protocol_position(&self, offset: usize, encoding: PositionEncoding) -> (r: Result<
        ProtocolPosition,
        PositionOverflow,
    >)
        requires
            self.text_len_ok(),
        ensures
            r == position_verdict(self@, offset, encoding),
    {
        proof {
            use_type_invariant(self);
        }
        if offset > self.text_len || offset > 0xffff_ffff {
            return Err(PositionOverflow { offset });
        }
        proof {
            assert(self.text@.len() <= crate::chars::byte_len(self.text@)) by {
                crate::chars::lemma_byte_len_monotone(self.text@, 0, self.text@.len() as int);
                assert(self.text@.take(self.text@.len() as int) =~= self.text@);
                assert(self.text@.take(0).len() == 0);
            }
        }
        let at = offset as u32;
        let (line, col) = match try_line_col(&self.inner, at) {
            None => {
                return Err(PositionOverflow { offset });
            },
            Some(found) => found,
        };
        match encoding {
            PositionEncoding::Utf8 => Ok(ProtocolPosition { line, character: col }),
            PositionEncoding::Utf16 => match to_utf16_col(&self.inner, line, col) {
                None => Err(PositionOverflow { offset }),
                Some(wide) => Ok(ProtocolPosition { line, character: wide }),
            },
        }
    }

    /// The byte offset of a protocol position, or `None` when it lies outside the text.
    pub fn offset_of(&self, position: ProtocolPosition, encoding: PositionEncoding) -> (r: Option<
        usize,
    >)
        requires
            self.text_len_ok(),
        ensures
            r == offset_verdict(self@, position, encoding),
    {
        proof {
            use_type_invariant(self);
        }
        let col = match encoding {
            PositionEncoding::Utf8 => Some(position.character),
            PositionEncoding::Utf16 => to_utf8_col(&self.inner, position.line, position.character),
        };
        match col {
            None => None,
            Some(c) => {
                if (self.text_len as u64) + (c as u64) < 0xffff_ffff {
                    match offset_at(&self.inner, position.line, c) {
                        Some(o) => Some(o as usize),
                        None => None,
                    }
                } else {
                    None
                }
            },
        }
    }
}

impl Clone for LineIndex {
    fn clone(&self) -> (r: Self)
        ensures
            r@ == self@,
            r.text_len_ok() == self.text_len_ok(),
    {
        proof {
            use_type_invariant(self);
        }
        LineIndex { text: self.text.clone(), text_len: self.text_len, inner: clone_index(&self.inner) }
    }
}

} // verus!
