//! Where in a file markers are looked for: the regions a file's grammar marks as prose,
//! inline code or comments.
use vstd::prelude::*;

use crate::marker::{MalformedMarker, Marker};
use crate::span::{ByteSpan, LineIndex};

verus! {

/// What kind of text a region holds.
#[derive(Debug, Clone, Copy, PartialEq, Eq, Structural, Hash, PartialOrd, Ord)]
pub enum RegionKind {
    /// Markdown prose.
    Prose,
    /// A markdown code span, backticks included.
    InlineCode,
    /// A comment in a source file.
    Comment,
    /// A whole file read as prose, where no grammar applies.
    Whole,
}

/// A byte range of a file and the kind of text it holds.
#[derive(Debug, Clone, Copy, PartialEq, Eq, Structural, Hash)]
pub struct TextRegion {
    pub span: ByteSpan,
    pub kind: RegionKind,
}

/// What lexing one file found, with the line index its positions are reported through.
#[derive(Debug, Clone)]
pub struct FileScan {
    pub markers: Vec<Marker>,
    pub malformed: Vec<MalformedMarker>,
    pub line_index: LineIndex,
}

} // verus!
