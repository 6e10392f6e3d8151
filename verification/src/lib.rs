//! Durable, checkable references for unstructured prose.
//!
//! `@anchor[id]` declares an identity at a location; `@ref[target]` asserts that a path,
//! a declaration in a source file, or an anchor resolves. This crate lexes markers out of
//! prose and code comments, parses their bodies, indexes anchors, plans renames, and finds
//! the reference-shaped strings that carry no marker yet.
#![allow(unused_imports)]

pub mod chars;
pub mod check;
pub mod config;
pub mod coverage;
pub mod diagnostic;
pub mod edit;
pub mod index;
pub mod marker;
pub mod noref;
pub mod order;
pub mod rename;
pub mod resolve;
pub mod root;
pub mod scan;
pub mod span;
pub mod suggest;
pub mod text;

use vstd::prelude::*;

verus! {

} // verus!
