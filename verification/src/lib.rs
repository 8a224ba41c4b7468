//! A markdown-to-HTML translator for a CommonMark-like dialect.
//!
//! The pipeline runs in three phases over a document: a line-oriented
//! block parser builds a tree of typed blocks, an inline parser rewrites
//! the text of non-code leaves, and a renderer walks the finished tree
//! and emits HTML, resolving link-reference labels as it goes.

pub mod block;
pub mod block_parser;
pub mod html_translator;
pub mod inline_parser;
pub mod line;
pub mod text;

use vstd::prelude::*;

verus! {

/// Translates a markdown document into HTML.
///
/// The input is normalized to end with a newline, then parsed into a
/// block tree, inline-resolved, and rendered. Total: defined on every
/// input string.
pub fn exec(input: &str) -> (r: String)
    ensures
        r@ == crate::html_translator::translate_spec(input@),
{
    crate::html_translator::top(input)
}

} // verus!
