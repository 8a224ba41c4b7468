//! The block parser: turns the document's lines into a tree of blocks.
//!
//! The grammar is stated as spec functions over the sequence of lines;
//! the executable parser is proved to build exactly that tree. Each
//! line group is classified in priority order: blank line, ATX heading,
//! thematic break, fenced code, block quote, list item, indented code,
//! link-reference definition, reference link, and the paragraph
//! default; a setext underline ends an open paragraph as a heading.

use vstd::prelude::*;
use crate::block::{Block, BlockNode, BlockType, views};
use crate::line::{
    atx_level, atx_text, code_text, continues_para, continues_para_exec, fence_close, fence_open,
    indent_of, is_blank, is_code_line, is_quote_line, is_thematic_break, item_text, link_def,
    list_marker, para_text, quote_content, ref_link, setext_level,
};

verus! {

// ------------------------------------------------------------ the model

/// A leaf node of the model tree.
pub open spec fn leaf_node(t: BlockType, txt: Seq<char>) -> BlockNode {
    BlockNode { typ: t, text: txt, children: Seq::empty() }
}

/// A container node of the model tree.
pub open spec fn container_node(t: BlockType, txt: Seq<char>, ch: Seq<BlockNode>) -> BlockNode {
    BlockNode { typ: t, text: txt, children: ch }
}

/// The ATX heading variant for a level in 1..=6.
pub open spec fn atx_typ(n: int) -> BlockType {
    if n == 1 {
        BlockType::AtxHeading1
    } else if n == 2 {
        BlockType::AtxHeading2
    } else if n == 3 {
        BlockType::AtxHeading3
    } else if n == 4 {
        BlockType::AtxHeading4
    } else if n == 5 {
        BlockType::AtxHeading5
    } else {
        BlockType::AtxHeading6
    }
}

/// The setext heading variant for an underline level.
pub open spec fn setext_typ(n: int) -> BlockType {
    if n == 1 {
        BlockType::SetextHeadingUnderline1
    } else {
        BlockType::SetextHeadingUnderline2
    }
}

// ------------------------------------------------------------- line ends

/// First line at or after `i` that does not extend an open paragraph.
pub open spec fn para_end(lines: Seq<Seq<char>>, i: int) -> int
    decreases lines.len() - i when 0 <= i <= lines.len()
{
    if i >= lines.len() || !continues_para(lines[i]) {
        i
    } else {
        para_end(lines, i + 1)
    }
}

/// First line at or after `i` that is not an indented code line.
pub open spec fn code_end(lines: Seq<Seq<char>>, i: int) -> int
    decreases lines.len() - i when 0 <= i <= lines.len()
{
    if i >= lines.len() || !is_code_line(lines[i]) {
        i
    } else {
        code_end(lines, i + 1)
    }
}

/// First line at or after `i` that closes a fence of `n` times `c`.
pub open spec fn fence_end(lines: Seq<Seq<char>>, i: int, c: char, n: int) -> int
    decreases lines.len() - i when 0 <= i <= lines.len()
{
    if i >= lines.len() || fence_close(lines[i], c, n) {
        i
    } else {
        fence_end(lines, i + 1, c, n)
    }
}

/// Whether a line belongs to an open block quote: it carries a `>`
/// marker, or is a non-blank plain-text line continuing the quote's
/// paragraph lazily.
pub open spec fn quote_cont(s: Seq<char>) -> bool {
    is_quote_line(s) || continues_para(s)
}

/// First line at or after `i` that leaves an open block quote.
pub open spec fn quote_end(lines: Seq<Seq<char>>, i: int) -> int
    decreases lines.len() - i when 0 <= i <= lines.len()
{
    if i >= lines.len() || !quote_cont(lines[i]) {
        i
    } else {
        quote_end(lines, i + 1)
    }
}

/// Whether a line belongs to an open list item with content column `w`:
/// blank, or indented at least to the content column.
pub open spec fn item_cont(s: Seq<char>, w: int) -> bool {
    is_blank(s) || indent_of(s) >= w
}

/// First line at or after `i` that leaves an open list item.
pub open spec fn item_end(lines: Seq<Seq<char>>, i: int, w: int) -> int
    decreases lines.len() - i when 0 <= i <= lines.len()
{
    if i >= lines.len() || !item_cont(lines[i], w) {
        i
    } else {
        item_end(lines, i + 1, w)
    }
}

pub proof fn lemma_para_end_bounds(lines: Seq<Seq<char>>, i: int)
    requires
        0 <= i <= lines.len(),
    ensures
        i <= para_end(lines, i) <= lines.len(),
    decreases lines.len() - i,
{
    if !(i >= lines.len() || !continues_para(lines[i])) {
        lemma_para_end_bounds(lines, i + 1);
    }
}

pub proof fn lemma_code_end_bounds(lines: Seq<Seq<char>>, i: int)
    requires
        0 <= i <= lines.len(),
    ensures
        i <= code_end(lines, i) <= lines.len(),
    decreases lines.len() - i,
{
    if !(i >= lines.len() || !is_code_line(lines[i])) {
        lemma_code_end_bounds(lines, i + 1);
    }
}

/// Every line of a run ending at `code_end` is an indented code line.
pub proof fn lemma_code_end_all(lines: Seq<Seq<char>>, i: int)
    requires
        0 <= i <= lines.len(),
    ensures
        forall|m: int| i <= m < code_end(lines, i) ==> is_code_line(#[trigger] lines[m]),
    decreases lines.len() - i,
{
    lemma_code_end_bounds(lines, i);
    if !(i >= lines.len() || !is_code_line(lines[i])) {
        lemma_code_end_all(lines, i + 1);
    }
}

pub proof fn lemma_fence_end_bounds(lines: Seq<Seq<char>>, i: int, c: char, n: int)
    requires
        0 <= i <= lines.len(),
    ensures
        i <= fence_end(lines, i, c, n) <= lines.len(),
    decreases lines.len() - i,
{
    if !(i >= lines.len() || fence_close(lines[i], c, n)) {
        lemma_fence_end_bounds(lines, i + 1, c, n);
    }
}

pub proof fn lemma_quote_end_bounds(lines: Seq<Seq<char>>, i: int)
    requires
        0 <= i <= lines.len(),
    ensures
        i <= quote_end(lines, i) <= lines.len(),
    decreases lines.len() - i,
{
    if !(i >= lines.len() || !quote_cont(lines[i])) {
        lemma_quote_end_bounds(lines, i + 1);
    }
}

pub proof fn lemma_item_end_bounds(lines: Seq<Seq<char>>, i: int, w: int)
    requires
        0 <= i <= lines.len(),
    ensures
        i <= item_end(lines, i, w) <= lines.len(),
    decreases lines.len() - i,
{
    if !(i >= lines.len() || !item_cont(lines[i], w)) {
        lemma_item_end_bounds(lines, i + 1, w);
    }
}

// ------------------------------------------------------------ text joins

/// The text of a paragraph spanning lines `[i, k)`: each line stripped
/// of leading spaces, joined with `\n`.
pub open spec fn join_para(lines: Seq<Seq<char>>, i: int, k: int) -> Seq<char>
    decreases k - i when 0 <= i <= k <= lines.len()
{
    if k <= i {
        Seq::empty()
    } else if k - 1 == i {
        para_text(lines[i])
    } else {
        join_para(lines, i, k - 1) + seq!['\n'] + para_text(lines[k - 1])
    }
}

/// The text of an indented code block spanning lines `[i, k)`: each
/// line past four columns, each followed by `\n`.
pub open spec fn join_code(lines: Seq<Seq<char>>, i: int, k: int) -> Seq<char>
    decreases k - i when 0 <= i <= k <= lines.len()
{
    if k <= i {
        Seq::empty()
    } else {
        join_code(lines, i, k - 1) + code_text(lines[k - 1]) + seq!['\n']
    }
}

/// The text of a fenced code block spanning lines `[i, k)`: each line
/// verbatim, each followed by `\n`.
pub open spec fn join_raw(lines: Seq<Seq<char>>, i: int, k: int) -> Seq<char>
    decreases k - i when 0 <= i <= k <= lines.len()
{
    if k <= i {
        Seq::empty()
    } else {
        join_raw(lines, i, k - 1) + lines[k - 1] + seq!['\n']
    }
}

// ------------------------------------------------------------ the parser

/// The lines a block quote spanning `[i, j)` hands to its inner parse.
pub open spec fn quote_lines(lines: Seq<Seq<char>>, i: int, j: int) -> Seq<Seq<char>> {
    Seq::new((j - i) as nat, |k: int| quote_content(lines[i + k]))
}

/// The lines a list item spanning `[i, j)` with content column `w`
/// hands to its inner parse.
pub open spec fn item_lines(lines: Seq<Seq<char>>, i: int, j: int, w: int) -> Seq<Seq<char>> {
    Seq::new((j - i) as nat, |k: int| item_text(lines[i + k], w))
}

/// The blocks parsed from `lines[i..]`. `depth` bounds container
/// nesting; the executable parser passes the line count, which nesting
/// can never exceed.
pub open spec fn parse_lines(lines: Seq<Seq<char>>, i: int, depth: int) -> Seq<BlockNode>
    decreases depth, lines.len() - i
        when 0 <= i <= lines.len() && 0 <= depth
        via parse_lines_decreases
{
    if i >= lines.len() {
        Seq::empty()
    } else {
        let l = lines[i];
        if is_blank(l) {
            seq![leaf_node(BlockType::BreakLine, Seq::empty())] + parse_lines(lines, i + 1, depth)
        } else if atx_level(l) >= 1 {
            seq![leaf_node(atx_typ(atx_level(l)), atx_text(l))] + parse_lines(lines, i + 1, depth)
        } else if is_thematic_break(l) {
            seq![leaf_node(BlockType::ThematicBreaks, Seq::empty())] + parse_lines(
                lines,
                i + 1,
                depth,
            )
        } else if fence_open(l) is Some {
            let (c, n) = fence_open(l)->Some_0;
            let j = fence_end(lines, i + 1, c, n);
            let next = if j + 1 <= lines.len() {
                j + 1
            } else {
                lines.len() as int
            };
            seq![leaf_node(BlockType::FencedCodeBlock, join_raw(lines, i + 1, j))] + parse_lines(
                lines,
                next,
                depth,
            )
        } else if depth > 0 && is_quote_line(l) {
            let j = quote_end(lines, i + 1);
            seq![
                container_node(
                    BlockType::BlockQuote,
                    Seq::empty(),
                    parse_lines(quote_lines(lines, i, j), 0, depth - 1),
                ),
            ] + parse_lines(lines, j, depth)
        } else if depth > 0 && list_marker(l) is Some {
            let (ordered, w) = list_marker(l)->Some_0;
            let j = item_end(lines, i + 1, w);
            let t = if ordered {
                BlockType::OrderedListItem
            } else {
                BlockType::BulletListItem
            };
            seq![
                container_node(t, Seq::empty(), parse_lines(item_lines(lines, i, j, w), 0, depth - 1)),
            ] + parse_lines(lines, j, depth)
        } else if is_code_line(l) {
            let j = code_end(lines, i + 1);
            seq![leaf_node(BlockType::IndentedCodeBlock, join_code(lines, i, j))] + parse_lines(
                lines,
                j,
                depth,
            )
        } else if link_def(l) is Some {
            let (lab, dest) = link_def(l)->Some_0;
            seq![
                container_node(
                    BlockType::LinkDefinition,
                    lab,
                    seq![leaf_node(BlockType::Paragraph, dest)],
                ),
            ] + parse_lines(lines, i + 1, depth)
        } else if ref_link(l) is Some {
            seq![leaf_node(BlockType::ReferenceLink, ref_link(l)->Some_0)] + parse_lines(
                lines,
                i + 1,
                depth,
            )
        } else {
            let j = para_end(lines, i + 1);
            if j < lines.len() && setext_level(lines[j]) >= 1 {
                seq![leaf_node(setext_typ(setext_level(lines[j])), join_para(lines, i, j))]
                    + parse_lines(lines, j + 1, depth)
            } else {
                seq![leaf_node(BlockType::Paragraph, join_para(lines, i, j))] + parse_lines(
                    lines,
                    j,
                    depth,
                )
            }
        }
    }
}

#[via_fn]
proof fn parse_lines_decreases(lines: Seq<Seq<char>>, i: int, depth: int) {
    if i < lines.len() {
        lemma_para_end_bounds(lines, i + 1);
        lemma_code_end_bounds(lines, i + 1);
        lemma_quote_end_bounds(lines, i + 1);
        let l = lines[i];
        if fence_open(l) is Some {
            let (c, n) = fence_open(l)->Some_0;
            lemma_fence_end_bounds(lines, i + 1, c, n);
        }
        if list_marker(l) is Some {
            let (ordered, w) = list_marker(l)->Some_0;
            lemma_item_end_bounds(lines, i + 1, w);
        }
        if !continues_para(l) {
        }
        assert(para_end(lines, i + 1) >= i + 1);
    }
}

// -------------------------------------------------- the whole document

/// Folds the first `i` characters into completed lines and a current
/// partial line; `\n` completes a line and is not kept.
pub open spec fn split_fold(s: Seq<char>, i: int) -> (Seq<Seq<char>>, Seq<char>)
    decreases i when 0 <= i <= s.len()
{
    if i <= 0 {
        (Seq::empty(), Seq::empty())
    } else {
        let p = split_fold(s, i - 1);
        if s[i - 1] == '\n' {
            (p.0.push(p.1), Seq::empty())
        } else {
            (p.0, p.1.push(s[i - 1]))
        }
    }
}

/// The lines of the document: split at `\n`, a trailing fragment kept.
pub open spec fn doc_lines(s: Seq<char>) -> Seq<Seq<char>> {
    let p = split_fold(s, s.len() as int);
    if p.1.len() == 0 {
        p.0
    } else {
        p.0.push(p.1)
    }
}

/// The block tree of a document.
pub open spec fn parse_doc(s: Seq<char>) -> BlockNode {
    container_node(
        BlockType::Document,
        Seq::empty(),
        parse_lines(doc_lines(s), 0, doc_lines(s).len() as int),
    )
}

/// A well-formed head block in front of well-formed blocks.
proof fn lemma_cons_wf(h: BlockNode, rest: Seq<BlockNode>)
    requires
        h.wf(),
        h.typ != BlockType::Document,
        forall|q: int|
            0 <= q < rest.len() ==> (#[trigger] rest[q]).wf() && rest[q].typ != BlockType::Document,
    ensures
        forall|q: int|
            0 <= q < (seq![h] + rest).len() ==> (#[trigger] (seq![h] + rest)[q]).wf() && (seq![h]
                + rest)[q].typ != BlockType::Document,
{
    assert forall|q: int| 0 <= q < (seq![h] + rest).len() implies (#[trigger] (seq![h]
        + rest)[q]).wf() && (seq![h] + rest)[q].typ != BlockType::Document by {
        if q == 0 {
            assert((seq![h] + rest)[q] == h);
        } else {
            assert((seq![h] + rest)[q] == rest[q - 1]);
        }
    }
}

/// Every block the parser produces is well-formed, none is a
/// `Document`, and a non-empty line range yields at least one block.
pub proof fn lemma_parse_wf(lines: Seq<Seq<char>>, i: int, depth: int)
    requires
        0 <= i <= lines.len(),
        0 <= depth,
    ensures
        forall|q: int|
            0 <= q < parse_lines(lines, i, depth).len() ==> (#[trigger] parse_lines(
                lines,
                i,
                depth,
            )[q]).wf() && parse_lines(lines, i, depth)[q].typ != BlockType::Document,
        i < lines.len() ==> parse_lines(lines, i, depth).len() >= 1,
    decreases depth, lines.len() - i,
{
    if i < lines.len() {
        let l = lines[i];
        if is_blank(l) {
            lemma_parse_wf(lines, i + 1, depth);
            lemma_cons_wf(
                leaf_node(BlockType::BreakLine, Seq::empty()),
                parse_lines(lines, i + 1, depth),
            );
        } else if atx_level(l) >= 1 {
            lemma_parse_wf(lines, i + 1, depth);
            lemma_cons_wf(
                leaf_node(atx_typ(atx_level(l)), atx_text(l)),
                parse_lines(lines, i + 1, depth),
            );
        } else if is_thematic_break(l) {
            lemma_parse_wf(lines, i + 1, depth);
            lemma_cons_wf(
                leaf_node(BlockType::ThematicBreaks, Seq::empty()),
                parse_lines(lines, i + 1, depth),
            );
        } else if fence_open(l) is Some {
            let (c, n) = fence_open(l)->Some_0;
            lemma_fence_end_bounds(lines, i + 1, c, n);
            let j = fence_end(lines, i + 1, c, n);
            let next = if j + 1 <= lines.len() {
                j + 1
            } else {
                lines.len() as int
            };
            lemma_parse_wf(lines, next, depth);
            lemma_cons_wf(
                leaf_node(BlockType::FencedCodeBlock, join_raw(lines, i + 1, j)),
                parse_lines(lines, next, depth),
            );
        } else if depth > 0 && is_quote_line(l) {
            lemma_quote_end_bounds(lines, i + 1);
            let j = quote_end(lines, i + 1);
            lemma_parse_wf(quote_lines(lines, i, j), 0, depth - 1);
            lemma_parse_wf(lines, j, depth);
            let h = container_node(
                BlockType::BlockQuote,
                Seq::empty(),
                parse_lines(quote_lines(lines, i, j), 0, depth - 1),
            );
            assert(h.wf());
            lemma_cons_wf(h, parse_lines(lines, j, depth));
        } else if depth > 0 && list_marker(l) is Some {
            let (o, w) = list_marker(l)->Some_0;
            lemma_item_end_bounds(lines, i + 1, w);
            let j = item_end(lines, i + 1, w);
            lemma_parse_wf(item_lines(lines, i, j, w), 0, depth - 1);
            lemma_parse_wf(lines, j, depth);
            let t = if o {
                BlockType::OrderedListItem
            } else {
                BlockType::BulletListItem
            };
            let h = container_node(
                t,
                Seq::empty(),
                parse_lines(item_lines(lines, i, j, w), 0, depth - 1),
            );
            assert(item_lines(lines, i, j, w).len() >= 1);
            assert(h.wf());
            lemma_cons_wf(h, parse_lines(lines, j, depth));
        } else if is_code_line(l) {
            lemma_code_end_bounds(lines, i + 1);
            let j = code_end(lines, i + 1);
            lemma_parse_wf(lines, j, depth);
            lemma_cons_wf(
                leaf_node(BlockType::IndentedCodeBlock, join_code(lines, i, j)),
                parse_lines(lines, j, depth),
            );
        } else if link_def(l) is Some {
            let (lab, dest) = link_def(l)->Some_0;
            lemma_parse_wf(lines, i + 1, depth);
            let child = leaf_node(BlockType::Paragraph, dest);
            assert(child.wf());
            let h = container_node(BlockType::LinkDefinition, lab, seq![child]);
            assert(h.children.len() == 1);
            assert(h.children[0] == child);
            assert(h.wf());
            lemma_cons_wf(h, parse_lines(lines, i + 1, depth));
        } else if ref_link(l) is Some {
            lemma_parse_wf(lines, i + 1, depth);
            lemma_cons_wf(
                leaf_node(BlockType::ReferenceLink, ref_link(l)->Some_0),
                parse_lines(lines, i + 1, depth),
            );
        } else {
            lemma_para_end_bounds(lines, i + 1);
            let j = para_end(lines, i + 1);
            if j < lines.len() && setext_level(lines[j]) >= 1 {
                lemma_parse_wf(lines, j + 1, depth);
                lemma_cons_wf(
                    leaf_node(setext_typ(setext_level(lines[j])), join_para(lines, i, j)),
                    parse_lines(lines, j + 1, depth),
                );
            } else {
                lemma_parse_wf(lines, j, depth);
                lemma_cons_wf(
                    leaf_node(BlockType::Paragraph, join_para(lines, i, j)),
                    parse_lines(lines, j, depth),
                );
            }
        }
    }
}

// ---------------------------------------------------------------- laws

/// A line that opens a paragraph: it matches no other construct at the
/// start of a block.
pub open spec fn starts_paragraph(l: Seq<char>) -> bool {
    &&& !is_blank(l)
    &&& atx_level(l) == 0
    &&& !is_thematic_break(l)
    &&& fence_open(l) is None
    &&& !is_quote_line(l)
    &&& list_marker(l) is None
    &&& !is_code_line(l)
    &&& link_def(l) is None
    &&& ref_link(l) is None
    &&& setext_level(l) == 0
}

/// Consecutive non-blank plain lines join with a newline inside one
/// paragraph, each stripped of its leading spaces.
pub proof fn lemma_paragraph_joins(l0: Seq<char>, l1: Seq<char>)
    requires
        starts_paragraph(l0),
        continues_para(l1),
    ensures
        parse_lines(seq![l0, l1], 0, 2) == seq![
            leaf_node(BlockType::Paragraph, para_text(l0) + seq!['\n'] + para_text(l1)),
        ],
{
    let lines = seq![l0, l1];
    assert(lines.len() == 2);
    assert(lines[0] == l0);
    assert(lines[1] == l1);
    assert(para_end(lines, 2) == 2);
    assert(para_end(lines, 1) == 2);
    assert(join_para(lines, 0, 1) == para_text(l0));
    assert(join_para(lines, 0, 2) == para_text(l0) + seq!['\n'] + para_text(l1));
    assert(parse_lines(lines, 2, 2) =~= Seq::<BlockNode>::empty());
    assert(parse_lines(lines, 0, 2) =~= seq![
        leaf_node(BlockType::Paragraph, para_text(l0) + seq!['\n'] + para_text(l1)),
    ]);
}

/// A setext underline directly after an open paragraph turns it into
/// a heading of the underline's level — even when the underline would
/// also qualify as a thematic break on its own.
pub proof fn lemma_setext_precedence(l0: Seq<char>, l1: Seq<char>)
    requires
        starts_paragraph(l0),
        setext_level(l1) >= 1,
    ensures
        parse_lines(seq![l0, l1], 0, 2) == seq![
            leaf_node(setext_typ(setext_level(l1)), para_text(l0)),
        ],
{
    let lines = seq![l0, l1];
    assert(lines.len() == 2);
    assert(lines[0] == l0);
    assert(lines[1] == l1);
    assert(!continues_para(l1));
    assert(para_end(lines, 1) == 1);
    assert(join_para(lines, 0, 1) == para_text(l0));
    assert(parse_lines(lines, 2, 2) =~= Seq::<BlockNode>::empty());
    assert(parse_lines(lines, 0, 2) =~= seq![
        leaf_node(setext_typ(setext_level(l1)), para_text(l0)),
    ]);
}

/// A blank line splits plain lines into separate paragraphs.
pub proof fn lemma_blank_splits(l0: Seq<char>, b: Seq<char>, l2: Seq<char>)
    requires
        starts_paragraph(l0),
        is_blank(b),
        starts_paragraph(l2),
    ensures
        parse_lines(seq![l0, b, l2], 0, 3) == seq![
            leaf_node(BlockType::Paragraph, para_text(l0)),
            leaf_node(BlockType::BreakLine, Seq::empty()),
            leaf_node(BlockType::Paragraph, para_text(l2)),
        ],
{
    let lines = seq![l0, b, l2];
    assert(lines.len() == 3);
    assert(lines[0] == l0);
    assert(lines[1] == b);
    assert(lines[2] == l2);
    assert(para_end(lines, 1) == 1);
    assert(join_para(lines, 0, 1) == para_text(l0));
    assert(para_end(lines, 3) == 3);
    assert(join_para(lines, 2, 3) == para_text(l2));
    assert(parse_lines(lines, 3, 3) =~= Seq::<BlockNode>::empty());
    assert(parse_lines(lines, 2, 3) =~= seq![leaf_node(BlockType::Paragraph, para_text(l2))]);
    assert(parse_lines(lines, 1, 3) =~= seq![
        leaf_node(BlockType::BreakLine, Seq::empty()),
        leaf_node(BlockType::Paragraph, para_text(l2)),
    ]);
    assert(parse_lines(lines, 0, 3) =~= seq![
        leaf_node(BlockType::Paragraph, para_text(l0)),
        leaf_node(BlockType::BreakLine, Seq::empty()),
        leaf_node(BlockType::Paragraph, para_text(l2)),
    ]);
}

/// An indented line extends an open paragraph: every classifier that
/// could interrupt one demands at most three columns of indent.
pub proof fn lemma_code_line_continues(l: Seq<char>)
    requires
        is_code_line(l),
    ensures
        continues_para(l),
{
    crate::line::lemma_run_from_bounds(l, 0, ' ');
}

/// An indented code line does not interrupt an open paragraph: it is
/// absorbed as lazy continuation text instead.
pub proof fn lemma_code_does_not_interrupt(l0: Seq<char>, l1: Seq<char>)
    requires
        starts_paragraph(l0),
        is_code_line(l1),
    ensures
        parse_lines(seq![l0, l1], 0, 2) == seq![
            leaf_node(BlockType::Paragraph, para_text(l0) + seq!['\n'] + para_text(l1)),
        ],
{
    lemma_code_line_continues(l1);
    lemma_paragraph_joins(l0, l1);
}

/// A block quote interrupts an open paragraph: the paragraph closes
/// at the marker line and a quote block follows.
pub proof fn lemma_quote_interrupts(l0: Seq<char>, l1: Seq<char>)
    requires
        starts_paragraph(l0),
        is_quote_line(l1),
    ensures
        parse_lines(seq![l0, l1], 0, 2).len() == 2,
        parse_lines(seq![l0, l1], 0, 2)[0] == leaf_node(BlockType::Paragraph, para_text(l0)),
        parse_lines(seq![l0, l1], 0, 2)[1].typ == BlockType::BlockQuote,
{
    let lines = seq![l0, l1];
    assert(lines.len() == 2);
    assert(lines[0] == l0);
    assert(lines[1] == l1);
    crate::line::lemma_run_from_bounds(l1, 0, ' ');
    let ind = indent_of(l1);
    assert(0 <= ind <= l1.len());
    assert(ind < l1.len() && l1[ind] == '>');
    assert(crate::line::run_from(l1, ind, '=') == ind);
    assert(crate::line::run_from(l1, ind, '-') == ind);
    assert(setext_level(l1) == 0);
    assert(!continues_para(l1));
    assert(para_end(lines, 1) == 1);
    assert(join_para(lines, 0, 1) == para_text(l0));
    assert(quote_end(lines, 2) == 2);
    assert(parse_lines(lines, 2, 2) =~= Seq::<BlockNode>::empty());
    let tail = parse_lines(lines, 1, 2);
    assert(tail =~= seq![
        container_node(
            BlockType::BlockQuote,
            Seq::empty(),
            parse_lines(quote_lines(lines, 1, quote_end(lines, 2)), 0, 1),
        ),
    ]);
    assert(parse_lines(lines, 0, 2) =~= seq![leaf_node(BlockType::Paragraph, para_text(l0))]
        + tail);
}

// -------------------------------------------------- the executable parser

/// The views of a vector of lines.
pub open spec fn line_views(s: Seq<Vec<char>>) -> Seq<Seq<char>> {
    Seq::new(s.len(), |i: int| s[i]@)
}

/// Splits a document into its lines at `\n`; a trailing fragment
/// without a newline is kept as a final line.
pub fn split_lines(v: &Vec<char>) -> (r: Vec<Vec<char>>)
    ensures
        line_views(r@) == doc_lines(v@),
{
    let mut acc: Vec<Vec<char>> = Vec::new();
    let mut cur: Vec<char> = Vec::new();
    let mut i: usize = 0;
    while i < v.len()
        invariant
            i <= v@.len(),
            line_views(acc@) == split_fold(v@, i as int).0,
            cur@ == split_fold(v@, i as int).1,
        decreases v@.len() - i,
    {
        if v[i] == '\n' {
            let ghost a0 = acc@;
            let ghost c0 = cur@;
            acc.push(cur);
            cur = Vec::new();
            proof {
                assert(line_views(acc@) =~= line_views(a0).push(c0));
            }
        } else {
            cur.push(v[i]);
        }
        i = i + 1;
    }
    if cur.len() > 0 {
        let ghost a0 = acc@;
        let ghost c0 = cur@;
        acc.push(cur);
        proof {
            assert(line_views(acc@) =~= line_views(a0).push(c0));
        }
    }
    acc
}

pub fn para_end_exec(lines: &Vec<Vec<char>>, i: usize) -> (j: usize)
    requires
        i <= lines@.len(),
    ensures
        j == para_end(line_views(lines@), i as int),
        i <= j <= lines@.len(),
{
    let mut j: usize = i;
    while j < lines.len() && continues_para_exec(&lines[j])
        invariant
            i <= j <= lines@.len(),
            para_end(line_views(lines@), i as int) == para_end(line_views(lines@), j as int),
        decreases lines@.len() - j,
    {
        j = j + 1;
    }
    j
}

pub fn code_end_exec(lines: &Vec<Vec<char>>, i: usize) -> (j: usize)
    requires
        i <= lines@.len(),
    ensures
        j == code_end(line_views(lines@), i as int),
        i <= j <= lines@.len(),
{
    let mut j: usize = i;
    while j < lines.len() && crate::line::code_line(&lines[j])
        invariant
            i <= j <= lines@.len(),
            code_end(line_views(lines@), i as int) == code_end(line_views(lines@), j as int),
        decreases lines@.len() - j,
    {
        j = j + 1;
    }
    j
}

pub fn fence_end_exec(lines: &Vec<Vec<char>>, i: usize, c: char, n: usize) -> (j: usize)
    requires
        i <= lines@.len(),
    ensures
        j == fence_end(line_views(lines@), i as int, c, n as int),
        i <= j <= lines@.len(),
{
    let mut j: usize = i;
    while j < lines.len() && !crate::line::fence_close_exec(&lines[j], c, n)
        invariant
            i <= j <= lines@.len(),
            fence_end(line_views(lines@), i as int, c, n as int) == fence_end(
                line_views(lines@),
                j as int,
                c,
                n as int,
            ),
        decreases lines@.len() - j,
    {
        j = j + 1;
    }
    j
}

pub fn quote_end_exec(lines: &Vec<Vec<char>>, i: usize) -> (j: usize)
    requires
        i <= lines@.len(),
    ensures
        j == quote_end(line_views(lines@), i as int),
        i <= j <= lines@.len(),
{
    let mut j: usize = i;
    while j < lines.len() && (crate::line::quote_line(&lines[j]) || continues_para_exec(&lines[j]))
        invariant
            i <= j <= lines@.len(),
            quote_end(line_views(lines@), i as int) == quote_end(line_views(lines@), j as int),
        decreases lines@.len() - j,
    {
        j = j + 1;
    }
    j
}

pub fn item_end_exec(lines: &Vec<Vec<char>>, i: usize, w: usize) -> (j: usize)
    requires
        i <= lines@.len(),
    ensures
        j == item_end(line_views(lines@), i as int, w as int),
        i <= j <= lines@.len(),
{
    let mut j: usize = i;
    while j < lines.len() && (crate::line::blank_line(&lines[j]) || crate::line::indent_exec(
        &lines[j],
    ) >= w)
        invariant
            i <= j <= lines@.len(),
            item_end(line_views(lines@), i as int, w as int) == item_end(
                line_views(lines@),
                j as int,
                w as int,
            ),
        decreases lines@.len() - j,
    {
        j = j + 1;
    }
    j
}

pub fn join_para_exec(lines: &Vec<Vec<char>>, i: usize, j: usize) -> (r: Vec<char>)
    requires
        i <= j <= lines@.len(),
    ensures
        r@ == join_para(line_views(lines@), i as int, j as int),
{
    let mut r: Vec<char> = Vec::new();
    let mut k: usize = i;
    while k < j
        invariant
            i <= k <= j <= lines@.len(),
            r@ == join_para(line_views(lines@), i as int, k as int),
        decreases j - k,
    {
        let ghost gl = line_views(lines@);
        let ghost r0 = r@;
        if k > i {
            r.push('\n');
        }
        let t = crate::line::para_text_exec(&lines[k]);
        crate::text::push_all(&mut r, &t);
        proof {
            if k > i {
                assert(r@ =~= join_para(gl, i as int, k as int) + seq!['\n'] + para_text(
                    gl[k as int],
                ));
            } else {
                assert(r@ =~= para_text(gl[k as int]));
            }
        }
        k = k + 1;
    }
    r
}

pub fn join_code_exec(lines: &Vec<Vec<char>>, i: usize, j: usize) -> (r: Vec<char>)
    requires
        i <= j <= lines@.len(),
        forall|m: int| i <= m < j ==> is_code_line(line_views(lines@)[m]),
    ensures
        r@ == join_code(line_views(lines@), i as int, j as int),
{
    let mut r: Vec<char> = Vec::new();
    let mut k: usize = i;
    while k < j
        invariant
            i <= k <= j <= lines@.len(),
            r@ == join_code(line_views(lines@), i as int, k as int),
            forall|m: int| k <= m < j ==> is_code_line(line_views(lines@)[m]),
        decreases j - k,
    {
        let ghost gl = line_views(lines@);
        proof {
            assert(is_code_line(gl[k as int]));
            assert(gl[k as int] == lines@[k as int]@);
        }
        let t = crate::line::code_text_exec(&lines[k]);
        crate::text::push_all(&mut r, &t);
        r.push('\n');
        proof {
            assert(r@ =~= join_code(gl, i as int, k as int) + code_text(gl[k as int]) + seq!['\n']);
        }
        k = k + 1;
    }
    r
}

pub fn join_raw_exec(lines: &Vec<Vec<char>>, i: usize, j: usize) -> (r: Vec<char>)
    requires
        i <= j <= lines@.len(),
    ensures
        r@ == join_raw(line_views(lines@), i as int, j as int),
{
    let mut r: Vec<char> = Vec::new();
    let mut k: usize = i;
    while k < j
        invariant
            i <= k <= j <= lines@.len(),
            r@ == join_raw(line_views(lines@), i as int, k as int),
        decreases j - k,
    {
        let ghost gl = line_views(lines@);
        crate::text::push_all(&mut r, &lines[k]);
        r.push('\n');
        proof {
            assert(r@ =~= join_raw(gl, i as int, k as int) + gl[k as int] + seq!['\n']);
        }
        k = k + 1;
    }
    r
}

pub fn quote_lines_exec(lines: &Vec<Vec<char>>, i: usize, j: usize) -> (r: Vec<Vec<char>>)
    requires
        i <= j <= lines@.len(),
    ensures
        line_views(r@) == quote_lines(line_views(lines@), i as int, j as int),
{
    let mut r: Vec<Vec<char>> = Vec::new();
    let mut k: usize = i;
    proof {
        assert(line_views(r@) =~= quote_lines(line_views(lines@), i as int, i as int));
    }
    while k < j
        invariant
            i <= k <= j <= lines@.len(),
            line_views(r@) == quote_lines(line_views(lines@), i as int, k as int),
        decreases j - k,
    {
        let ghost gl = line_views(lines@);
        let ghost r0 = r@;
        let t = crate::line::quote_content_exec(&lines[k]);
        let ghost tv = t@;
        r.push(t);
        proof {
            assert(line_views(r@) =~= line_views(r0).push(tv));
            assert(line_views(r@) =~= quote_lines(gl, i as int, k + 1 as int));
        }
        k = k + 1;
    }
    r
}

pub fn item_lines_exec(lines: &Vec<Vec<char>>, i: usize, j: usize, w: usize) -> (r: Vec<Vec<char>>)
    requires
        i <= j <= lines@.len(),
    ensures
        line_views(r@) == item_lines(line_views(lines@), i as int, j as int, w as int),
{
    let mut r: Vec<Vec<char>> = Vec::new();
    let mut k: usize = i;
    proof {
        assert(line_views(r@) =~= item_lines(line_views(lines@), i as int, i as int, w as int));
    }
    while k < j
        invariant
            i <= k <= j <= lines@.len(),
            line_views(r@) == item_lines(line_views(lines@), i as int, k as int, w as int),
        decreases j - k,
    {
        let ghost gl = line_views(lines@);
        let ghost r0 = r@;
        let t = crate::line::item_text_exec(&lines[k], w);
        let ghost tv = t@;
        r.push(t);
        proof {
            assert(line_views(r@) =~= line_views(r0).push(tv));
            assert(line_views(r@) =~= item_lines(gl, i as int, k + 1 as int, w as int));
        }
        k = k + 1;
    }
    r
}

/// Builds a leaf block.
fn leaf_block(t: BlockType, txt: Vec<char>) -> (b: Block)
    ensures
        b@ == leaf_node(t, txt@),
{
    let b = Block { block_type: t, raw_text: txt, children: Vec::new() };
    proof {
        assert(b.children@.len() == 0);
        assert(b@.children =~= Seq::<BlockNode>::empty());
        assert(b@ =~= leaf_node(t, b.raw_text@));
    }
    b
}

/// Parses the lines from `start` on into a sequence of blocks.
#[verifier::rlimit(100)]
pub fn parse_seq(lines: &Vec<Vec<char>>, start: usize, depth: usize) -> (r: Vec<Block>)
    requires
        start <= lines@.len(),
    ensures
        views(r@) == parse_lines(line_views(lines@), start as int, depth as int),
    decreases depth,
{
    let ghost gl = line_views(lines@);
    let mut r: Vec<Block> = Vec::new();
    let mut i: usize = start;
    proof {
        assert(views(r@) + parse_lines(gl, start as int, depth as int) =~= parse_lines(
            gl,
            start as int,
            depth as int,
        ));
    }
    while i < lines.len()
        invariant
            start <= i <= lines@.len(),
            gl == line_views(lines@),
            parse_lines(gl, start as int, depth as int) == views(r@) + parse_lines(
                gl,
                i as int,
                depth as int,
            ),
        decreases lines@.len() - i,
    {
        let ghost r0 = r@;
        let ghost i0 = i as int;
        let l = &lines[i];
        if crate::line::blank_line(l) {
            let b = leaf_block(BlockType::BreakLine, Vec::new());
            r.push(b);
            i = i + 1;
        } else if crate::line::atx_level_exec(l) >= 1 {
            let lev = crate::line::atx_level_exec(l);
            let t = if lev == 1 {
                BlockType::AtxHeading1
            } else if lev == 2 {
                BlockType::AtxHeading2
            } else if lev == 3 {
                BlockType::AtxHeading3
            } else if lev == 4 {
                BlockType::AtxHeading4
            } else if lev == 5 {
                BlockType::AtxHeading5
            } else {
                BlockType::AtxHeading6
            };
            let txt = crate::line::atx_text_exec(l);
            let b = leaf_block(t, txt);
            r.push(b);
            i = i + 1;
        } else if crate::line::thematic_break(l) {
            let b = leaf_block(BlockType::ThematicBreaks, Vec::new());
            r.push(b);
            i = i + 1;
        } else if let Some((c, n)) = crate::line::fence_open_exec(l) {
            let j = fence_end_exec(lines, i + 1, c, n);
            let txt = join_raw_exec(lines, i + 1, j);
            let b = leaf_block(BlockType::FencedCodeBlock, txt);
            r.push(b);
            i = if j < lines.len() {
                j + 1
            } else {
                lines.len()
            };
        } else if depth > 0 && crate::line::quote_line(l) {
            let j = quote_end_exec(lines, i + 1);
            let inner = quote_lines_exec(lines, i, j);
            let children = parse_seq(&inner, 0, depth - 1);
            let b = Block { block_type: BlockType::BlockQuote, raw_text: Vec::new(), children };
            proof {
                assert(b@.children =~= views(b.children@));
                assert(b@ =~= container_node(
                    BlockType::BlockQuote,
                    Seq::empty(),
                    parse_lines(quote_lines(gl, i0, j as int), 0, depth - 1),
                ));
            }
            r.push(b);
            i = j;
        } else if depth > 0 && crate::line::list_marker_exec(l).is_some() {
            let mk = crate::line::list_marker_exec(l);
            let (ordered, w) = mk.unwrap();
            let j = item_end_exec(lines, i + 1, w);
            let inner = item_lines_exec(lines, i, j, w);
            let children = parse_seq(&inner, 0, depth - 1);
            let t = if ordered {
                BlockType::OrderedListItem
            } else {
                BlockType::BulletListItem
            };
            let b = Block { block_type: t, raw_text: Vec::new(), children };
            proof {
                assert(b@.children =~= views(b.children@));
                assert(b@ =~= container_node(
                    t,
                    Seq::empty(),
                    parse_lines(item_lines(gl, i0, j as int, w as int), 0, depth - 1),
                ));
            }
            r.push(b);
            i = j;
        } else if crate::line::code_line(l) {
            let j = code_end_exec(lines, i + 1);
            proof {
                lemma_code_end_all(gl, i0 + 1);
            }
            let txt = join_code_exec(lines, i, j);
            let b = leaf_block(BlockType::IndentedCodeBlock, txt);
            r.push(b);
            i = j;
        } else if let Some((lab, dest)) = crate::line::link_def_exec(l) {
            let child = leaf_block(BlockType::Paragraph, dest);
            let mut ch: Vec<Block> = Vec::new();
            let ghost cv = child@;
            ch.push(child);
            let b = Block { block_type: BlockType::LinkDefinition, raw_text: lab, children: ch };
            proof {
                assert(b@.children =~= views(b.children@));
                assert(views(b.children@) =~= seq![cv]);
                assert(b@ =~= container_node(BlockType::LinkDefinition, b.raw_text@, seq![cv]));
            }
            r.push(b);
            i = i + 1;
        } else if let Some(lab) = crate::line::ref_link_exec(l) {
            let b = leaf_block(BlockType::ReferenceLink, lab);
            r.push(b);
            i = i + 1;
        } else {
            let j = para_end_exec(lines, i + 1);
            let txt = join_para_exec(lines, i, j);
            if j < lines.len() && crate::line::setext_level_exec(&lines[j]) >= 1 {
                let lev = crate::line::setext_level_exec(&lines[j]);
                let t = if lev == 1 {
                    BlockType::SetextHeadingUnderline1
                } else {
                    BlockType::SetextHeadingUnderline2
                };
                let b = leaf_block(t, txt);
                r.push(b);
                i = j + 1;
            } else {
                let b = leaf_block(BlockType::Paragraph, txt);
                r.push(b);
                i = j;
            }
        }
        proof {
            crate::block::lemma_views_push(r0, r@[r0.len() as int]);
            assert(views(r@) =~= views(r0).push(r@[r0.len() as int]@));
            assert(parse_lines(gl, i0, depth as int) =~= seq![r@[r0.len() as int]@] + parse_lines(
                gl,
                i as int,
                depth as int,
            ));
            assert(views(r@) + parse_lines(gl, i as int, depth as int) =~= views(r0) + parse_lines(
                gl,
                i0,
                depth as int,
            ));
        }
    }
    proof {
        assert(views(r@) + parse_lines(gl, i as int, depth as int) =~= views(r@));
    }
    r
}

/// Parses a whole document into its block tree.
pub fn top(input: &str) -> (b: Block)
    ensures
        b@ == parse_doc(input@),
{
    let v = crate::text::chars_of(input);
    let lines = split_lines(&v);
    let children = parse_seq(&lines, 0, lines.len());
    let b = Block { block_type: BlockType::Document, raw_text: Vec::new(), children };
    proof {
        assert(b@.children =~= views(b.children@));
        assert(b@ =~= parse_doc(input@));
    }
    b
}

} // verus!
