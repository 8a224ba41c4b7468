//! The inline parser: rewrites the text of non-code leaves.
//!
//! Constructs, in precedence order: backslash escapes of ASCII
//! punctuation, code spans between equal-length backtick runs, hard
//! line breaks (two or more spaces, or a backslash, before a newline),
//! emphasis and strong emphasis with `*` and `_` delimiter runs
//! (underscores do not open or close next to alphanumerics), and inline
//! links `[text](dest)`. Anything unmatched stays literal text.

use vstd::prelude::*;
use crate::block::{Block, BlockNode, BlockType};
use crate::line::{find_from, lemma_find_from_bounds, lemma_run_from_bounds, run_from};

verus! {

broadcast use
    vstd::std_specs::vec::axiom_vec_decreases_to_view,
    vstd::seq::axiom_seq_index_decreases;

/// ASCII punctuation, the characters a backslash may escape.
pub open spec fn is_punct(c: char) -> bool {
    ('!' <= c <= '/') || (':' <= c <= '@') || ('[' <= c <= '`') || ('{' <= c <= '~')
}

/// ASCII letters and digits, the flanking context for `_`.
pub open spec fn is_alnum(c: char) -> bool {
    ('0' <= c <= '9') || ('a' <= c <= 'z') || ('A' <= c <= 'Z')
}

pub fn punct(c: char) -> (r: bool)
    ensures
        r == is_punct(c),
{
    ('!' <= c && c <= '/') || (':' <= c && c <= '@') || ('[' <= c && c <= '`') || ('{' <= c && c
        <= '~')
}

pub fn alnum(c: char) -> (r: bool)
    ensures
        r == is_alnum(c),
{
    ('0' <= c && c <= '9') || ('a' <= c && c <= 'z') || ('A' <= c && c <= 'Z')
}

/// Start of the first backtick run of exactly `n` at or after `j`;
/// the length of `s` when there is none.
pub open spec fn find_close_ticks(s: Seq<char>, j: int, n: int) -> int
    decreases s.len() - j
        when 0 <= j <= s.len()
        via find_close_ticks_decreases
{
    if j >= s.len() {
        s.len() as int
    } else if s[j] == '`' {
        let e = run_from(s, j, '`');
        if e - j == n {
            j
        } else {
            find_close_ticks(s, e, n)
        }
    } else {
        find_close_ticks(s, j + 1, n)
    }
}

#[via_fn]
proof fn find_close_ticks_decreases(s: Seq<char>, j: int, n: int) {
    if j < s.len() && s[j] == '`' {
        lemma_run_from_bounds(s, j + 1, '`');
        assert(run_from(s, j, '`') == run_from(s, j + 1, '`'));
    }
}

pub proof fn lemma_close_ticks(s: Seq<char>, j: int, n: int)
    requires
        0 <= j <= s.len(),
    ensures
        j <= find_close_ticks(s, j, n) <= s.len(),
        find_close_ticks(s, j, n) < s.len() ==> {
            let p = find_close_ticks(s, j, n);
            s[p] == '`' && run_from(s, p, '`') == p + n && p + n <= s.len()
        },
    decreases s.len() - j,
{
    if j < s.len() {
        if s[j] == '`' {
            lemma_run_from_bounds(s, j + 1, '`');
            assert(run_from(s, j, '`') == run_from(s, j + 1, '`'));
            let e = run_from(s, j, '`');
            if e - j != n {
                lemma_close_ticks(s, e, n);
            }
        } else {
            lemma_close_ticks(s, j + 1, n);
        }
    }
}

/// Whether a delimiter run of `d` starting at `j` with run end `e` may
/// close emphasis opened with `t` delimiters: right-flanking (not
/// preceded by whitespace; for `_`, not followed by an alphanumeric)
/// and at least `t` long.
pub open spec fn closes_emph(s: Seq<char>, j: int, d: char, t: int) -> bool {
    let e = run_from(s, j, d);
    &&& j >= 1
    &&& s[j - 1] != ' '
    &&& s[j - 1] != '\n'
    &&& e - j >= t
    &&& (d == '*' || e >= s.len() || !is_alnum(s[e]))
}

/// Start of the first run of `d` at or after `j` that may close
/// emphasis opened with `t` delimiters; the length of `s` if none.
pub open spec fn find_close_emph(s: Seq<char>, j: int, d: char, t: int) -> int
    decreases s.len() - j
        when 0 <= j <= s.len()
        via find_close_emph_decreases
{
    if j >= s.len() {
        s.len() as int
    } else if s[j] == d {
        let e = run_from(s, j, d);
        if closes_emph(s, j, d, t) {
            j
        } else {
            find_close_emph(s, e, d, t)
        }
    } else {
        find_close_emph(s, j + 1, d, t)
    }
}

#[via_fn]
proof fn find_close_emph_decreases(s: Seq<char>, j: int, d: char, t: int) {
    if j < s.len() && s[j] == d {
        lemma_run_from_bounds(s, j + 1, d);
        assert(run_from(s, j, d) == run_from(s, j + 1, d));
    }
}

pub proof fn lemma_close_emph(s: Seq<char>, j: int, d: char, t: int)
    requires
        0 <= j <= s.len(),
    ensures
        j <= find_close_emph(s, j, d, t) <= s.len(),
        find_close_emph(s, j, d, t) < s.len() ==> {
            let p = find_close_emph(s, j, d, t);
            s[p] == d && closes_emph(s, p, d, t) && run_from(s, p, d) <= s.len()
        },
    decreases s.len() - j,
{
    if j < s.len() {
        if s[j] == d {
            lemma_run_from_bounds(s, j + 1, d);
            assert(run_from(s, j, d) == run_from(s, j + 1, d));
            if !closes_emph(s, j, d, t) {
                lemma_close_emph(s, run_from(s, j, d), d, t);
            }
        } else {
            lemma_close_emph(s, j + 1, d, t);
        }
    }
}

/// The inline-resolved form of `s` from position `i` on, where `prevc`
/// is the character just before position `i` (a newline at the start
/// of the text).
pub open spec fn inline_from(s: Seq<char>, i: int, prevc: char) -> Seq<char>
    decreases s.len(), s.len() - i
        when 0 <= i <= s.len()
        via inline_from_decreases
{
    if i >= s.len() {
        Seq::empty()
    } else {
        let c = s[i];
        if c == '\\' && i + 1 < s.len() && is_punct(s[i + 1]) {
            seq![s[i + 1]] + inline_from(s, i + 2, s[i + 1])
        } else if c == '\\' && i + 1 < s.len() && s[i + 1] == '\n' {
            "<br />\n"@ + inline_from(s, i + 2, '\n')
        } else if c == '`' {
            let e = run_from(s, i, '`');
            let n = e - i;
            let j = find_close_ticks(s, e, n);
            if j < s.len() {
                "<code>"@ + s.subrange(e, j) + "</code>"@ + inline_from(s, j + n, '`')
            } else {
                s.subrange(i, e) + inline_from(s, e, '`')
            }
        } else if c == ' ' {
            let e = run_from(s, i, ' ');
            if e - i >= 2 && e < s.len() && s[e] == '\n' {
                "<br />\n"@ + inline_from(s, e + 1, '\n')
            } else {
                seq![' '] + inline_from(s, i + 1, ' ')
            }
        } else if c == '*' || c == '_' {
            let e = run_from(s, i, c);
            let n = e - i;
            if e < s.len() && s[e] != ' ' && s[e] != '\n' && (c == '*' || !is_alnum(prevc)) {
                let t = if n >= 2 {
                    2int
                } else {
                    1int
                };
                let j = find_close_emph(s, e, c, t);
                if j < s.len() {
                    s.subrange(i, e - t) + (if t == 2 {
                        "<strong>"@
                    } else {
                        "<em>"@
                    }) + inline_from(s.subrange(e, j), 0, c) + (if t == 2 {
                        "</strong>"@
                    } else {
                        "</em>"@
                    }) + inline_from(s, j + t, c)
                } else {
                    s.subrange(i, e) + inline_from(s, e, c)
                }
            } else {
                s.subrange(i, e) + inline_from(s, e, c)
            }
        } else if c == '[' {
            let k = find_from(s, i + 1, ']');
            if k < s.len() && k + 1 < s.len() && s[k + 1] == '(' {
                let p = find_from(s, k + 2, ')');
                if p < s.len() {
                    "<a href=\""@ + s.subrange(k + 2, p) + "\">"@ + inline_from(
                        s.subrange(i + 1, k),
                        0,
                        '[',
                    ) + "</a>"@ + inline_from(s, p + 1, ')')
                } else {
                    seq!['['] + inline_from(s, i + 1, '[')
                }
            } else {
                seq!['['] + inline_from(s, i + 1, '[')
            }
        } else {
            seq![c] + inline_from(s, i + 1, c)
        }
    }
}

#[via_fn]
proof fn inline_from_decreases(s: Seq<char>, i: int, prevc: char) {
    if i < s.len() {
        let c = s[i];
        lemma_run_from_bounds(s, i, c);
        lemma_run_from_bounds(s, i, '`');
        lemma_run_from_bounds(s, i, ' ');
        lemma_run_from_bounds(s, i + 1, c);
        lemma_run_from_bounds(s, i + 1, '`');
        lemma_run_from_bounds(s, i + 1, ' ');
        if c == '`' {
            assert(run_from(s, i, '`') == run_from(s, i + 1, '`'));
        }
        if c == ' ' {
            assert(run_from(s, i, ' ') == run_from(s, i + 1, ' '));
        }
        if c == '*' || c == '_' {
            assert(run_from(s, i, c) == run_from(s, i + 1, c));
        }
        lemma_find_from_bounds(s, i + 1, ']');
        if c == '`' {
            let e = run_from(s, i, '`');
            lemma_close_ticks(s, e, e - i);
        }
        if c == '*' || c == '_' {
            let e = run_from(s, i, c);
            let n = e - i;
            let t = if n >= 2 {
                2int
            } else {
                1int
            };
            lemma_close_emph(s, e, c, t);
            if find_close_emph(s, e, c, t) < s.len() {
                lemma_run_from_bounds(s, find_close_emph(s, e, c, t), c);
            }
        }
        if c == '[' {
            let k = find_from(s, i + 1, ']');
            if k + 1 < s.len() {
                lemma_find_from_bounds(s, k + 2, ')');
            }
        }
    }
}

/// The inline-resolved form of a whole text.
pub open spec fn inline_of(s: Seq<char>) -> Seq<char> {
    inline_from(s, 0, '\n')
}

// -------------------------------------------------------- the executable

pub fn find_close_ticks_exec(l: &Vec<char>, j: usize, n: usize) -> (r: usize)
    requires
        j <= l@.len(),
    ensures
        r == find_close_ticks(l@, j as int, n as int),
        j <= r <= l@.len(),
{
    let mut j2: usize = j;
    loop
        invariant
            j <= j2 <= l@.len(),
            find_close_ticks(l@, j as int, n as int) == find_close_ticks(l@, j2 as int, n as int),
        decreases l@.len() - j2,
    {
        if j2 >= l.len() {
            return j2;
        }
        if l[j2] == '`' {
            let e = crate::line::scan_run(l, j2, '`');
            proof {
                lemma_run_from_bounds(l@, j2 + 1, '`');
                assert(run_from(l@, j2 as int, '`') == run_from(l@, j2 + 1 as int, '`'));
            }
            if e - j2 == n {
                return j2;
            }
            j2 = e;
        } else {
            j2 = j2 + 1;
        }
    }
}

pub fn find_close_emph_exec(l: &Vec<char>, j: usize, d: char, t: usize) -> (r: usize)
    requires
        j <= l@.len(),
    ensures
        r == find_close_emph(l@, j as int, d, t as int),
        j <= r <= l@.len(),
{
    let mut j2: usize = j;
    loop
        invariant
            j <= j2 <= l@.len(),
            find_close_emph(l@, j as int, d, t as int) == find_close_emph(
                l@,
                j2 as int,
                d,
                t as int,
            ),
        decreases l@.len() - j2,
    {
        if j2 >= l.len() {
            return j2;
        }
        if l[j2] == d {
            let e = crate::line::scan_run(l, j2, d);
            proof {
                lemma_run_from_bounds(l@, j2 + 1, d);
                assert(run_from(l@, j2 as int, d) == run_from(l@, j2 + 1 as int, d));
            }
            let ok = j2 >= 1 && l[j2 - 1] != ' ' && l[j2 - 1] != '\n' && e - j2 >= t && (d == '*'
                || e >= l.len() || !alnum(l[e]));
            if ok {
                return j2;
            }
            j2 = e;
        } else {
            j2 = j2 + 1;
        }
    }
}

/// Resolves the inline constructs of a text, `prevc` being the
/// character standing just before it.
#[verifier::rlimit(100)]
pub fn inline_exec(s: &Vec<char>, prevc: char) -> (r: Vec<char>)
    ensures
        r@ == inline_from(s@, 0, prevc),
    decreases s@.len(),
{
    let mut out: Vec<char> = Vec::new();
    let mut i: usize = 0;
    let mut prev: char = prevc;
    proof {
        assert(out@ + inline_from(s@, 0, prevc) =~= inline_from(s@, 0, prevc));
    }
    while i < s.len()
        invariant
            i <= s@.len(),
            out@ + inline_from(s@, i as int, prev) == inline_from(s@, 0, prevc),
        decreases s@.len() - i,
    {
        let ghost o0 = out@;
        let ghost i0 = i as int;
        let ghost p0 = prev;
        let c = s[i];
        if c == '\\' && i + 1 < s.len() && punct(s[i + 1]) {
            let pc = s[i + 1];
            out.push(pc);
            i = i + 2;
            prev = pc;
            proof {
                assert(out@ =~= o0 + seq![pc]);
            }
        } else if c == '\\' && i + 1 < s.len() && s[i + 1] == '\n' {
            let tag = crate::text::chars_of("<br />\n");
            crate::text::push_all(&mut out, &tag);
            i = i + 2;
            prev = '\n';
        } else if c == '`' {
            let e = crate::line::scan_run(s, i, '`');
            let n = e - i;
            proof {
                lemma_run_from_bounds(s@, i + 1 as int, '`');
                assert(run_from(s@, i0, '`') == run_from(s@, i0 + 1, '`'));
                lemma_close_ticks(s@, e as int, n as int);
            }
            let j = find_close_ticks_exec(s, e, n);
            if j < s.len() {
                let t1 = crate::text::chars_of("<code>");
                crate::text::push_all(&mut out, &t1);
                let mid = crate::line::subvec(s, e, j);
                crate::text::push_all(&mut out, &mid);
                let t2 = crate::text::chars_of("</code>");
                crate::text::push_all(&mut out, &t2);
                i = j + n;
                prev = '`';
            } else {
                let lit = crate::line::subvec(s, i, e);
                crate::text::push_all(&mut out, &lit);
                i = e;
                prev = '`';
            }
        } else if c == ' ' {
            let e = crate::line::scan_run(s, i, ' ');
            if e - i >= 2 && e < s.len() && s[e] == '\n' {
                let tag = crate::text::chars_of("<br />\n");
                crate::text::push_all(&mut out, &tag);
                i = e + 1;
                prev = '\n';
            } else {
                out.push(' ');
                i = i + 1;
                prev = ' ';
                proof {
                    assert(out@ =~= o0 + seq![' ']);
                }
            }
        } else if c == '*' || c == '_' {
            let e = crate::line::scan_run(s, i, c);
            let n = e - i;
            proof {
                lemma_run_from_bounds(s@, i + 1 as int, c);
                assert(run_from(s@, i0, c) == run_from(s@, i0 + 1, c));
            }
            let flank = e < s.len() && s[e] != ' ' && s[e] != '\n' && (c == '*' || !alnum(prev));
            if flank {
                let t: usize = if n >= 2 {
                    2
                } else {
                    1
                };
                proof {
                    lemma_close_emph(s@, e as int, c, t as int);
                }
                let j = find_close_emph_exec(s, e, c, t);
                if j < s.len() {
                    let lit = crate::line::subvec(s, i, e - t);
                    crate::text::push_all(&mut out, &lit);
                    let open_tag = if t == 2 {
                        crate::text::chars_of("<strong>")
                    } else {
                        crate::text::chars_of("<em>")
                    };
                    crate::text::push_all(&mut out, &open_tag);
                    let innerv = crate::line::subvec(s, e, j);
                    proof {
                        assert(innerv@.len() < s@.len());
                    }
                    let rend = inline_exec(&innerv, c);
                    crate::text::push_all(&mut out, &rend);
                    let close_tag = if t == 2 {
                        crate::text::chars_of("</strong>")
                    } else {
                        crate::text::chars_of("</em>")
                    };
                    crate::text::push_all(&mut out, &close_tag);
                    i = j + t;
                    prev = c;
                } else {
                    let lit = crate::line::subvec(s, i, e);
                    crate::text::push_all(&mut out, &lit);
                    i = e;
                    prev = c;
                }
            } else {
                let lit = crate::line::subvec(s, i, e);
                crate::text::push_all(&mut out, &lit);
                i = e;
                prev = c;
            }
        } else if c == '[' {
            let k = crate::line::find_char(s, i + 1, ']');
            if k < s.len() && k + 1 < s.len() && s[k + 1] == '(' {
                let p = crate::line::find_char(s, k + 2, ')');
                if p < s.len() {
                    let t1 = crate::text::chars_of("<a href=\"");
                    crate::text::push_all(&mut out, &t1);
                    let dest = crate::line::subvec(s, k + 2, p);
                    crate::text::push_all(&mut out, &dest);
                    let t2 = crate::text::chars_of("\">");
                    crate::text::push_all(&mut out, &t2);
                    let innerv = crate::line::subvec(s, i + 1, k);
                    proof {
                        assert(innerv@.len() < s@.len());
                    }
                    let rend = inline_exec(&innerv, '[');
                    crate::text::push_all(&mut out, &rend);
                    let t3 = crate::text::chars_of("</a>");
                    crate::text::push_all(&mut out, &t3);
                    i = p + 1;
                    prev = ')';
                } else {
                    out.push('[');
                    i = i + 1;
                    prev = '[';
                    proof {
                        assert(out@ =~= o0 + seq!['[']);
                    }
                }
            } else {
                out.push('[');
                i = i + 1;
                prev = '[';
                proof {
                    assert(out@ =~= o0 + seq!['[']);
                }
            }
        } else {
            out.push(c);
            i = i + 1;
            prev = c;
            proof {
                assert(out@ =~= o0 + seq![c]);
            }
        }
        proof {
            assert(out@ + inline_from(s@, i as int, prev) =~= o0 + inline_from(s@, i0, p0));
        }
    }
    out
}

// ------------------------------------------------------------- the tree

/// The variants whose text the inline parser rewrites: text-bearing
/// display leaves that are not code blocks. Code content stays
/// verbatim, and reference labels stay as lookup keys.
pub open spec fn is_inline_leaf(t: BlockType) -> bool {
    t == BlockType::Paragraph || t == BlockType::AtxHeading1 || t == BlockType::AtxHeading2 || t
        == BlockType::AtxHeading3 || t == BlockType::AtxHeading4 || t == BlockType::AtxHeading5
        || t == BlockType::AtxHeading6 || t == BlockType::SetextHeadingUnderline1 || t
        == BlockType::SetextHeadingUnderline2
}

fn inline_leaf(t: BlockType) -> (r: bool)
    ensures
        r == is_inline_leaf(t),
{
    t == BlockType::Paragraph || t == BlockType::AtxHeading1 || t == BlockType::AtxHeading2 || t
        == BlockType::AtxHeading3 || t == BlockType::AtxHeading4 || t == BlockType::AtxHeading5
        || t == BlockType::AtxHeading6 || t == BlockType::SetextHeadingUnderline1 || t
        == BlockType::SetextHeadingUnderline2
}

/// The tree after the inline pass: every eligible leaf's text
/// resolved, every other text and the tree shape unchanged.
pub open spec fn inline_node(b: BlockNode) -> BlockNode
    decreases b,
{
    BlockNode {
        typ: b.typ,
        text: if is_inline_leaf(b.typ) {
            inline_of(b.text)
        } else {
            b.text
        },
        children: Seq::new(
            b.children.len(),
            |i: int|
                if 0 <= i < b.children.len() {
                    inline_node(b.children[i])
                } else {
                    b
                },
        ),
    }
}

/// Applies the inline pass to a block and its descendants.
pub fn inline_block(b: &Block) -> (r: Block)
    ensures
        r@ == inline_node(b@),
    decreases b,
{
    let nt = if inline_leaf(b.block_type) {
        inline_exec(&b.raw_text, '\n')
    } else {
        crate::text::copy_chars(&b.raw_text)
    };
    let mut newc: Vec<Block> = Vec::new();
    let mut k: usize = 0;
    while k < b.children.len()
        invariant
            k <= b.children@.len(),
            newc@.len() == k,
            forall|q: int| 0 <= q < k ==> (#[trigger] newc@[q])@ == inline_node(b@.children[q]),
        decreases b.children@.len() - k,
    {
        proof {
            assert(decreases_to!(b => b.children));
            assert(decreases_to!(b.children => b.children@));
            assert(decreases_to!(b.children@ => b.children@[k as int]));
            assert(b@.children[k as int] == b.children@[k as int]@);
        }
        let rc = inline_block(&b.children[k]);
        newc.push(rc);
        k = k + 1;
    }
    let r = Block { block_type: b.block_type, raw_text: nt, children: newc };
    proof {
        assert(r@.children =~= inline_node(b@).children);
        assert(r@ =~= inline_node(b@));
    }
    r
}

/// The inline pass keeps the tree well-formed and every variant tag.
pub proof fn lemma_inline_wf(b: BlockNode)
    requires
        b.wf(),
    ensures
        inline_node(b).wf(),
        inline_node(b).typ == b.typ,
        inline_node(b).children.len() == b.children.len(),
    decreases b,
{
    assert forall|i: int| 0 <= i < b.children.len() implies (#[trigger] inline_node(b).children[
        i
    ]).wf() && inline_node(b).children[i].typ != BlockType::Document by {
        assert(b.children[i].wf());
        lemma_inline_wf(b.children[i]);
        assert(inline_node(b).children[i] == inline_node(b.children[i]));
    }
}

/// The inline pass keeps every block of a sequence well-formed.
pub proof fn lemma_inline_wf_seq(bs: Seq<BlockNode>)
    requires
        forall|q: int| 0 <= q < bs.len() ==> (#[trigger] bs[q]).wf(),
    ensures
        forall|q: int| 0 <= q < bs.len() ==> (#[trigger] inline_node(bs[q])).wf(),
{
    assert forall|q: int| 0 <= q < bs.len() implies (#[trigger] inline_node(bs[q])).wf() by {
        lemma_inline_wf(bs[q]);
    }
}

/// Rewrites the raw text of every eligible leaf of the tree in place.
pub fn top(b: &mut Block)
    ensures
        final(b)@ == inline_node(old(b)@),
{
    let done = inline_block(b);
    *b = done;
}

} // verus!
