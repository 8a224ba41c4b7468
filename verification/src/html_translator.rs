//! The renderer and the pipeline entry: walks the finished block tree,
//! emits HTML, and resolves link-reference labels against the
//! definitions rendered earlier in the same walk.

use vstd::prelude::*;
use crate::block::{Block, BlockNode, BlockType, views};
use crate::text::{escape_seq, chars_of, string_of, push_all, copy_chars};
use crate::block_parser::parse_doc;
use crate::inline_parser::inline_node;

verus! {

broadcast use
    vstd::std_specs::vec::axiom_vec_decreases_to_view,
    vstd::seq::axiom_seq_index_decreases,
    vstd::seq::axiom_seq_subrange_decreases;

// ------------------------------------------------------- the label table

/// The model of the label table: label/fragment pairs in insertion
/// order.
pub open spec fn env_views(e: Seq<(Vec<char>, Vec<char>)>) -> Seq<(Seq<char>, Seq<char>)> {
    Seq::new(e.len(), |i: int| (e[i].0@, e[i].1@))
}

/// Looks a label up; the latest definition wins.
pub open spec fn env_lookup(env: Seq<(Seq<char>, Seq<char>)>, key: Seq<char>) -> Option<Seq<char>>
    decreases env.len(),
{
    if env.len() == 0 {
        None
    } else if env.last().0 == key {
        Some(env.last().1)
    } else {
        env_lookup(env.drop_last(), key)
    }
}

/// Whether two character vectors hold the same text.
pub fn eq_chars(a: &Vec<char>, b: &Vec<char>) -> (r: bool)
    ensures
        r == (a@ == b@),
{
    if a.len() != b.len() {
        return false;
    }
    let mut i: usize = 0;
    while i < a.len()
        invariant
            i <= a@.len(),
            a@.len() == b@.len(),
            forall|q: int| 0 <= q < i ==> a@[q] == b@[q],
        decreases a@.len() - i,
    {
        if a[i] != b[i] {
            return false;
        }
        i = i + 1;
    }
    proof {
        assert(a@ =~= b@);
    }
    true
}

/// Finds the fragment registered latest under a label, if any.
pub fn env_get(env: &Vec<(Vec<char>, Vec<char>)>, key: &Vec<char>) -> (r: Option<Vec<char>>)
    ensures
        match r {
            Some(v) => env_lookup(env_views(env@), key@) == Some(v@),
            None => env_lookup(env_views(env@), key@) is None,
        },
{
    let ghost ev = env_views(env@);
    let mut t: usize = env.len();
    proof {
        assert(ev.subrange(0, ev.len() as int) =~= ev);
    }
    while t > 0
        invariant
            ev == env_views(env@),
            ev.len() == env@.len(),
            t <= env@.len(),
            env_lookup(ev, key@) == env_lookup(ev.subrange(0, t as int), key@),
        decreases t,
    {
        proof {
            assert(ev.subrange(0, t as int).len() == t as int);
            assert(ev.subrange(0, t as int)[t - 1 as int] == ev[t - 1 as int]);
            assert(ev.subrange(0, t as int).last() == ev[t - 1 as int]);
            assert(ev.subrange(0, t as int).drop_last() =~= ev.subrange(0, t - 1 as int));
            assert(ev[t - 1 as int] == (env@[t - 1 as int].0@, env@[t - 1 as int].1@));
        }
        if eq_chars(&env[t - 1].0, key) {
            let v = copy_chars(&env[t - 1].1);
            return Some(v);
        }
        t = t - 1;
    }
    None
}

// ----------------------------------------------------------- the render

/// What one block renders to, and the label table it leaves behind.
pub open spec fn render_block(b: BlockNode, env: Seq<(Seq<char>, Seq<char>)>) -> (
    Seq<char>,
    Seq<(Seq<char>, Seq<char>)>,
)
    decreases b,
{
    if b.typ == BlockType::Document {
        render_seq(b.children, env)
    } else if b.typ == BlockType::ThematicBreaks {
        ("<hr />"@, env)
    } else if b.typ == BlockType::BreakLine {
        (Seq::empty(), env)
    } else if b.typ == BlockType::Paragraph {
        ("<p>"@ + b.text + "</p>"@, env)
    } else if b.typ == BlockType::AtxHeading1 || b.typ == BlockType::SetextHeadingUnderline1 {
        ("<h1>"@ + b.text + "</h1>"@, env)
    } else if b.typ == BlockType::AtxHeading2 || b.typ == BlockType::SetextHeadingUnderline2 {
        ("<h2>"@ + b.text + "</h2>"@, env)
    } else if b.typ == BlockType::AtxHeading3 {
        ("<h3>"@ + b.text + "</h3>"@, env)
    } else if b.typ == BlockType::AtxHeading4 {
        ("<h4>"@ + b.text + "</h4>"@, env)
    } else if b.typ == BlockType::AtxHeading5 {
        ("<h5>"@ + b.text + "</h5>"@, env)
    } else if b.typ == BlockType::AtxHeading6 {
        ("<h6>"@ + b.text + "</h6>"@, env)
    } else if b.typ == BlockType::IndentedCodeBlock || b.typ == BlockType::FencedCodeBlock {
        ("<pre><code>"@ + escape_seq(b.text) + "</code></pre>"@, env)
    } else if b.typ == BlockType::BlockQuote {
        let (h, e) = render_seq(b.children, env);
        ("<blockquote>"@ + h + "</blockquote>"@, e)
    } else if b.typ == BlockType::BulletListItem {
        if b.children.len() <= 2 {
            ("<ul><li>"@ + b.children[0].text + "</li></ul>"@, env)
        } else {
            let (h, e) = render_seq(b.children, env);
            ("<ul><li>"@ + h + "</li></ul>"@, e)
        }
    } else if b.typ == BlockType::OrderedListItem {
        let (h, e) = render_seq(b.children, env);
        ("<ol><li>"@ + h + "</li></ol>"@, e)
    } else if b.typ == BlockType::LinkDefinition {
        let (h, e) = render_seq(b.children, env);
        (Seq::empty(), e.push((b.text, h)))
    } else {
        // ReferenceLink
        match env_lookup(env, b.text) {
            Some(h) => (h, env),
            None => (Seq::empty(), env),
        }
    }
}

/// What a sequence of blocks renders to: the fragments concatenated,
/// the label table threaded left to right.
pub open spec fn render_seq(bs: Seq<BlockNode>, env: Seq<(Seq<char>, Seq<char>)>) -> (
    Seq<char>,
    Seq<(Seq<char>, Seq<char>)>,
)
    decreases bs,
{
    if bs.len() == 0 {
        (Seq::empty(), env)
    } else {
        let (h1, e1) = render_block(bs[0], env);
        let (h2, e2) = render_seq(bs.subrange(1, bs.len() as int), e1);
        (h1 + h2, e2)
    }
}

/// What the top-level blocks of a document render to: as `render_seq`,
/// but every non-empty fragment is followed by a newline.
pub open spec fn render_doc_seq(bs: Seq<BlockNode>, env: Seq<(Seq<char>, Seq<char>)>) -> (
    Seq<char>,
    Seq<(Seq<char>, Seq<char>)>,
)
    decreases bs,
{
    if bs.len() == 0 {
        (Seq::empty(), env)
    } else {
        let (h1, e1) = render_block(bs[0], env);
        let (h2, e2) = render_doc_seq(bs.subrange(1, bs.len() as int), e1);
        if h1.len() == 0 {
            (h2, e2)
        } else {
            (h1 + seq!['\n'] + h2, e2)
        }
    }
}

// --------------------------------------------------------- the exec walk

/// Concatenation of three texts.
fn wrap_tags(pre: &str, mid: &Vec<char>, post: &str) -> (r: Vec<char>)
    ensures
        r@ == pre@ + mid@ + post@,
{
    let mut r = chars_of(pre);
    push_all(&mut r, mid);
    let p2 = chars_of(post);
    push_all(&mut r, &p2);
    r
}

/// Renders one block, registering link definitions into `env`.
fn print(b: &Block, env: &mut Vec<(Vec<char>, Vec<char>)>) -> (r: Vec<char>)
    requires
        b@.wf(),
    ensures
        r@ == render_block(b@, env_views(old(env)@)).0,
        env_views(final(env)@) == render_block(b@, env_views(old(env)@)).1,
    decreases b,
{
    proof {
        assert forall|q: int| 0 <= q < b.children@.len() implies (#[trigger] b.children@[q])@.wf()
            by {
            assert(b@.children[q].wf());
        }
        assert(views(b.children@) =~= b@.children);
    }
    match b.block_type {
        BlockType::Document => print_seq(&b.children, env),
        BlockType::ThematicBreaks => chars_of("<hr />"),
        BlockType::BreakLine => {
            let r: Vec<char> = Vec::new();
            proof {
                assert(r@ =~= Seq::<char>::empty());
            }
            r
        },
        BlockType::Paragraph => wrap_tags("<p>", &b.raw_text, "</p>"),
        BlockType::AtxHeading1 => wrap_tags("<h1>", &b.raw_text, "</h1>"),
        BlockType::SetextHeadingUnderline1 => wrap_tags("<h1>", &b.raw_text, "</h1>"),
        BlockType::AtxHeading2 => wrap_tags("<h2>", &b.raw_text, "</h2>"),
        BlockType::SetextHeadingUnderline2 => wrap_tags("<h2>", &b.raw_text, "</h2>"),
        BlockType::AtxHeading3 => wrap_tags("<h3>", &b.raw_text, "</h3>"),
        BlockType::AtxHeading4 => wrap_tags("<h4>", &b.raw_text, "</h4>"),
        BlockType::AtxHeading5 => wrap_tags("<h5>", &b.raw_text, "</h5>"),
        BlockType::AtxHeading6 => wrap_tags("<h6>", &b.raw_text, "</h6>"),
        BlockType::IndentedCodeBlock => {
            let esc = crate::text::escape_html(&b.raw_text);
            wrap_tags("<pre><code>", &esc, "</code></pre>")
        },
        BlockType::FencedCodeBlock => {
            let esc = crate::text::escape_html(&b.raw_text);
            wrap_tags("<pre><code>", &esc, "</code></pre>")
        },
        BlockType::BlockQuote => {
            let h = print_seq(&b.children, env);
            wrap_tags("<blockquote>", &h, "</blockquote>")
        },
        BlockType::BulletListItem => {
            if b.children.len() <= 2 {
                let t = b.children[0].get_text();
                let tc = copy_chars(t);
                wrap_tags("<ul><li>", &tc, "</li></ul>")
            } else {
                let h = print_seq(&b.children, env);
                wrap_tags("<ul><li>", &h, "</li></ul>")
            }
        },
        BlockType::OrderedListItem => {
            let h = print_seq(&b.children, env);
            wrap_tags("<ol><li>", &h, "</li></ol>")
        },
        BlockType::LinkDefinition => {
            let ghost e0 = env_views(env@);
            let h = print_seq(&b.children, env);
            let lab = copy_chars(&b.raw_text);
            let ghost e1 = env_views(env@);
            let ghost hv = h@;
            env.push((lab, h));
            proof {
                assert(env_views(env@) =~= e1.push((b@.text, hv)));
            }
            let r: Vec<char> = Vec::new();
            proof {
                assert(r@ =~= Seq::<char>::empty());
            }
            r
        },
        BlockType::ReferenceLink => {
            match env_get(env, &b.raw_text) {
                Some(v) => v,
                None => {
                    let r: Vec<char> = Vec::new();
                    proof {
                        assert(r@ =~= Seq::<char>::empty());
                    }
                    r
                },
            }
        },
    }
}

/// Renders a sequence of blocks, concatenated.
fn print_seq(ch: &Vec<Block>, env: &mut Vec<(Vec<char>, Vec<char>)>) -> (r: Vec<char>)
    requires
        forall|q: int| 0 <= q < ch@.len() ==> (#[trigger] ch@[q])@.wf(),
    ensures
        r@ == render_seq(views(ch@), env_views(old(env)@)).0,
        env_views(final(env)@) == render_seq(views(ch@), env_views(old(env)@)).1,
    decreases ch,
{
    let ghost bs = views(ch@);
    let ghost e0 = env_views(env@);
    let mut out: Vec<char> = Vec::new();
    let mut k: usize = 0;
    proof {
        assert(bs.subrange(0, bs.len() as int) =~= bs);
    }
    while k < ch.len()
        invariant
            k <= ch@.len(),
            bs == views(ch@),
            e0 == env_views(old(env)@),
            forall|q: int| 0 <= q < ch@.len() ==> (#[trigger] ch@[q])@.wf(),
            out@ + render_seq(bs.subrange(k as int, bs.len() as int), env_views(env@)).0
                == render_seq(bs, e0).0,
            render_seq(bs.subrange(k as int, bs.len() as int), env_views(env@)).1 == render_seq(
                bs,
                e0,
            ).1,
        decreases ch@.len() - k,
    {
        let ghost o0 = out@;
        let ghost ek = env_views(env@);
        proof {
            assert(decreases_to!(ch => ch@));
            assert(decreases_to!(ch@ => ch@[k as int]));
            assert(bs.subrange(k as int, bs.len() as int)[0] == bs[k as int]);
            assert(bs.subrange(k as int, bs.len() as int).subrange(
                1,
                bs.subrange(k as int, bs.len() as int).len() as int,
            ) =~= bs.subrange(k + 1 as int, bs.len() as int));
        }
        let h = print(&ch[k], env);
        push_all(&mut out, &h);
        k = k + 1;
    }
    out
}

/// Renders the top-level blocks: each non-empty fragment followed by a
/// newline.
fn print_doc(ch: &Vec<Block>, env: &mut Vec<(Vec<char>, Vec<char>)>) -> (r: Vec<char>)
    requires
        forall|q: int| 0 <= q < ch@.len() ==> (#[trigger] ch@[q])@.wf(),
    ensures
        r@ == render_doc_seq(views(ch@), env_views(old(env)@)).0,
        env_views(final(env)@) == render_doc_seq(views(ch@), env_views(old(env)@)).1,
    decreases ch,
{
    let ghost bs = views(ch@);
    let ghost e0 = env_views(env@);
    let mut out: Vec<char> = Vec::new();
    let mut k: usize = 0;
    proof {
        assert(bs.subrange(0, bs.len() as int) =~= bs);
    }
    while k < ch.len()
        invariant
            k <= ch@.len(),
            bs == views(ch@),
            e0 == env_views(old(env)@),
            forall|q: int| 0 <= q < ch@.len() ==> (#[trigger] ch@[q])@.wf(),
            out@ + render_doc_seq(bs.subrange(k as int, bs.len() as int), env_views(env@)).0
                == render_doc_seq(bs, e0).0,
            render_doc_seq(bs.subrange(k as int, bs.len() as int), env_views(env@)).1
                == render_doc_seq(bs, e0).1,
        decreases ch@.len() - k,
    {
        let ghost o0 = out@;
        proof {
            assert(decreases_to!(ch => ch@));
            assert(decreases_to!(ch@ => ch@[k as int]));
            assert(bs.subrange(k as int, bs.len() as int)[0] == bs[k as int]);
            assert(bs.subrange(k as int, bs.len() as int).subrange(
                1,
                bs.subrange(k as int, bs.len() as int).len() as int,
            ) =~= bs.subrange(k + 1 as int, bs.len() as int));
        }
        let h = print(&ch[k], env);
        if h.len() > 0 {
            push_all(&mut out, &h);
            out.push('\n');
            proof {
                assert(out@ =~= o0 + h@ + seq!['\n']);
                assert(h@ + seq!['\n'] + render_doc_seq(
                    bs.subrange(k + 1 as int, bs.len() as int),
                    env_views(env@),
                ).0 =~= (h@ + seq!['\n']) + render_doc_seq(
                    bs.subrange(k + 1 as int, bs.len() as int),
                    env_views(env@),
                ).0);
            }
        }
        k = k + 1;
    }
    out
}

// ------------------------------------------------------------ the entry

/// The input normalized to end with a newline.
pub open spec fn norm(s: Seq<char>) -> Seq<char> {
    if s.len() > 0 && s[s.len() - 1] == '\n' {
        s
    } else {
        s.push('\n')
    }
}

/// What the whole pipeline produces for a document: parse the
/// normalized input into a block tree, resolve inlines, render the
/// top-level blocks with a fresh label table.
pub open spec fn translate_spec(s: Seq<char>) -> Seq<char> {
    render_doc_seq(inline_node(parse_doc(norm(s))).children, Seq::empty()).0
}

/// Translates a markdown document into HTML: block parse, inline pass,
/// render. Total: defined on every input string.
pub fn top(input: &str) -> (r: String)
    ensures
        r@ == translate_spec(input@),
{
    let v = chars_of(input);
    let mut nv = v;
    if nv.len() == 0 || nv[nv.len() - 1] != '\n' {
        nv.push('\n');
    }
    proof {
        assert(nv@ == norm(input@));
    }
    let ns = string_of(&nv);
    let mut tree = crate::block_parser::top(ns.as_str());
    crate::inline_parser::top(&mut tree);
    proof {
        let pd = parse_doc(norm(input@));
        assert(tree@ == inline_node(pd));
        assert(pd.children == crate::block_parser::parse_lines(
            crate::block_parser::doc_lines(norm(input@)),
            0,
            crate::block_parser::doc_lines(norm(input@)).len() as int,
        ));
        crate::block_parser::lemma_parse_wf(
            crate::block_parser::doc_lines(norm(input@)),
            0,
            crate::block_parser::doc_lines(norm(input@)).len() as int,
        );
        assert forall|q: int| 0 <= q < pd.children.len() implies (#[trigger] pd.children[q]).wf()
            by {
        }
        crate::inline_parser::lemma_inline_wf_seq(pd.children);
        assert(tree@.children.len() == pd.children.len());
        assert forall|q: int| 0 <= q < tree.children@.len() implies (#[trigger] tree.children@[q])@.wf() by {
            assert(tree.children@[q]@ == tree@.children[q]);
            assert(tree@.children[q] == inline_node(pd.children[q]));
            assert(inline_node(pd.children[q]).wf());
        }
    }
    let mut env: Vec<(Vec<char>, Vec<char>)> = Vec::new();
    proof {
        assert(env_views(env@) =~= Seq::<(Seq<char>, Seq<char>)>::empty());
    }
    let out = print_doc(&tree.children, &mut env);
    proof {
        assert(views(tree.children@) =~= tree@.children);
    }
    string_of(&out)
}

// --------------------------------------------------------------- laws

/// A reference link resolves against the definitions rendered before
/// it in the walk: a registered label yields the stored fragment, an
/// unregistered one (in particular, one only defined later in the
/// document) yields the empty string.
pub proof fn lemma_reference_resolution(b: BlockNode, env: Seq<(Seq<char>, Seq<char>)>)
    requires
        b.typ == BlockType::ReferenceLink,
    ensures
        env_lookup(env, b.text) is Some ==> render_block(b, env).0 == env_lookup(
            env,
            b.text,
        )->Some_0,
        env_lookup(env, b.text) is None ==> render_block(b, env).0 == Seq::<char>::empty(),
        render_block(b, env).1 == env,
{
}

/// Code content is escaped exactly once: what a code block renders to
/// is the tag pair around a single application of the escape.
pub proof fn lemma_code_escaped_once(b: BlockNode, env: Seq<(Seq<char>, Seq<char>)>)
    requires
        b.typ == BlockType::IndentedCodeBlock || b.typ == BlockType::FencedCodeBlock,
    ensures
        render_block(b, env).0 == "<pre><code>"@ + escape_seq(b.text) + "</code></pre>"@,
{
}

} // verus!
