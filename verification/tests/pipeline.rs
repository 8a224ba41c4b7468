use translator::exec;

// Code content is escaped, and escaped exactly once.
#[test]
fn code_block_escapes_once() {
    assert_eq!(exec("    a<b&c\n"), "<pre><code>a&lt;b&amp;c\n</code></pre>\n");
}

#[test]
fn fenced_code_escapes_once() {
    assert_eq!(exec("```\na<b\n```\n"), "<pre><code>a&lt;b\n</code></pre>\n");
}

// Paragraph text is not escaped and inline delimiters stay literal when
// unmatched.
#[test]
fn unmatched_emphasis_stays_literal() {
    assert_eq!(exec("a * b\n"), "<p>a * b</p>\n");
}

#[test]
fn emphasis_single() {
    assert_eq!(exec("*hi*\n"), "<p><em>hi</em></p>\n");
}

#[test]
fn emphasis_strong() {
    assert_eq!(exec("**hi**\n"), "<p><strong>hi</strong></p>\n");
}

#[test]
fn emphasis_nested() {
    assert_eq!(exec("**a *b* c**\n"), "<p><strong>a <em>b</em> c</strong></p>\n");
}

#[test]
fn underscore_intraword_stays_literal() {
    assert_eq!(exec("a_b_c\n"), "<p>a_b_c</p>\n");
}

#[test]
fn code_span() {
    assert_eq!(exec("a `b` c\n"), "<p>a <code>b</code> c</p>\n");
}

#[test]
fn code_span_unclosed_stays_literal() {
    assert_eq!(exec("a `b\n"), "<p>a `b</p>\n");
}

#[test]
fn backslash_escape() {
    assert_eq!(exec("\\*hi\\*\n"), "<p>*hi*</p>\n");
}

#[test]
fn hard_break_backslash() {
    assert_eq!(exec("a\\\nb\n"), "<p>a<br />\nb</p>\n");
}

#[test]
fn hard_break_spaces() {
    assert_eq!(exec("a   \nb\n"), "<p>a<br />\nb</p>\n");
}

#[test]
fn inline_link() {
    assert_eq!(exec("[t](u)\n"), "<p><a href=\"u\">t</a></p>\n");
}

#[test]
fn heading_with_emphasis() {
    assert_eq!(exec("# *foo*\n"), "<h1><em>foo</em></h1>\n");
}

#[test]
fn block_quote() {
    assert_eq!(exec("> hi\n"), "<blockquote><p>hi</p></blockquote>\n");
}

#[test]
fn block_quote_lazy_continuation() {
    assert_eq!(exec("> a\nb\n"), "<blockquote><p>a\nb</p></blockquote>\n");
}

#[test]
fn bullet_item_tight() {
    assert_eq!(exec("- foo\n"), "<ul><li>foo</li></ul>\n");
}

#[test]
fn bullet_item_loose() {
    assert_eq!(exec("- a\n\n\n  b\n"), "<ul><li><p>a</p><p>b</p></li></ul>\n");
}

#[test]
fn ordered_item() {
    assert_eq!(exec("1. foo\n"), "<ol><li><p>foo</p></li></ol>\n");
}

#[test]
fn spaced_thematic_break() {
    assert_eq!(exec("- - -\n"), "<hr />\n");
}

// A definition seen before its use resolves; one seen after does not.
#[test]
fn reference_link_after_definition() {
    assert_eq!(exec("[foo]: /url\n[foo]\n"), "<p>/url</p>\n");
}

#[test]
fn reference_link_before_definition_is_empty() {
    assert_eq!(exec("[foo]\n\n[foo]: /url\n"), "");
}

#[test]
fn latest_definition_wins() {
    assert_eq!(exec("[a]: one\n[a]: two\n[a]\n"), "<p>two</p>\n");
}

// Totality: odd inputs still produce an output.
#[test]
fn empty_input() {
    assert_eq!(exec(""), "");
}

#[test]
fn input_without_trailing_newline_is_normalized() {
    assert_eq!(exec("# x"), "<h1>x</h1>\n");
}

#[test]
fn unclosed_fence_runs_to_the_end() {
    assert_eq!(exec("```\nabc\n"), "<pre><code>abc\n</code></pre>\n");
}

// An indented code line does not interrupt an open paragraph.
#[test]
fn indented_code_does_not_interrupt_paragraph() {
    assert_eq!(exec("Foo\n    ***\n"), "<p>Foo\n***</p>\n");
}

// A block quote does interrupt an open paragraph.
#[test]
fn block_quote_interrupts_paragraph() {
    assert_eq!(
        exec("Foo\n> bar\n"),
        "<p>Foo</p>\n<blockquote><p>bar</p></blockquote>\n"
    );
}
