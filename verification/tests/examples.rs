use translator::exec;

#[test]
fn test_example_13() {
    let html_code = exec("***\n---\n___\n");
    assert_eq!(html_code, "<hr />\n<hr />\n<hr />\n");
}

#[test]
fn test_example_14() {
    let html_code = exec("+++\n");
    assert_eq!(html_code, "<p>+++</p>\n");
}

#[test]
fn test_example_15() {
    let html_code = exec("===\n");
    assert_eq!(html_code, "<p>===</p>\n");
}

#[test]
fn test_example_16() {
    let html_code = exec("--\n**\n__\n");
    assert_eq!(html_code, "<p>--\n**\n__</p>\n");
}

#[test]
fn test_example_17() {
    let html_code = exec(" ***\n  ***\n   ***\n");
    assert_eq!(html_code, "<hr />\n<hr />\n<hr />\n");
}

#[test]
fn test_example_18() {
    let html_code = exec("    ***\n");
    assert_eq!(html_code, "<pre><code>***\n</code></pre>\n");
}

#[test]
fn test_example_32() {
    let html_code = exec("# foo\n## foo\n### foo\n#### foo\n##### foo\n###### foo\n");
    assert_eq!(
        html_code,
        "<h1>foo</h1>\n<h2>foo</h2>\n<h3>foo</h3>\n<h4>foo</h4>\n<h5>foo</h5>\n<h6>foo</h6>\n"
    );
}

#[test]
fn test_example_33() {
    let html_code = exec("####### foo\n");
    assert_eq!(html_code, "<p>####### foo</p>\n");
}

#[test]
fn test_example_34() {
    let html_code = exec("#5 bolt\n\n#hashtag\n");
    assert_eq!(html_code, "<p>#5 bolt</p>\n<p>#hashtag</p>\n");
}

#[test]
fn test_example_37() {
    let html_code = exec("#                  foo\n");
    assert_eq!(html_code, "<h1>foo</h1>\n");
}

#[test]
fn test_example_38() {
    let html_code = exec(" ### foo\n  ## foo\n   # foo\n");
    assert_eq!(html_code, "<h3>foo</h3>\n<h2>foo</h2>\n<h1>foo</h1>\n");
}

#[test]
fn test_example_52() {
    let html_code = exec("Foo\n-------------------------\n\nFoo\n=\n");
    assert_eq!(html_code, "<h2>Foo</h2>\n<h1>Foo</h1>\n");
}

#[test]
fn test_example_76() {
    let html_code = exec("    a simple\n      indented code block\n");
    assert_eq!(
        html_code,
        "<pre><code>a simple\n  indented code block\n</code></pre>\n"
    );
}

#[test]
fn test_example_182() {
    let html_code = exec("aaa\n\nbbb");
    assert_eq!(html_code, "<p>aaa</p>\n<p>bbb</p>\n");
}

#[test]
fn test_example_183() {
    let html_code = exec("aaa\nbbb\n\nccc\nddd\n");
    assert_eq!(html_code, "<p>aaa\nbbb</p>\n<p>ccc\nddd</p>\n");
}

#[test]
fn test_example_184() {
    let html_code = exec("aaa\n\n\nbbb\n");
    assert_eq!(html_code, "<p>aaa</p>\n<p>bbb</p>\n");
}

#[test]
fn test_example_185() {
    let html_code = exec("  aaa\n bbb\n");
    assert_eq!(html_code, "<p>aaa\nbbb</p>\n");
}

#[test]
fn test_example_186() {
    let html_code = exec("aaa\n             bbb\n                                       ccc\n");
    assert_eq!(html_code, "<p>aaa\nbbb\nccc</p>\n");
}

#[test]
fn test_example_187() {
    let html_code = exec("   aaa\nbbb\n");
    assert_eq!(html_code, "<p>aaa\nbbb</p>\n");
}
