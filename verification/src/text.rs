//! Character-level text utilities: conversions between `String` and
//! `Vec<char>`, and HTML escaping of code content.

use vstd::prelude::*;

verus! {

/// Relies on `str::chars`: yields exactly the characters of the string,
/// in order.
#[verifier::external_body]
pub fn chars_of(s: &str) -> (v: Vec<char>)
    ensures
        v@ == s@,
{
    s.chars().collect()
}

/// Relies on `String: FromIterator<char>`: collecting characters builds
/// the string of exactly those characters, in order.
#[verifier::external_body]
pub fn string_of(v: &Vec<char>) -> (s: String)
    ensures
        s@ == v@,
{
    v.iter().collect()
}

/// Appends every character of `src` to `dst`.
pub fn push_all(dst: &mut Vec<char>, src: &Vec<char>)
    ensures
        final(dst)@ == old(dst)@ + src@,
{
    let mut t: usize = 0;
    proof {
        assert(dst@ =~= dst@ + src@.subrange(0, 0));
    }
    while t < src.len()
        invariant
            t <= src@.len(),
            dst@ == old(dst)@ + src@.subrange(0, t as int),
        decreases src@.len() - t,
    {
        dst.push(src[t]);
        proof {
            assert(old(dst)@ + src@.subrange(0, t + 1 as int) =~= (old(dst)@ + src@.subrange(
                0,
                t as int,
            )).push(src@[t as int]));
        }
        t = t + 1;
    }
    proof {
        assert(src@.subrange(0, src@.len() as int) =~= src@);
    }
}

/// A copy of a character vector.
pub fn copy_chars(l: &Vec<char>) -> (r: Vec<char>)
    ensures
        r@ == l@,
{
    let r = crate::line::subvec(l, 0, l.len());
    proof {
        assert(l@.subrange(0, l@.len() as int) =~= l@);
    }
    r
}

/// What one character escapes to: `"` `&` `'` `<` `>` become entities,
/// every other character stands unchanged.
pub open spec fn escape_char(c: char) -> Seq<char> {
    if c == '"' {
        seq!['&', 'q', 'u', 'o', 't', ';']
    } else if c == '&' {
        seq!['&', 'a', 'm', 'p', ';']
    } else if c == '\'' {
        seq!['&', '#', 'x', '2', '7', ';']
    } else if c == '<' {
        seq!['&', 'l', 't', ';']
    } else if c == '>' {
        seq!['&', 'g', 't', ';']
    } else {
        seq![c]
    }
}

/// The HTML-escaped form of a text: each character replaced by its
/// escaped form, concatenated in order.
pub open spec fn escape_seq(s: Seq<char>) -> Seq<char>
    decreases s.len(),
{
    if s.len() == 0 {
        Seq::empty()
    } else {
        escape_char(s[0]) + escape_seq(s.skip(1))
    }
}

/// Relies on `htmlescape::encode_minimal`: replaces exactly `"` `&` `'`
/// `<` `>` by `&quot;` `&amp;` `&#x27;` `&lt;` `&gt;` and leaves every
/// other character unchanged.
#[verifier::external_body]
pub fn escape_html(v: &Vec<char>) -> (r: Vec<char>)
    ensures
        r@ == escape_seq(v@),
{
    let s: String = v.iter().collect();
    htmlescape::encode_minimal(&s).chars().collect()
}

/// Escaping is not idempotent: a second pass over an already escaped
/// text changes it again, so code content must be escaped exactly once.
pub proof fn lemma_escape_not_idempotent()
    ensures
        exists|s: Seq<char>| escape_seq(escape_seq(s)) != escape_seq(s),
{
    let s = seq!['<'];
    reveal_with_fuel(escape_seq, 3);
    assert(escape_seq(s) =~= seq!['&', 'l', 't', ';']);
    assert(escape_seq(escape_seq(s)).len() > 4) by {
        assert(escape_seq(seq!['&', 'l', 't', ';']).len() >= escape_char('&').len());
    }
    assert(escape_seq(escape_seq(s)) != escape_seq(s));
}

} // verus!
