//! Line classification: the per-line decisions of the block grammar.
//!
//! Every classifier comes as a spec function over `Seq<char>` giving the
//! rule mathematically, and an executable twin proved to compute it.

use vstd::prelude::*;

verus! {

// ---------------------------------------------------------------- scans

/// First index at or after `i` whose character is not `c` (or the end).
pub open spec fn run_from(s: Seq<char>, i: int, c: char) -> int
    decreases s.len() - i when 0 <= i <= s.len()
{
    if i >= s.len() || s[i] != c {
        i
    } else {
        run_from(s, i + 1, c)
    }
}

/// First index at or after `i` whose character is not a decimal digit.
pub open spec fn digits_from(s: Seq<char>, i: int) -> int
    decreases s.len() - i when 0 <= i <= s.len()
{
    if i >= s.len() || !('0' <= s[i] <= '9') {
        i
    } else {
        digits_from(s, i + 1)
    }
}

/// First index at or after `i` holding `c`, or the length if none does.
pub open spec fn find_from(s: Seq<char>, i: int, c: char) -> int
    decreases s.len() - i when 0 <= i <= s.len()
{
    if i >= s.len() {
        i
    } else if s[i] == c {
        i
    } else {
        find_from(s, i + 1, c)
    }
}

/// Length of `s` with trailing spaces before `i` stripped.
pub open spec fn rtrim(s: Seq<char>, i: int) -> int
    decreases i when 0 <= i <= s.len()
{
    if i <= 0 || s[i - 1] != ' ' {
        i
    } else {
        rtrim(s, i - 1)
    }
}

/// How many of the first `i` characters equal `c`.
pub open spec fn count_prefix(s: Seq<char>, i: int, c: char) -> int
    decreases i when 0 <= i <= s.len()
{
    if i <= 0 {
        0
    } else {
        count_prefix(s, i - 1, c) + if s[i - 1] == c {
            1int
        } else {
            0int
        }
    }
}

pub proof fn lemma_run_from_bounds(s: Seq<char>, i: int, c: char)
    requires
        0 <= i <= s.len(),
    ensures
        i <= run_from(s, i, c) <= s.len(),
    decreases s.len() - i,
{
    if !(i >= s.len() || s[i] != c) {
        lemma_run_from_bounds(s, i + 1, c);
    }
}

pub proof fn lemma_find_from_bounds(s: Seq<char>, i: int, c: char)
    requires
        0 <= i <= s.len(),
    ensures
        i <= find_from(s, i, c) <= s.len(),
    decreases s.len() - i,
{
    if i < s.len() && s[i] != c {
        lemma_find_from_bounds(s, i + 1, c);
    }
}

pub proof fn lemma_rtrim_bounds(s: Seq<char>, i: int)
    requires
        0 <= i <= s.len(),
    ensures
        0 <= rtrim(s, i) <= i,
    decreases i,
{
    if !(i <= 0 || s[i - 1] != ' ') {
        lemma_rtrim_bounds(s, i - 1);
    }
}

/// Leading spaces of the line.
pub open spec fn indent_of(s: Seq<char>) -> int {
    run_from(s, 0, ' ')
}

/// A line of spaces only.
pub open spec fn is_blank(s: Seq<char>) -> bool {
    indent_of(s) == s.len()
}

/// The line with leading and trailing spaces stripped.
pub open spec fn trim(s: Seq<char>) -> Seq<char> {
    let a = run_from(s, 0, ' ');
    let b = rtrim(s, s.len() as int);
    if a >= b {
        Seq::empty()
    } else {
        s.subrange(a, b)
    }
}

// ----------------------------------------------------- exec scan helpers

/// End of the run of `c` starting at `i`.
pub fn scan_run(l: &Vec<char>, i: usize, c: char) -> (j: usize)
    requires
        i <= l@.len(),
    ensures
        j == run_from(l@, i as int, c),
        i <= j <= l@.len(),
{
    let mut j: usize = i;
    while j < l.len() && l[j] == c
        invariant
            i <= j <= l@.len(),
            run_from(l@, i as int, c) == run_from(l@, j as int, c),
        decreases l@.len() - j,
    {
        j = j + 1;
    }
    j
}

/// End of the run of decimal digits starting at `i`.
pub fn scan_digits(l: &Vec<char>, i: usize) -> (j: usize)
    requires
        i <= l@.len(),
    ensures
        j == digits_from(l@, i as int),
        i <= j <= l@.len(),
{
    let mut j: usize = i;
    while j < l.len() && '0' <= l[j] && l[j] <= '9'
        invariant
            i <= j <= l@.len(),
            digits_from(l@, i as int) == digits_from(l@, j as int),
        decreases l@.len() - j,
    {
        j = j + 1;
    }
    j
}

/// First position of `c` at or after `i`, or the length.
pub fn find_char(l: &Vec<char>, i: usize, c: char) -> (j: usize)
    requires
        i <= l@.len(),
    ensures
        j == find_from(l@, i as int, c),
        i <= j <= l@.len(),
{
    let mut j: usize = i;
    while j < l.len() && l[j] != c
        invariant
            i <= j <= l@.len(),
            find_from(l@, i as int, c) == find_from(l@, j as int, c),
        decreases l@.len() - j,
    {
        j = j + 1;
    }
    j
}

/// The line length with trailing spaces stripped.
pub fn rtrim_end(l: &Vec<char>) -> (j: usize)
    ensures
        j == rtrim(l@, l@.len() as int),
        j <= l@.len(),
{
    let mut j: usize = l.len();
    while j > 0 && l[j - 1] == ' '
        invariant
            j <= l@.len(),
            rtrim(l@, l@.len() as int) == rtrim(l@, j as int),
        decreases j,
    {
        j = j - 1;
    }
    j
}

/// How many characters of the line equal `c`.
pub fn count_char(l: &Vec<char>, c: char) -> (n: usize)
    ensures
        n == count_prefix(l@, l@.len() as int, c),
{
    let mut n: usize = 0;
    let mut i: usize = 0;
    while i < l.len()
        invariant
            i <= l@.len(),
            n <= i,
            n == count_prefix(l@, i as int, c),
        decreases l@.len() - i,
    {
        if l[i] == c {
            n = n + 1;
        }
        i = i + 1;
    }
    n
}

/// Whether every character of the line is `c` or a space.
pub fn all_char_or_space(l: &Vec<char>, c: char) -> (r: bool)
    ensures
        r == forall|j: int| 0 <= j < l@.len() ==> l@[j] == c || l@[j] == ' ',
{
    let mut i: usize = 0;
    while i < l.len()
        invariant
            i <= l@.len(),
            forall|j: int| 0 <= j < i ==> l@[j] == c || l@[j] == ' ',
        decreases l@.len() - i,
    {
        if !(l[i] == c || l[i] == ' ') {
            return false;
        }
        i = i + 1;
    }
    true
}

/// A copy of the characters in `[a, b)`.
pub fn subvec(l: &Vec<char>, a: usize, b: usize) -> (r: Vec<char>)
    requires
        a <= b <= l@.len(),
    ensures
        r@ == l@.subrange(a as int, b as int),
{
    let mut r: Vec<char> = Vec::new();
    let mut i: usize = a;
    while i < b
        invariant
            a <= i <= b <= l@.len(),
            r@ == l@.subrange(a as int, i as int),
        decreases b - i,
    {
        let c = l[i];
        r.push(c);
        proof {
            assert(r@ =~= l@.subrange(a as int, i + 1 as int));
        }
        i = i + 1;
    }
    r
}

/// The line with leading and trailing spaces stripped.
pub fn trim_line(l: &Vec<char>) -> (r: Vec<char>)
    ensures
        r@ == trim(l@),
{
    proof {
        lemma_run_from_bounds(l@, 0, ' ');
        lemma_rtrim_bounds(l@, l@.len() as int);
    }
    let a = scan_run(l, 0, ' ');
    let b = rtrim_end(l);
    if a >= b {
        Vec::new()
    } else {
        subvec(l, a, b)
    }
}

// ----------------------------------------------------------- classifiers

/// Blank line: spaces only (possibly none).
pub fn blank_line(l: &Vec<char>) -> (r: bool)
    ensures
        r == is_blank(l@),
{
    let j = scan_run(l, 0, ' ');
    j == l.len()
}

/// Leading indentation of the line.
pub fn indent_exec(l: &Vec<char>) -> (r: usize)
    ensures
        r == indent_of(l@),
        r <= l@.len(),
{
    scan_run(l, 0, ' ')
}

/// A thematic break drawn with `c`: at least three of `c`, nothing else
/// but spaces.
pub open spec fn tb_char(s: Seq<char>, c: char) -> bool {
    &&& count_prefix(s, s.len() as int, c) >= 3
    &&& forall|j: int| 0 <= j < s.len() ==> s[j] == c || s[j] == ' '
}

/// Thematic break: up to three columns of indent, then three or more of
/// one of `*` `-` `_`, optionally space-separated, and nothing else.
pub open spec fn is_thematic_break(s: Seq<char>) -> bool {
    indent_of(s) <= 3 && (tb_char(s, '*') || tb_char(s, '-') || tb_char(s, '_'))
}

pub fn thematic_break(l: &Vec<char>) -> (r: bool)
    ensures
        r == is_thematic_break(l@),
{
    let ind = indent_exec(l);
    if ind > 3 {
        return false;
    }
    if count_char(l, '*') >= 3 && all_char_or_space(l, '*') {
        return true;
    }
    if count_char(l, '-') >= 3 && all_char_or_space(l, '-') {
        return true;
    }
    if count_char(l, '_') >= 3 && all_char_or_space(l, '_') {
        return true;
    }
    false
}

/// ATX heading level: one to six `#` after up to three spaces, followed
/// by a space or the end of the line; anything else is level zero.
pub open spec fn atx_level(s: Seq<char>) -> int {
    let ind = indent_of(s);
    if ind > 3 {
        0
    } else {
        let h = run_from(s, ind, '#');
        let n = h - ind;
        if 1 <= n <= 6 && (h == s.len() || s[h] == ' ') {
            n
        } else {
            0
        }
    }
}

/// The heading text: everything after the `#` run, trimmed of spaces.
pub open spec fn atx_text(s: Seq<char>) -> Seq<char> {
    let h = run_from(s, indent_of(s), '#');
    trim(s.subrange(h, s.len() as int))
}

pub fn atx_level_exec(l: &Vec<char>) -> (r: usize)
    ensures
        r == atx_level(l@),
        r <= 6,
{
    let ind = indent_exec(l);
    if ind > 3 {
        return 0;
    }
    let h = scan_run(l, ind, '#');
    let n = h - ind;
    if 1 <= n && n <= 6 && (h == l.len() || l[h] == ' ') {
        n
    } else {
        0
    }
}

pub fn atx_text_exec(l: &Vec<char>) -> (r: Vec<char>)
    ensures
        r@ == atx_text(l@),
{
    let ind = indent_exec(l);
    let h = scan_run(l, ind, '#');
    let rest = subvec(l, h, l.len());
    trim_line(&rest)
}

/// Setext underline level: 1 for a line of `=`, 2 for a line of `-`
/// (trailing spaces allowed, up to three columns of indent), else 0.
pub open spec fn setext_level(s: Seq<char>) -> int {
    let ind = indent_of(s);
    let b = rtrim(s, s.len() as int);
    if ind > 3 || b <= ind {
        0
    } else if run_from(s, ind, '=') >= b {
        1
    } else if run_from(s, ind, '-') >= b {
        2
    } else {
        0
    }
}

pub fn setext_level_exec(l: &Vec<char>) -> (r: usize)
    ensures
        r == setext_level(l@),
{
    let ind = indent_exec(l);
    let b = rtrim_end(l);
    if ind > 3 || b <= ind {
        0
    } else if scan_run(l, ind, '=') >= b {
        1
    } else if scan_run(l, ind, '-') >= b {
        2
    } else {
        0
    }
}

/// A line that belongs to an indented code block: four or more leading
/// spaces and not blank.
pub open spec fn is_code_line(s: Seq<char>) -> bool {
    indent_of(s) >= 4 && !is_blank(s)
}

pub fn code_line(l: &Vec<char>) -> (r: bool)
    ensures
        r == is_code_line(l@),
{
    let j = scan_run(l, 0, ' ');
    j >= 4 && j < l.len()
}

/// The code content of an indented line: everything past four columns.
pub open spec fn code_text(s: Seq<char>) -> Seq<char> {
    s.subrange(4, s.len() as int)
}

pub fn code_text_exec(l: &Vec<char>) -> (r: Vec<char>)
    requires
        is_code_line(l@),
    ensures
        r@ == code_text(l@),
{
    proof {
        lemma_run_from_bounds(l@, 0, ' ');
    }
    subvec(l, 4, l.len())
}

/// An opening code fence: up to three spaces, then a run of three or
/// more backticks or tildes; yields the fence character and length.
pub open spec fn fence_open(s: Seq<char>) -> Option<(char, int)> {
    let ind = indent_of(s);
    if ind <= 3 && ind < s.len() && (s[ind] == '`' || s[ind] == '~') {
        let e = run_from(s, ind, s[ind]);
        if e - ind >= 3 {
            Some((s[ind], e - ind))
        } else {
            None
        }
    } else {
        None
    }
}

pub fn fence_open_exec(l: &Vec<char>) -> (r: Option<(char, usize)>)
    ensures
        match r {
            Some((c, n)) => fence_open(l@) == Some((c, n as int)),
            None => fence_open(l@) is None,
        },
{
    let ind = indent_exec(l);
    if ind <= 3 && ind < l.len() && (l[ind] == '`' || l[ind] == '~') {
        let e = scan_run(l, ind, l[ind]);
        if e - ind >= 3 {
            Some((l[ind], e - ind))
        } else {
            None
        }
    } else {
        None
    }
}

/// A closing fence for a block opened with `n` of `c`: a run of at
/// least `n` of `c`, alone on its line (up to three spaces of indent,
/// trailing spaces allowed).
pub open spec fn fence_close(s: Seq<char>, c: char, n: int) -> bool {
    let ind = indent_of(s);
    let e = run_from(s, ind, c);
    ind <= 3 && e - ind >= n && rtrim(s, s.len() as int) <= e
}

pub fn fence_close_exec(l: &Vec<char>, c: char, n: usize) -> (r: bool)
    ensures
        r == fence_close(l@, c, n as int),
{
    let ind = indent_exec(l);
    let e = scan_run(l, ind, c);
    let b = rtrim_end(l);
    ind <= 3 && e - ind >= n && b <= e
}

/// A block-quote marker line: `>` after up to three spaces.
pub open spec fn is_quote_line(s: Seq<char>) -> bool {
    let ind = indent_of(s);
    ind <= 3 && ind < s.len() && s[ind] == '>'
}

pub fn quote_line(l: &Vec<char>) -> (r: bool)
    ensures
        r == is_quote_line(l@),
{
    let ind = indent_exec(l);
    ind <= 3 && ind < l.len() && l[ind] == '>'
}

/// What a line contributes inside a block quote: the text after the
/// `>` marker and one optional space, or the whole line when it is a
/// lazy continuation without a marker.
pub open spec fn quote_content(s: Seq<char>) -> Seq<char> {
    if is_quote_line(s) {
        let p = indent_of(s) + 1;
        let q = if p < s.len() && s[p] == ' ' {
            p + 1
        } else {
            p
        };
        s.subrange(q, s.len() as int)
    } else {
        s
    }
}

pub fn quote_content_exec(l: &Vec<char>) -> (r: Vec<char>)
    ensures
        r@ == quote_content(l@),
{
    if quote_line(l) {
        proof {
            lemma_run_from_bounds(l@, 0, ' ');
        }
        let p = indent_exec(l) + 1;
        let q = if p < l.len() && l[p] == ' ' {
            p + 1
        } else {
            p
        };
        subvec(l, q, l.len())
    } else {
        let mut r: Vec<char> = Vec::new();
        let whole = subvec(l, 0, l.len());
        proof {
            assert(l@.subrange(0, l@.len() as int) =~= l@);
        }
        whole
    }
}

/// A list-item marker: a bullet (`-` `+` `*`) or an ordinal (digits
/// then `.` or `)`), after up to three spaces, followed by a space or
/// the end of the line. Yields whether the item is ordered, and the
/// content column (marker width plus following spaces, capped at four
/// extra spaces).
pub open spec fn list_marker(s: Seq<char>) -> Option<(bool, int)> {
    let ind = indent_of(s);
    if ind > 3 || ind >= s.len() {
        None
    } else if (s[ind] == '-' || s[ind] == '+' || s[ind] == '*') && (ind + 1 == s.len() || s[ind
        + 1] == ' ') {
        Some((false, list_col(s, ind + 1)))
    } else {
        let d = digits_from(s, ind);
        if d > ind && d < s.len() && (s[d] == '.' || s[d] == ')') && (d + 1 == s.len() || s[d
            + 1] == ' ') {
            Some((true, list_col(s, d + 1)))
        } else {
            None
        }
    }
}

/// The content column for a marker ending at `m`.
pub open spec fn list_col(s: Seq<char>, m: int) -> int {
    let sp = run_from(s, m, ' ');
    if m < sp < s.len() && sp - m <= 4 {
        sp
    } else if m < s.len() {
        m + 1
    } else {
        s.len() as int
    }
}

pub fn list_marker_exec(l: &Vec<char>) -> (r: Option<(bool, usize)>)
    ensures
        match r {
            Some((o, w)) => list_marker(l@) == Some((o, w as int)) && w <= l@.len(),
            None => list_marker(l@) is None,
        },
{
    let ind = indent_exec(l);
    if ind > 3 || ind >= l.len() {
        return None;
    }
    if (l[ind] == '-' || l[ind] == '+' || l[ind] == '*') && (ind + 1 == l.len() || l[ind + 1]
        == ' ') {
        let w = list_col_exec(l, ind + 1);
        return Some((false, w));
    }
    let d = scan_digits(l, ind);
    if d > ind && d < l.len() && (l[d] == '.' || l[d] == ')') && (d + 1 == l.len() || l[d + 1]
        == ' ') {
        let w = list_col_exec(l, d + 1);
        return Some((true, w));
    }
    None
}

pub fn list_col_exec(l: &Vec<char>, m: usize) -> (w: usize)
    requires
        m <= l@.len(),
    ensures
        w == list_col(l@, m as int),
        w <= l@.len(),
{
    let sp = scan_run(l, m, ' ');
    if m < sp && sp < l.len() && sp - m <= 4 {
        sp
    } else if m < l.len() {
        m + 1
    } else {
        l.len()
    }
}

/// The text a line contributes to a list item with content column `w`:
/// the line with its first `w` columns removed (all of it when the line
/// is shorter, as a blank line inside the item is).
pub open spec fn item_text(s: Seq<char>, w: int) -> Seq<char> {
    if w <= s.len() {
        s.subrange(w, s.len() as int)
    } else {
        Seq::empty()
    }
}

pub fn item_text_exec(l: &Vec<char>, w: usize) -> (r: Vec<char>)
    ensures
        r@ == item_text(l@, w as int),
{
    if w <= l.len() {
        subvec(l, w, l.len())
    } else {
        proof {
            assert(item_text(l@, w as int) =~= Seq::<char>::empty());
        }
        Vec::new()
    }
}

/// A link-reference definition: `[label]:` after up to three spaces,
/// then a non-empty destination on the same line. Yields label and
/// trimmed destination.
pub open spec fn link_def(s: Seq<char>) -> Option<(Seq<char>, Seq<char>)> {
    let ind = indent_of(s);
    if ind <= 3 && ind < s.len() && s[ind] == '[' {
        let k = find_from(s, ind + 1, ']');
        if k > ind + 1 && k + 1 < s.len() && s[k + 1] == ':' && trim(
            s.subrange(k + 2, s.len() as int),
        ).len() > 0 {
            Some((s.subrange(ind + 1, k), trim(s.subrange(k + 2, s.len() as int))))
        } else {
            None
        }
    } else {
        None
    }
}

pub fn link_def_exec(l: &Vec<char>) -> (r: Option<(Vec<char>, Vec<char>)>)
    ensures
        match r {
            Some((lab, dest)) => link_def(l@) == Some((lab@, dest@)),
            None => link_def(l@) is None,
        },
{
    let ind = indent_exec(l);
    if ind <= 3 && ind < l.len() && l[ind] == '[' {
        let k = find_char(l, ind + 1, ']');
        if k > ind + 1 && k < l.len() && k + 1 < l.len() && l[k + 1] == ':' {
            let rest = subvec(l, k + 2, l.len());
            let dest = trim_line(&rest);
            if dest.len() > 0 {
                let lab = subvec(l, ind + 1, k);
                return Some((lab, dest));
            }
        }
        None
    } else {
        None
    }
}

/// A reference-link line: exactly `[label]` (up to three spaces of
/// indent, trailing spaces allowed) with a non-empty label.
pub open spec fn ref_link(s: Seq<char>) -> Option<Seq<char>> {
    let ind = indent_of(s);
    if ind <= 3 && ind < s.len() && s[ind] == '[' {
        let k = find_from(s, ind + 1, ']');
        if k > ind + 1 && k < s.len() && k == rtrim(s, s.len() as int) - 1 {
            Some(s.subrange(ind + 1, k))
        } else {
            None
        }
    } else {
        None
    }
}

pub fn ref_link_exec(l: &Vec<char>) -> (r: Option<Vec<char>>)
    ensures
        match r {
            Some(lab) => ref_link(l@) == Some(lab@),
            None => ref_link(l@) is None,
        },
{
    let ind = indent_exec(l);
    if ind <= 3 && ind < l.len() && l[ind] == '[' {
        let k = find_char(l, ind + 1, ']');
        let b = rtrim_end(l);
        if k > ind + 1 && k < l.len() && b >= 1 && k == b - 1 {
            Some(subvec(l, ind + 1, k))
        } else {
            None
        }
    } else {
        None
    }
}

/// Whether a line extends an open paragraph: not blank and not the
/// start of any construct that may interrupt a paragraph. Indented
/// lines do extend it (an indented code block never interrupts an open
/// paragraph), and a setext underline ends it as a heading instead.
pub open spec fn continues_para(s: Seq<char>) -> bool {
    &&& !is_blank(s)
    &&& setext_level(s) == 0
    &&& !is_thematic_break(s)
    &&& atx_level(s) == 0
    &&& fence_open(s) is None
    &&& !is_quote_line(s)
    &&& list_marker(s) is None
}

pub fn continues_para_exec(l: &Vec<char>) -> (r: bool)
    ensures
        r == continues_para(l@),
{
    !blank_line(l) && setext_level_exec(l) == 0 && !thematic_break(l) && atx_level_exec(l) == 0
        && fence_open_exec(l).is_none() && !quote_line(l) && list_marker_exec(l).is_none()
}

/// What a line contributes to a paragraph: the line with every leading
/// space stripped.
pub open spec fn para_text(s: Seq<char>) -> Seq<char> {
    s.subrange(indent_of(s), s.len() as int)
}

pub fn para_text_exec(l: &Vec<char>) -> (r: Vec<char>)
    ensures
        r@ == para_text(l@),
{
    let ind = indent_exec(l);
    subvec(l, ind, l.len())
}

} // verus!
