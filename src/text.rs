//! Character-level rules: whitespace, trimming, line classes and header fields.
use vstd::prelude::*;

verus! {

/// The Unicode `White_Space` property, which `char::is_whitespace` and
/// `str::trim` go by.
pub open spec fn is_space(c: char) -> bool {
    let u = c as u32;
    (9 <= u <= 13) || u == 32 || u == 0x85 || u == 0xa0 || u == 0x1680 || (0x2000 <= u
        <= 0x200a) || u == 0x2028 || u == 0x2029 || u == 0x202f || u == 0x205f || u == 0x3000
}

pub fn is_space_char(c: char) -> (r: bool)
    ensures
        r == is_space(c),
{
    let u = c as u32;
    (9 <= u && u <= 13) || u == 32 || u == 0x85 || u == 0xa0 || u == 0x1680 || (0x2000 <= u && u
        <= 0x200a) || u == 0x2028 || u == 0x2029 || u == 0x202f || u == 0x205f || u == 0x3000
}

/// The characters of `s`, in order.
pub fn chars_of(s: &str) -> (r: Vec<char>)
    ensures
        r@ == s@,
{
    let mut r: Vec<char> = Vec::new();
    for c in it: s.chars()
        invariant
            r@ == it.seq().take(it.index() as int),
    {
        r.push(c);
    }
    r
}

/// `s` without its leading whitespace.
pub open spec fn trim_start(s: Seq<char>) -> Seq<char>
    decreases s.len(),
{
    if s.len() > 0 && is_space(s[0]) {
        trim_start(s.drop_first())
    } else {
        s
    }
}

/// `s` without its trailing whitespace.
pub open spec fn trim_end(s: Seq<char>) -> Seq<char>
    decreases s.len(),
{
    if s.len() > 0 && is_space(s.last()) {
        trim_end(s.drop_last())
    } else {
        s
    }
}

/// `s` without leading and trailing whitespace.
pub open spec fn trim(s: Seq<char>) -> Seq<char> {
    trim_end(trim_start(s))
}

/// The bounds `(a, b)` of the trimmed part of `s`: `trim(s@) == s@[a..b]`.
pub fn trim_bounds(s: &Vec<char>) -> (r: (usize, usize))
    ensures
        r.0 <= r.1 <= s.len(),
        trim(s@) == s@.subrange(r.0 as int, r.1 as int),
        trim_start(s@) == s@.subrange(r.0 as int, s.len() as int),
{
    let n = s.len();
    let mut a: usize = 0;
    assert(s@.subrange(0, n as int) =~= s@);
    while a < n && is_space_char(s[a])
        invariant
            a <= n == s.len(),
            trim_start(s@) == trim_start(s@.subrange(a as int, n as int)),
        decreases n - a,
    {
        assert(s@.subrange(a as int, n as int).drop_first() =~= s@.subrange(a + 1, n as int));
        a = a + 1;
    }
    let mut b: usize = n;
    while b > a && is_space_char(s[b - 1])
        invariant
            a <= b <= n == s.len(),
            trim(s@) == trim_end(s@.subrange(a as int, b as int)),
            trim_start(s@) == s@.subrange(a as int, n as int),
        decreases b,
    {
        assert(s@.subrange(a as int, b as int).drop_last() =~= s@.subrange(a as int, b - 1));
        b = b - 1;
    }
    (a, b)
}

/// The three classes of an input line.
#[derive(Debug, Clone, Copy, PartialEq, Eq, Structural)]
pub enum LineKind {
    /// A comment (`;` first) or a line that holds only whitespace.
    Skip,
    /// A header line (`>` first): it opens a record.
    Header,
    /// Sequence data.
    Residues,
}

/// The class of a line, read off its first character after trimming.
pub open spec fn kind_of(t: Seq<char>) -> LineKind {
    if t.len() == 0 || t[0] == ';' {
        LineKind::Skip
    } else if t[0] == '>' {
        LineKind::Header
    } else {
        LineKind::Residues
    }
}

/// The class of the line `s@[a..b]`, already trimmed.
pub fn classify(s: &Vec<char>, a: usize, b: usize) -> (r: LineKind)
    requires
        a <= b <= s.len(),
    ensures
        r == kind_of(s@.subrange(a as int, b as int)),
{
    if a == b || s[a] == ';' {
        LineKind::Skip
    } else if s[a] == '>' {
        LineKind::Header
    } else {
        LineKind::Residues
    }
}

/// A header line without its leading `>`, if it has one.
pub open spec fn strip_marker(h: Seq<char>) -> Seq<char> {
    if h.len() > 0 && h[0] == '>' {
        h.drop_first()
    } else {
        h
    }
}

/// The length of the run of non-whitespace characters that `h` starts with.
pub open spec fn word_len(h: Seq<char>) -> nat
    decreases h.len(),
{
    if h.len() == 0 || is_space(h[0]) {
        0
    } else {
        1 + word_len(h.drop_first())
    }
}

/// The identifier of a header line: what follows the marker, up to the first
/// whitespace.
pub open spec fn header_id(h: Seq<char>) -> Seq<char> {
    let g = strip_marker(h);
    g.take(word_len(g) as int)
}

/// The description of a header line: what follows the first whitespace run
/// after the identifier.
pub open spec fn header_description(h: Seq<char>) -> Seq<char> {
    let g = strip_marker(h);
    trim_start(g.skip(word_len(g) as int))
}

} // verus!
