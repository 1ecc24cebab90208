//! Byte-level views of source text.
//!
//! Every structural character of the markup (`\`, `%`, `{`, `}`, `[`, `]`,
//! `=`, `,`, white space and the ASCII letters of names) is a single ASCII
//! byte, and in UTF-8 an ASCII byte never occurs inside the encoding of
//! another character. The parser therefore scans the UTF-8 bytes of the text
//! and every offset it produces is a byte offset.
use vstd::prelude::*;
use vstd::utf8::*;
use vstd::string::StringSliceAdditionalSpecFns;

verus! {

broadcast use vstd::utf8::encode_utf8_valid_utf8, vstd::utf8::is_char_boundary_start_end_of_seq;

/// The UTF-8 bytes of a character sequence.
pub open spec fn utf8(s: Seq<char>) -> Seq<u8> {
    encode_utf8(s)
}

pub open spec fn is_letter(b: u8) -> bool {
    (0x41 <= b && b <= 0x5a) || (0x61 <= b && b <= 0x7a)
}

/// Space, tab, newline or carriage return.
pub open spec fn is_space(b: u8) -> bool {
    b == 0x20 || b == 0x09 || b == 0x0a || b == 0x0d
}

/// Characters that end a run of plain text: `\`, `%`, `{`, `}`.
pub open spec fn is_markup(b: u8) -> bool {
    b == 0x5c || b == 0x25 || b == 0x7b || b == 0x7d
}

/// The byte classes that the scanners run over.
#[derive(Clone, Copy)]
pub enum Class {
    /// ASCII letters: the bytes of a command name.
    Letter,
    /// Space, tab and newline: the white space between tokens.
    Blank,
    /// Bytes of a text token: all but braces, brackets, `\`, `%` and blanks.
    Word,
    /// All but a newline: the bytes of a comment.
    InLine,
    /// All but `]`: the bytes of an option group.
    InBracket,
    /// All but `\`, `%`, `{`, `}`: the bytes of a text node.
    Plain,
    /// Plain bytes other than a newline: a line-ending argument.
    PlainInLine,
    /// ASCII decimal digits.
    Digit,
    /// ASCII white space: space, tab, line feed, vertical tab, form feed,
    /// carriage return.
    Space,
}

pub open spec fn is_blank(b: u8) -> bool {
    b == 0x20 || b == 0x09 || b == 0x0a
}

pub open spec fn in_class(c: Class, b: u8) -> bool {
    match c {
        Class::Letter => is_letter(b),
        Class::Blank => is_blank(b),
        Class::Word => !(is_blank(b) || is_markup(b) || b == 0x5b || b == 0x5d),
        Class::InLine => b != 0x0a,
        Class::InBracket => b != 0x5d,
        Class::Plain => !is_markup(b),
        Class::PlainInLine => !is_markup(b) && b != 0x0a,
        Class::Digit => 0x30 <= b && b <= 0x39,
        Class::Space => b == 0x20 || (0x09 <= b && b <= 0x0d),
    }
}

/// The end of the longest run of bytes of class `c` that starts at `i`.
pub open spec fn run_end(s: Seq<u8>, i: int, c: Class) -> int
    decreases s.len() - i,
{
    if i < 0 || i >= s.len() || !in_class(c, s[i]) {
        i
    } else {
        run_end(s, i + 1, c)
    }
}

pub proof fn lemma_run_end(s: Seq<u8>, i: int, c: Class)
    requires
        0 <= i <= s.len(),
    ensures
        i <= run_end(s, i, c) <= s.len(),
        forall|j: int| i <= j < run_end(s, i, c) ==> in_class(c, #[trigger] s[j]),
        run_end(s, i, c) == s.len() || !in_class(c, s[run_end(s, i, c)]),
    decreases s.len() - i,
{
    if i < s.len() && in_class(c, s[i]) {
        lemma_run_end(s, i + 1, c);
    }
}

pub fn class_has(c: Class, b: u8) -> (r: bool)
    ensures
        r == in_class(c, b),
{
    match c {
        Class::Letter => letter(b),
        Class::Blank => b == 0x20 || b == 0x09 || b == 0x0a,
        Class::Word => !(b == 0x20 || b == 0x09 || b == 0x0a || markup(b) || b == 0x5b || b == 0x5d),
        Class::InLine => b != 0x0a,
        Class::InBracket => b != 0x5d,
        Class::Plain => !markup(b),
        Class::PlainInLine => !markup(b) && b != 0x0a,
        Class::Digit => 0x30 <= b && b <= 0x39,
        Class::Space => b == 0x20 || (0x09 <= b && b <= 0x0d),
    }
}

/// Scans the longest run of bytes of class `c` from `i` and returns its end.
pub fn scan(s: &[u8], i: usize, c: Class) -> (r: usize)
    requires
        i <= s@.len(),
    ensures
        r == run_end(s@, i as int, c),
        i <= r <= s@.len(),
{
    let mut j = i;
    while j < s.len() && class_has(c, s[j])
        invariant
            i <= j <= s@.len(),
            run_end(s@, i as int, c) == run_end(s@, j as int, c),
        decreases s@.len() - j,
    {
        j = j + 1;
    }
    proof {
        lemma_run_end(s@, i as int, c);
    }
    j
}

/// Whether `w` occurs in `s` at `i`.
pub open spec fn has_at(s: Seq<u8>, i: int, w: Seq<u8>) -> bool {
    0 <= i && i + w.len() <= s.len() && s.subrange(i, i + w.len()) == w
}

pub fn bytes_at(s: &[u8], i: usize, w: &[u8]) -> (r: bool)
    ensures
        r == has_at(s@, i as int, w@),
{
    if i > s.len() || w.len() > s.len() - i {
        return false;
    }
    let n = s.len();
    let mut k: usize = 0;
    while k < w.len()
        invariant
            n == s@.len(),
            i + w@.len() <= s@.len(),
            0 <= k <= w@.len(),
            forall|j: int| 0 <= j < k ==> s@[i + j] == w@[j],
        decreases w@.len() - k,
    {
        if s[i + k] != w[k] {
            assert(s@.subrange(i as int, i + w@.len())[k as int] != w@[k as int]);
            return false;
        }
        k = k + 1;
    }
    assert(s@.subrange(i as int, i + w@.len()) =~= w@);
    true
}

/// A position where a slice of `s` may begin or end: either end of `s`, or
/// a position next to an ASCII byte.
pub open spec fn is_cut(s: Seq<u8>, i: int) -> bool {
    i == 0 || i == s.len() || (0 < i < s.len() && (s[i] < 0x80 || s[i - 1] < 0x80))
}

pub fn letter(b: u8) -> (r: bool)
    ensures
        r == is_letter(b),
{
    (0x41 <= b && b <= 0x5a) || (0x61 <= b && b <= 0x7a)
}

pub fn space(b: u8) -> (r: bool)
    ensures
        r == is_space(b),
{
    b == 0x20 || b == 0x09 || b == 0x0a || b == 0x0d
}

pub fn markup(b: u8) -> (r: bool)
    ensures
        r == is_markup(b),
{
    b == 0x5c || b == 0x25 || b == 0x7b || b == 0x7d
}

/// In valid UTF-8, a cut position is a character boundary.
pub proof fn lemma_cut_is_boundary(s: Seq<u8>, i: int)
    requires
        valid_utf8(s),
        is_cut(s, i),
    ensures
        is_char_boundary(s, i),
{
    if 0 < i < s.len() {
        if s[i] >= 0x80 {
            // The byte before is ASCII: it is a character of its own, and
            // the byte at `i` starts the next one.
            is_char_boundary_iff_not_is_continuation_byte(s, i - 1);
            valid_utf8_split(s, i - 1);
            let t = s.subrange(i - 1, s.len() as int);
            assert(t[0] == s[i - 1]);
            assert(length_of_first_scalar(t) == 1);
            reveal_with_fuel(is_char_boundary, 2);
            assert(is_char_boundary(t, 1));
            is_char_boundary_iff_not_is_continuation_byte(t, 1);
            assert(t[1] == s[i]);
        }
        is_char_boundary_iff_not_is_continuation_byte(s, i);
    }
}

/// The text `text` holds between byte offsets `a` and `b`, both cut positions.
pub fn slice_str(text: &str, a: usize, b: usize) -> (r: String)
    requires
        a <= b <= text.spec_bytes().len(),
        is_cut(text.spec_bytes(), a as int),
        is_cut(text.spec_bytes(), b as int),
    ensures
        utf8(r@) == text.spec_bytes().subrange(a as int, b as int),
{
    let ghost s = text.spec_bytes();
    if a == b {
        let r = String::new();
        assert(utf8(r@) =~= s.subrange(a as int, b as int));
        return r;
    }
    proof {
        lemma_cut_is_boundary(s, b as int);
    }
    let (left, _) = text.split_at(b);
    let ghost l = left.spec_bytes();
    proof {
        valid_utf8_split(s, b as int);
        assert(l =~= s.subrange(0, b as int));
        if a != 0 {
            assert(l[a as int] == s[a as int]);
            assert(l[a - 1] == s[a - 1]);
        }
        assert(is_cut(l, a as int));
        lemma_cut_is_boundary(l, a as int);
    }
    let (_, mid) = left.split_at(a);
    let r = mid.to_owned();
    assert(mid.spec_bytes() =~= s.subrange(a as int, b as int));
    r
}

} // verus!
