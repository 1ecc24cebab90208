//! The tokenizer: raw text to a flat sequence of tokens that covers every
//! byte of the text, white space included.
use vstd::prelude::*;
use vstd::string::StringSliceAdditionalSpecFns;
use crate::text::{Class, is_blank, is_cut, run_end, lemma_run_end, scan, bytes_at, has_at, slice_str, utf8};

verus! {

#[derive(Debug, Clone, Copy, PartialEq, Eq, Structural)]
pub enum Token {
    /// `\starttext`
    StartText,
    /// `\stoptext`
    StopText,
    /// `\startdocument`
    StartDocument,
    /// `\stopdocument`
    StopDocument,
    /// `\start` followed by at least one letter
    StartEnv,
    /// `\stop` followed by at least one letter
    StopEnv,
    /// `\` followed by letters
    Command,
    /// `[`, bytes other than `]`, then `]`
    Options,
    /// a run of bytes that are neither blanks, braces, brackets, `\` nor `%`
    Text,
    BraceOpen,
    BraceClose,
    /// `%` up to the end of the line, the newline excluded
    Comment,
    /// a run of spaces, tabs and newlines
    Whitespace,
    /// a byte that starts no token: `]`, `[` that is never closed, or `\`
    /// that no letter follows
    Error,
}

/// One token with the byte range it covers and its text.
pub struct Lexeme {
    pub token: Token,
    pub start: usize,
    pub end: usize,
    pub text: String,
}

/// `\start`
pub open spec fn kw_start() -> Seq<u8> {
    seq![0x5cu8, 0x73, 0x74, 0x61, 0x72, 0x74]
}

/// `\stop`
pub open spec fn kw_stop() -> Seq<u8> {
    seq![0x5cu8, 0x73, 0x74, 0x6f, 0x70]
}

/// `text`
pub open spec fn kw_text() -> Seq<u8> {
    seq![0x74u8, 0x65, 0x78, 0x74]
}

/// `document`
pub open spec fn kw_document() -> Seq<u8> {
    seq![0x64u8, 0x6f, 0x63, 0x75, 0x6d, 0x65, 0x6e, 0x74]
}

pub fn start_bytes() -> (r: Vec<u8>)
    ensures
        r@ == kw_start(),
{
    let r = vec![0x5cu8, 0x73, 0x74, 0x61, 0x72, 0x74];
    assert(r@ =~= kw_start());
    r
}

pub fn stop_bytes() -> (r: Vec<u8>)
    ensures
        r@ == kw_stop(),
{
    let r = vec![0x5cu8, 0x73, 0x74, 0x6f, 0x70];
    assert(r@ =~= kw_stop());
    r
}

pub fn text_bytes() -> (r: Vec<u8>)
    ensures
        r@ == kw_text(),
{
    let r = vec![0x74u8, 0x65, 0x78, 0x74];
    assert(r@ =~= kw_text());
    r
}

pub fn document_bytes() -> (r: Vec<u8>)
    ensures
        r@ == kw_document(),
{
    let r = vec![0x64u8, 0x6f, 0x63, 0x75, 0x6d, 0x65, 0x6e, 0x74];
    assert(r@ =~= kw_document());
    r
}

/// The token of a control word `w` (a `\` and its letters).
pub open spec fn word_token(w: Seq<u8>) -> Token {
    if w == kw_start() + kw_text() {
        Token::StartText
    } else if w == kw_start() + kw_document() {
        Token::StartDocument
    } else if w == kw_stop() + kw_text() {
        Token::StopText
    } else if w == kw_stop() + kw_document() {
        Token::StopDocument
    } else if w.len() > kw_start().len() && w.subrange(0, kw_start().len() as int) == kw_start() {
        Token::StartEnv
    } else if w.len() > kw_stop().len() && w.subrange(0, kw_stop().len() as int) == kw_stop() {
        Token::StopEnv
    } else {
        Token::Command
    }
}

/// The token that starts at `i` (`0 <= i < s.len()`) and the offset where it ends.
pub open spec fn token_at(s: Seq<u8>, i: int) -> (Token, int) {
    let b = s[i];
    if is_blank(b) {
        (Token::Whitespace, run_end(s, i, Class::Blank))
    } else if b == 0x25 {
        (Token::Comment, run_end(s, i + 1, Class::InLine))
    } else if b == 0x7b {
        (Token::BraceOpen, i + 1)
    } else if b == 0x7d {
        (Token::BraceClose, i + 1)
    } else if b == 0x5b {
        let k = run_end(s, i + 1, Class::InBracket);
        if k < s.len() {
            (Token::Options, k + 1)
        } else {
            (Token::Error, i + 1)
        }
    } else if b == 0x5d {
        (Token::Error, i + 1)
    } else if b == 0x5c {
        let e = run_end(s, i + 1, Class::Letter);
        if e == i + 1 {
            (Token::Error, i + 1)
        } else {
            (word_token(s.subrange(i, e)), e)
        }
    } else {
        (Token::Text, run_end(s, i, Class::Word))
    }
}

/// The tokens of `s` from offset `i` on, each as its kind and byte range.
pub open spec fn lex_from(s: Seq<u8>, i: int) -> Seq<(Token, int, int)>
    decreases s.len() - i,
{
    if i < 0 || i >= s.len() {
        seq![]
    } else {
        let (t, e) = token_at(s, i);
        if e <= i || e > s.len() {
            seq![]
        } else {
            seq![(t, i, e)] + lex_from(s, e)
        }
    }
}

/// The tokens of `s`.
pub open spec fn lex_spec(s: Seq<u8>) -> Seq<(Token, int, int)> {
    lex_from(s, 0)
}

/// Each token ends after it starts, at a cut position.
pub proof fn lemma_token_at(s: Seq<u8>, i: int)
    requires
        0 <= i < s.len(),
    ensures
        i < token_at(s, i).1 <= s.len(),
        is_cut(s, token_at(s, i).1),
{
    let b = s[i];
    lemma_run_end(s, i, Class::Blank);
    lemma_run_end(s, i + 1, Class::InLine);
    lemma_run_end(s, i + 1, Class::InBracket);
    lemma_run_end(s, i + 1, Class::Letter);
    lemma_run_end(s, i, Class::Word);
    let e = token_at(s, i).1;
    if is_blank(b) {
        assert(s[e - 1] < 0x80);
    } else if b == 0x5c {
        let f = run_end(s, i + 1, Class::Letter);
        if f != i + 1 {
            assert(s[f - 1] < 0x80);
        }
    }
}

/// `s` holds `p + q` from `i` to `e` exactly when it holds `p` at `i`, `q`
/// right after it, and nothing more.
proof fn lemma_word_split(s: Seq<u8>, i: int, e: int, p: Seq<u8>, q: Seq<u8>)
    requires
        0 <= i < e <= s.len(),
        has_at(s, i, p),
    ensures
        (s.subrange(i, e) == p + q) <==> (e - i == p.len() + q.len() && has_at(s, i + p.len(), q)),
{
    let w = s.subrange(i, e);
    if w == p + q {
        assert(s.subrange(i + p.len(), i + p.len() + q.len()) =~= (p + q).subrange(
            p.len() as int,
            (p.len() + q.len()) as int,
        ));
        assert((p + q).subrange(p.len() as int, (p.len() + q.len()) as int) =~= q);
    }
    if e - i == p.len() + q.len() && has_at(s, i + p.len(), q) {
        assert forall|j: int| 0 <= j < w.len() implies w[j] == (p + q)[j] by {
            if j < p.len() {
                assert(s.subrange(i, i + p.len())[j] == p[j]);
            } else {
                assert(s.subrange(i + p.len(), i + p.len() + q.len())[j - p.len()] == q[j - p.len()]);
            }
        }
        assert(w =~= p + q);
    }
}

/// A word that begins with `p` has `p`'s byte at position 3; `\start` and
/// `\stop` differ there, so no word begins with both.
proof fn lemma_word_prefix(w: Seq<u8>, p: Seq<u8>, n: int)
    requires
        n <= w.len(),
        3 < n,
        n == p.len(),
        w.subrange(0, n) == p,
    ensures
        w[3] == p[3],
{
    assert(w.subrange(0, n)[3] == w[3]);
}

/// The kind of control word found between `i` and `e` in `s`.
fn word_kind(s: &[u8], i: usize, e: usize) -> (r: Token)
    requires
        i < e <= s@.len(),
    ensures
        r == word_token(s@.subrange(i as int, e as int)),
{
    let ghost w = s@.subrange(i as int, e as int);
    let start = start_bytes();
    let stop = stop_bytes();
    let txt = text_bytes();
    let doc = document_bytes();
    let has_start = e - i > 6 && bytes_at(s, i, start.as_slice());
    let has_stop = e - i > 5 && bytes_at(s, i, stop.as_slice());
    proof {
        if e - i > 6 {
            assert(w.subrange(0, 6) =~= s@.subrange(i as int, i + 6));
        }
        if e - i > 5 {
            assert(w.subrange(0, 5) =~= s@.subrange(i as int, i + 5));
        }
        assert(kw_start()[3] != kw_stop()[3]);
        assert((kw_start() + kw_text()).subrange(0, 6) =~= kw_start());
        assert((kw_start() + kw_document()).subrange(0, 6) =~= kw_start());
        assert((kw_stop() + kw_text()).subrange(0, 5) =~= kw_stop());
        assert((kw_stop() + kw_document()).subrange(0, 5) =~= kw_stop());
        if w == kw_start() + kw_text() || w == kw_start() + kw_document() {
            lemma_word_prefix(w, kw_start(), 6);
            if e - i > 5 && w.subrange(0, 5) == kw_stop() {
                lemma_word_prefix(w, kw_stop(), 5);
            }
        }
        if w == kw_stop() + kw_text() || w == kw_stop() + kw_document() {
            lemma_word_prefix(w, kw_stop(), 5);
            if e - i > 6 && w.subrange(0, 6) == kw_start() {
                lemma_word_prefix(w, kw_start(), 6);
            }
        }
        if has_start {
            lemma_word_split(s@, i as int, e as int, kw_start(), kw_text());
            lemma_word_split(s@, i as int, e as int, kw_start(), kw_document());
            if has_stop {
                lemma_word_prefix(w, kw_start(), 6);
                lemma_word_prefix(w, kw_stop(), 5);
            }
        }
        if has_stop {
            lemma_word_split(s@, i as int, e as int, kw_stop(), kw_text());
            lemma_word_split(s@, i as int, e as int, kw_stop(), kw_document());
        }
    }
    if has_start {
        if e - i == 10 && bytes_at(s, i + 6, txt.as_slice()) {
            Token::StartText
        } else if e - i == 14 && bytes_at(s, i + 6, doc.as_slice()) {
            Token::StartDocument
        } else {
            Token::StartEnv
        }
    } else if has_stop {
        if e - i == 9 && bytes_at(s, i + 5, txt.as_slice()) {
            Token::StopText
        } else if e - i == 13 && bytes_at(s, i + 5, doc.as_slice()) {
            Token::StopDocument
        } else {
            Token::StopEnv
        }
    } else {
        Token::Command
    }
}

/// The token that starts at `i` and the offset where it ends.
pub fn next_token(s: &[u8], i: usize) -> (r: (Token, usize))
    requires
        i < s@.len(),
    ensures
        (r.0, r.1 as int) == token_at(s@, i as int),
{
    let b = s[i];
    if b == 0x20 || b == 0x09 || b == 0x0a {
        (Token::Whitespace, scan(s, i, Class::Blank))
    } else if b == 0x25 {
        (Token::Comment, scan(s, i + 1, Class::InLine))
    } else if b == 0x7b {
        (Token::BraceOpen, i + 1)
    } else if b == 0x7d {
        (Token::BraceClose, i + 1)
    } else if b == 0x5b {
        let k = scan(s, i + 1, Class::InBracket);
        if k < s.len() {
            (Token::Options, k + 1)
        } else {
            (Token::Error, i + 1)
        }
    } else if b == 0x5d {
        (Token::Error, i + 1)
    } else if b == 0x5c {
        let e = scan(s, i + 1, Class::Letter);
        if e == i + 1 {
            (Token::Error, i + 1)
        } else {
            (word_kind(s, i, e), e)
        }
    } else {
        (Token::Text, scan(s, i, Class::Word))
    }
}

/// The kind and range of each lexeme.
pub open spec fn lexemes_view(ls: Seq<Lexeme>) -> Seq<(Token, int, int)> {
    Seq::new(ls.len(), |k: int| (ls[k].token, ls[k].start as int, ls[k].end as int))
}

/// Each lexeme's text is the source between its offsets.
pub open spec fn texts_match(ls: Seq<Lexeme>, s: Seq<u8>) -> bool {
    forall|k: int|
        0 <= k < ls.len() ==> #[trigger] utf8(ls[k].text@) == s.subrange(
            ls[k].start as int,
            ls[k].end as int,
        )
}

/// Splits `text` into its tokens.
pub fn tokenize(text: &str) -> (r: Vec<Lexeme>)
    ensures
        lexemes_view(r@) == lex_spec(text.spec_bytes()),
        texts_match(r@, text.spec_bytes()),
{
    let s = text.as_bytes();
    let ghost g = text.spec_bytes();
    let mut out: Vec<Lexeme> = Vec::new();
    let mut i: usize = 0;
    while i < s.len()
        invariant
            s@ == g,
            g == text.spec_bytes(),
            i <= g.len(),
            is_cut(g, i as int),
            lex_spec(g) == lexemes_view(out@) + lex_from(g, i as int),
            texts_match(out@, g),
        decreases g.len() - i,
    {
        let (t, e) = next_token(s, i);
        proof {
            lemma_token_at(g, i as int);
            assert((t, e as int) == token_at(g, i as int));
        }
        let piece = slice_str(text, i, e);
        let ghost before = out@;
        out.push(Lexeme { token: t, start: i, end: e, text: piece });
        proof {
            assert(lex_from(g, i as int) == seq![(t, i as int, e as int)] + lex_from(g, e as int));
            assert(lexemes_view(out@) =~= lexemes_view(before) + seq![(t, i as int, e as int)]);
            assert forall|k: int| 0 <= k < out@.len() implies #[trigger] utf8(out@[k].text@)
                == g.subrange(out@[k].start as int, out@[k].end as int) by {
                if k < before.len() {
                    assert(out@[k] == before[k]);
                }
            }
        }
        i = e;
    }
    assert(lex_from(g, i as int) =~= seq![]);
    assert(lexemes_view(out@) + lex_from(g, i as int) =~= lexemes_view(out@));
    out
}

} // verus!
