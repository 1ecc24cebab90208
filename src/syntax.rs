//! The lossless concrete syntax tree.
//!
//! The shared ("green") layer is a tree of kinded nodes whose leaves are
//! tokens holding text. Positions are not stored: the absolute byte range of
//! an element is derived by summing the lengths of the tokens before it (see
//! `highlight`). Concatenating the token texts in order gives back the
//! source exactly.
use vstd::prelude::*;
use crate::lexer::{Token, Lexeme, lex_spec, lex_from, token_at, lemma_token_at, lexemes_view, texts_match};
use crate::text::utf8;
use vstd::string::StringSliceAdditionalSpecFns;

verus! {

#[derive(Debug, Clone, Copy, PartialEq, Eq, Structural)]
pub enum SyntaxKind {
    Document,
    Environment,
    Command,
    Text,
    Comment,
    Options,
    Argument,
    Error,
    Whitespace,
}

/// The raw numbering of syntax kinds used by tree libraries that store kinds
/// as 16-bit integers.
pub struct ConTeXtLanguage;

pub open spec fn raw_of(k: SyntaxKind) -> u16 {
    match k {
        SyntaxKind::Document => 0,
        SyntaxKind::Environment => 1,
        SyntaxKind::Command => 2,
        SyntaxKind::Text => 3,
        SyntaxKind::Comment => 4,
        SyntaxKind::Options => 5,
        SyntaxKind::Argument => 6,
        SyntaxKind::Error => 7,
        SyntaxKind::Whitespace => 8,
    }
}

impl ConTeXtLanguage {
    /// The kind numbered `raw`, if there is one.
    pub fn kind_from_raw(raw: u16) -> (r: Option<SyntaxKind>)
        ensures
            r matches Some(k) ==> raw_of(k) == raw,
            r is None ==> raw > 8,
    {
        match raw {
            0 => Some(SyntaxKind::Document),
            1 => Some(SyntaxKind::Environment),
            2 => Some(SyntaxKind::Command),
            3 => Some(SyntaxKind::Text),
            4 => Some(SyntaxKind::Comment),
            5 => Some(SyntaxKind::Options),
            6 => Some(SyntaxKind::Argument),
            7 => Some(SyntaxKind::Error),
            8 => Some(SyntaxKind::Whitespace),
            _ => None,
        }
    }

    pub fn kind_to_raw(kind: SyntaxKind) -> (r: u16)
        ensures
            r == raw_of(kind),
    {
        match kind {
            SyntaxKind::Document => 0,
            SyntaxKind::Environment => 1,
            SyntaxKind::Command => 2,
            SyntaxKind::Text => 3,
            SyntaxKind::Comment => 4,
            SyntaxKind::Options => 5,
            SyntaxKind::Argument => 6,
            SyntaxKind::Error => 7,
            SyntaxKind::Whitespace => 8,
        }
    }
}

#[derive(Debug, PartialEq)]
pub struct GreenToken {
    pub kind: SyntaxKind,
    pub text: String,
}

#[derive(Debug, PartialEq)]
pub struct GreenNode {
    pub kind: SyntaxKind,
    pub children: Vec<GreenElement>,
}

#[derive(Debug, PartialEq)]
pub enum GreenElement {
    Node(GreenNode),
    Token(GreenToken),
}

/// The mathematical value of a green element: kinds, structure and the UTF-8
/// bytes of each token.
pub enum GreenView {
    Node(SyntaxKind, Seq<GreenView>),
    Token(SyntaxKind, Seq<u8>),
}

pub open spec fn view_elem(e: GreenElement) -> GreenView
    decreases e,
{
    match e {
        GreenElement::Token(t) => GreenView::Token(t.kind, utf8(t.text@)),
        GreenElement::Node(n) => GreenView::Node(n.kind, view_elems(n.children@)),
    }
}

pub open spec fn view_elems(es: Seq<GreenElement>) -> Seq<GreenView>
    decreases es,
{
    if es.len() == 0 {
        seq![]
    } else {
        view_elems(es.drop_last()) + seq![view_elem(es.last())]
    }
}

pub open spec fn view_node(n: GreenNode) -> GreenView {
    GreenView::Node(n.kind, view_elems(n.children@))
}

/// The source text an element covers: its tokens' bytes, in order.
pub open spec fn text_of(v: GreenView) -> Seq<u8>
    decreases v,
{
    match v {
        GreenView::Token(_, t) => t,
        GreenView::Node(_, cs) => texts_of(cs),
    }
}

pub open spec fn texts_of(vs: Seq<GreenView>) -> Seq<u8>
    decreases vs,
{
    if vs.len() == 0 {
        seq![]
    } else {
        texts_of(vs.drop_last()) + text_of(vs.last())
    }
}

pub proof fn lemma_texts_concat(a: Seq<GreenView>, b: Seq<GreenView>)
    ensures
        texts_of(a + b) == texts_of(a) + texts_of(b),
    decreases b.len(),
{
    if b.len() == 0 {
        assert(a + b =~= a);
        assert(texts_of(b) =~= seq![]);
        assert(texts_of(a) + texts_of(b) =~= texts_of(a));
    } else {
        lemma_texts_concat(a, b.drop_last());
        assert((a + b).drop_last() =~= a + b.drop_last());
        assert((a + b).last() == b.last());
    }
}

pub proof fn lemma_texts_one(v: GreenView)
    ensures
        texts_of(seq![v]) == text_of(v),
{
    assert(seq![v].drop_last() =~= Seq::<GreenView>::empty());
    assert(texts_of(Seq::<GreenView>::empty()) + text_of(v) =~= text_of(v));
}

/// The syntax kind of a token's leaf.
pub open spec fn leaf_kind(t: Token) -> SyntaxKind {
    match t {
        Token::Text => SyntaxKind::Text,
        Token::Comment => SyntaxKind::Comment,
        Token::Whitespace => SyntaxKind::Whitespace,
        Token::Options => SyntaxKind::Options,
        Token::Error => SyntaxKind::Error,
        Token::Command => SyntaxKind::Command,
        Token::BraceOpen => SyntaxKind::Argument,
        Token::BraceClose => SyntaxKind::Argument,
        _ => SyntaxKind::Environment,
    }
}

pub fn token_kind(t: Token) -> (r: SyntaxKind)
    ensures
        r == leaf_kind(t),
{
    match t {
        Token::Text => SyntaxKind::Text,
        Token::Comment => SyntaxKind::Comment,
        Token::Whitespace => SyntaxKind::Whitespace,
        Token::Options => SyntaxKind::Options,
        Token::Error => SyntaxKind::Error,
        Token::Command => SyntaxKind::Command,
        Token::BraceOpen => SyntaxKind::Argument,
        Token::BraceClose => SyntaxKind::Argument,
        _ => SyntaxKind::Environment,
    }
}

/// Where a run of siblings stands: at the top of the document, inside an
/// environment (closed by any stop token), or inside a brace group.
#[derive(Clone, Copy, PartialEq, Eq, Structural)]
pub enum Scope {
    Top,
    Env,
    Group,
}

pub open spec fn is_stop(t: Token) -> bool {
    t == Token::StopText || t == Token::StopDocument || t == Token::StopEnv
}

pub open spec fn is_start(t: Token) -> bool {
    t == Token::StartText || t == Token::StartDocument || t == Token::StartEnv
}

/// The token that closes scope `c`.
pub open spec fn closes(c: Scope, t: Token) -> bool {
    match c {
        Scope::Top => false,
        Scope::Env => is_stop(t),
        Scope::Group => t == Token::BraceClose,
    }
}

/// A closing token that closes nothing where it stands.
pub open spec fn is_stray(t: Token) -> bool {
    is_stop(t) || t == Token::BraceClose || t == Token::Error
}

pub open spec fn leaf(ts: Seq<(Token, int, int)>, s: Seq<u8>, i: int) -> GreenView {
    GreenView::Token(leaf_kind(ts[i].0), s.subrange(ts[i].1, ts[i].2))
}

/// The siblings that start at token `i` in scope `c`: the elements, the
/// index after them, and whether the scope's closing token was found (it is
/// then the last sibling).
pub open spec fn items(ts: Seq<(Token, int, int)>, s: Seq<u8>, i: int, c: Scope) -> (
    Seq<GreenView>,
    int,
    bool,
)
    decreases ts.len() - i, 1int,
{
    if i < 0 || i >= ts.len() {
        (seq![], i, false)
    } else if closes(c, ts[i].0) {
        (seq![leaf(ts, s, i)], i + 1, true)
    } else {
        let (e, j) = element(ts, s, i, c);
        if j <= i || j > ts.len() {
            (seq![], i, false)
        } else {
            let (rest, k, closed) = items(ts, s, j, c);
            (seq![e] + rest, k, closed)
        }
    }
}

/// An element opened by token `i` that reaches the end without its closing
/// token is wrapped in an `Error` node.
pub open spec fn opened(kind: SyntaxKind, first: GreenView, inner: (Seq<GreenView>, int, bool)) -> (GreenView, int) {
    let node = GreenView::Node(kind, seq![first] + inner.0);
    if inner.2 {
        (node, inner.1)
    } else {
        (GreenView::Node(SyntaxKind::Error, seq![node]), inner.1)
    }
}

/// The element that starts at token `i` in scope `c`, and the index after it.
pub open spec fn element(ts: Seq<(Token, int, int)>, s: Seq<u8>, i: int, c: Scope) -> (GreenView, int)
    decreases ts.len() - i, 0int,
{
    if i < 0 || i >= ts.len() {
        (GreenView::Node(SyntaxKind::Error, seq![]), i)
    } else {
        let t = ts[i].0;
        if is_start(t) {
            opened(SyntaxKind::Environment, leaf(ts, s, i), items(ts, s, i + 1, Scope::Env))
        } else if t == Token::BraceOpen {
            opened(SyntaxKind::Argument, leaf(ts, s, i), items(ts, s, i + 1, Scope::Group))
        } else if t == Token::Command {
            let (tail, j) = command_tail(ts, s, i + 1);
            (GreenView::Node(SyntaxKind::Command, seq![leaf(ts, s, i)] + tail), j)
        } else if is_stray(t) {
            (GreenView::Node(SyntaxKind::Error, seq![leaf(ts, s, i)]), i + 1)
        } else {
            (leaf(ts, s, i), i + 1)
        }
    }
}

/// The option groups and brace groups that directly follow a command name.
pub open spec fn command_tail(ts: Seq<(Token, int, int)>, s: Seq<u8>, i: int) -> (Seq<GreenView>, int)
    decreases ts.len() - i, 1int,
{
    if i < 0 || i >= ts.len() {
        (seq![], i)
    } else if ts[i].0 == Token::Options || ts[i].0 == Token::BraceOpen {
        let (e, j) = element(ts, s, i, Scope::Top);
        if j <= i || j > ts.len() {
            (seq![], i)
        } else {
            let (rest, k) = command_tail(ts, s, j);
            (seq![e] + rest, k)
        }
    } else {
        (seq![], i)
    }
}

/// The concrete tree of `s`.
pub open spec fn tree_of(s: Seq<u8>) -> GreenView {
    GreenView::Node(SyntaxKind::Document, items(lex_spec(s), s, 0, Scope::Top).0)
}

pub proof fn lemma_views_concat(a: Seq<GreenElement>, b: Seq<GreenElement>)
    ensures
        view_elems(a + b) == view_elems(a) + view_elems(b),
    decreases b.len(),
{
    if b.len() == 0 {
        assert(a + b =~= a);
        assert(view_elems(a) + view_elems(b) =~= view_elems(a));
    } else {
        lemma_views_concat(a, b.drop_last());
        assert((a + b).drop_last() =~= a + b.drop_last());
        assert((a + b).last() == b.last());
        assert(view_elems(a) + view_elems(b) =~= view_elems(a) + view_elems(b.drop_last()) + seq![
            view_elem(b.last()),
        ]);
    }
}

proof fn lemma_views_push(a: Seq<GreenElement>, e: GreenElement)
    ensures
        view_elems(a.push(e)) == view_elems(a) + seq![view_elem(e)],
{
    assert(a.push(e).drop_last() =~= a);
}

fn closes_exec(c: Scope, t: Token) -> (r: bool)
    ensures
        r == closes(c, t),
{
    match c {
        Scope::Top => false,
        Scope::Env => t == Token::StopText || t == Token::StopDocument || t == Token::StopEnv,
        Scope::Group => t == Token::BraceClose,
    }
}

/// The leaf of lexeme `i`.
fn make_leaf(ls: &Vec<Lexeme>, Ghost(s): Ghost<Seq<u8>>, i: usize) -> (r: GreenElement)
    requires
        i < ls@.len(),
        texts_match(ls@, s),
    ensures
        view_elem(r) == leaf(lexemes_view(ls@), s, i as int),
{
    let l = &ls[i];
    assert(utf8(l.text@) == s.subrange(l.start as int, l.end as int));
    GreenElement::Token(GreenToken { kind: token_kind(l.token), text: l.text.clone() })
}

/// `first` followed by `rest`.
fn prepend(first: GreenElement, rest: Vec<GreenElement>) -> (r: Vec<GreenElement>)
    ensures
        view_elems(r@) == seq![view_elem(first)] + view_elems(rest@),
{
    let mut out: Vec<GreenElement> = Vec::new();
    out.push(first);
    let mut rest = rest;
    proof {
        lemma_views_push(Seq::<GreenElement>::empty(), first);
        assert(Seq::<GreenElement>::empty().push(first) =~= out@);
        assert(view_elems(Seq::<GreenElement>::empty()) =~= seq![]);
        lemma_views_concat(out@, rest@);
    }
    let ghost o = out@;
    let ghost rv = rest@;
    out.append(&mut rest);
    assert(out@ =~= o + rv);
    out
}

fn build_items(ls: &Vec<Lexeme>, Ghost(s): Ghost<Seq<u8>>, i: usize, c: Scope) -> (r: (Vec<GreenElement>, usize, bool))
    requires
        i <= ls@.len(),
        texts_match(ls@, s),
    ensures
        (view_elems(r.0@), r.1 as int, r.2) == items(lexemes_view(ls@), s, i as int, c),
    decreases ls@.len() - i, 1int,
{
    let ghost ts = lexemes_view(ls@);
    let mut out: Vec<GreenElement> = Vec::new();
    let mut j = i;
    assert(view_elems(out@) + items(ts, s, j as int, c).0 =~= items(ts, s, j as int, c).0);
    loop
        invariant
            i <= j <= ls@.len(),
            texts_match(ls@, s),
            ts == lexemes_view(ls@),
            items(ts, s, i as int, c) == (
                view_elems(out@) + items(ts, s, j as int, c).0,
                items(ts, s, j as int, c).1,
                items(ts, s, j as int, c).2,
            ),
        decreases ls@.len() - j,
    {
        if j >= ls.len() {
            assert(view_elems(out@) + items(ts, s, j as int, c).0 =~= view_elems(out@));
            return (out, j, false);
        }
        if closes_exec(c, ls[j].token) {
            let lf = make_leaf(ls, Ghost(s), j);
            proof {
                lemma_views_push(out@, lf);
            }
            out.push(lf);
            return (out, j + 1, true);
        }
        let (e, k) = build_element(ls, Ghost(s), j, c);
        if k <= j || k > ls.len() {
            assert(view_elems(out@) + items(ts, s, j as int, c).0 =~= view_elems(out@));
            return (out, j, false);
        }
        proof {
            lemma_views_push(out@, e);
            let (rest, kk, closed) = items(ts, s, k as int, c);
            assert(items(ts, s, j as int, c).0 == seq![view_elem(e)] + rest);
            assert(view_elems(out@) + items(ts, s, j as int, c).0 =~= view_elems(out@) + seq![view_elem(e)] + rest);
        }
        out.push(e);
        j = k;
    }
}

/// A node of `kind` made of `first` and the siblings `inner`, wrapped in an
/// `Error` node when `inner` was not closed.
fn make_opened(kind: SyntaxKind, first: GreenElement, inner: (Vec<GreenElement>, usize, bool)) -> (r: (GreenElement, usize))
    ensures
        (view_elem(r.0), r.1 as int) == opened(kind, view_elem(first), (view_elems(inner.0@), inner.1 as int, inner.2)),
{
    let (cs, j, closed) = inner;
    let children = prepend(first, cs);
    let node = GreenElement::Node(GreenNode { kind, children });
    if closed {
        (node, j)
    } else {
        let wrapped = prepend(node, Vec::new());
        assert(view_elems(Seq::<GreenElement>::empty()) =~= seq![]);
        assert(seq![view_elem(node)] + Seq::<GreenView>::empty() =~= seq![view_elem(node)]);
        (GreenElement::Node(GreenNode { kind: SyntaxKind::Error, children: wrapped }), j)
    }
}

fn build_element(ls: &Vec<Lexeme>, Ghost(s): Ghost<Seq<u8>>, i: usize, c: Scope) -> (r: (GreenElement, usize))
    requires
        i < ls@.len(),
        texts_match(ls@, s),
    ensures
        (view_elem(r.0), r.1 as int) == element(lexemes_view(ls@), s, i as int, c),
    decreases ls@.len() - i, 0int,
{
    let n = ls.len();
    assert(i + 1 <= n);
    let t = ls[i].token;
    let first = make_leaf(ls, Ghost(s), i);
    if t == Token::StartText || t == Token::StartDocument || t == Token::StartEnv {
        let inner = build_items(ls, Ghost(s), i + 1, Scope::Env);
        make_opened(SyntaxKind::Environment, first, inner)
    } else if t == Token::BraceOpen {
        let inner = build_items(ls, Ghost(s), i + 1, Scope::Group);
        make_opened(SyntaxKind::Argument, first, inner)
    } else if t == Token::Command {
        let (tail, j) = build_command_tail(ls, Ghost(s), i + 1);
        let children = prepend(first, tail);
        (GreenElement::Node(GreenNode { kind: SyntaxKind::Command, children }), j)
    } else if t == Token::StopText || t == Token::StopDocument || t == Token::StopEnv
        || t == Token::BraceClose || t == Token::Error {
        let children = prepend(first, Vec::new());
        assert(view_elems(Seq::<GreenElement>::empty()) =~= seq![]);
        assert(seq![view_elem(first)] + Seq::<GreenView>::empty() =~= seq![view_elem(first)]);
        (GreenElement::Node(GreenNode { kind: SyntaxKind::Error, children }), i + 1)
    } else {
        (first, i + 1)
    }
}

fn build_command_tail(ls: &Vec<Lexeme>, Ghost(s): Ghost<Seq<u8>>, i: usize) -> (r: (Vec<GreenElement>, usize))
    requires
        i <= ls@.len(),
        texts_match(ls@, s),
    ensures
        (view_elems(r.0@), r.1 as int) == command_tail(lexemes_view(ls@), s, i as int),
    decreases ls@.len() - i, 1int,
{
    let ghost ts = lexemes_view(ls@);
    let mut out: Vec<GreenElement> = Vec::new();
    let mut j = i;
    assert(view_elems(out@) + command_tail(ts, s, j as int).0 =~= command_tail(ts, s, j as int).0);
    loop
        invariant
            i <= j <= ls@.len(),
            texts_match(ls@, s),
            ts == lexemes_view(ls@),
            command_tail(ts, s, i as int) == (
                view_elems(out@) + command_tail(ts, s, j as int).0,
                command_tail(ts, s, j as int).1,
            ),
        decreases ls@.len() - j,
    {
        if j >= ls.len() || !(ls[j].token == Token::Options || ls[j].token == Token::BraceOpen) {
            assert(view_elems(out@) + command_tail(ts, s, j as int).0 =~= view_elems(out@));
            return (out, j);
        }
        let (e, k) = build_element(ls, Ghost(s), j, Scope::Top);
        if k <= j || k > ls.len() {
            assert(view_elems(out@) + command_tail(ts, s, j as int).0 =~= view_elems(out@));
            return (out, j);
        }
        proof {
            lemma_views_push(out@, e);
            let (rest, kk) = command_tail(ts, s, k as int);
            assert(command_tail(ts, s, j as int).0 == seq![view_elem(e)] + rest);
            assert(view_elems(out@) + command_tail(ts, s, j as int).0 =~= view_elems(out@) + seq![view_elem(e)] + rest);
        }
        out.push(e);
        j = k;
    }
}

/// The concrete tree over `tokens`, the tokens of `text`.
pub fn build_tree(tokens: &Vec<Lexeme>, text: &str) -> (r: SyntaxTree)
    requires
        texts_match(tokens@, text.spec_bytes()),
    ensures
        view_node(r.green) == GreenView::Node(
            SyntaxKind::Document,
            items(lexemes_view(tokens@), text.spec_bytes(), 0, Scope::Top).0,
        ),
{
    let (children, _, _) = build_items(tokens, Ghost(text.spec_bytes()), 0, Scope::Top);
    SyntaxTree { green: GreenNode { kind: SyntaxKind::Document, children } }
}

/// Where token `k` starts; the end of the text past the last token.
pub open spec fn pos(ts: Seq<(Token, int, int)>, k: int, n: int) -> int {
    if 0 <= k < ts.len() {
        ts[k].1
    } else {
        n
    }
}

/// The tokens `ts` follow one another without gap from `i` to `n`.
pub open spec fn tiles(ts: Seq<(Token, int, int)>, i: int, n: int) -> bool {
    &&& 0 <= i <= n
    &&& pos(ts, 0, n) == i
    &&& forall|k: int| 0 <= k < ts.len() ==> #[trigger] ts[k].1 < ts[k].2 && ts[k].2 == pos(ts, k + 1, n)
}

pub proof fn lemma_lex_tiles(s: Seq<u8>, i: int)
    requires
        0 <= i <= s.len(),
    ensures
        tiles(lex_from(s, i), i, s.len() as int),
    decreases s.len() - i,
{
    let n = s.len() as int;
    if i < n {
        lemma_token_at(s, i);
        let e = token_at(s, i).1;
        lemma_lex_tiles(s, e);
        let rest = lex_from(s, e);
        let all = lex_from(s, i);
        assert(all == seq![(token_at(s, i).0, i, e)] + rest);
        assert forall|k: int| 0 <= k < all.len() implies #[trigger] all[k].1 < all[k].2 && all[k].2
            == pos(all, k + 1, n) by {
            if k + 1 < all.len() {
                assert(all[k + 1] == rest[k]);
            }
            assert(pos(all, k + 1, n) == pos(rest, k, n));
            if k > 0 {
                assert(all[k] == rest[k - 1]);
                assert(rest[k - 1].1 < rest[k - 1].2 && rest[k - 1].2 == pos(rest, k, n));
            }
        }
    }
}

proof fn lemma_pos_lower(ts: Seq<(Token, int, int)>, i: int, n: int, k: int)
    requires
        tiles(ts, i, n),
        0 <= k <= ts.len(),
    ensures
        i <= pos(ts, k, n),
    decreases k,
{
    if k > 0 {
        lemma_pos_lower(ts, i, n, k - 1);
        assert(ts[k - 1].1 < ts[k - 1].2);
    }
}

proof fn lemma_pos_upper(ts: Seq<(Token, int, int)>, i: int, n: int, k: int)
    requires
        tiles(ts, i, n),
        0 <= k <= ts.len(),
    ensures
        pos(ts, k, n) <= n,
    decreases ts.len() - k,
{
    if k < ts.len() {
        lemma_pos_upper(ts, i, n, k + 1);
        assert(ts[k].1 < ts[k].2);
    }
}

pub proof fn lemma_pos_monotone(ts: Seq<(Token, int, int)>, i: int, n: int, a: int, b: int)
    requires
        tiles(ts, i, n),
        0 <= a <= b <= ts.len(),
    ensures
        i <= pos(ts, a, n) <= pos(ts, b, n) <= n,
        a < b ==> pos(ts, a, n) < pos(ts, b, n),
    decreases b - a,
{
    lemma_pos_lower(ts, i, n, a);
    lemma_pos_upper(ts, i, n, b);
    if a < b {
        lemma_pos_monotone(ts, i, n, a + 1, b);
        assert(ts[a].1 < ts[a].2);
    }
}

proof fn lemma_join(s: Seq<u8>, a: int, b: int, c: int)
    requires
        0 <= a <= b <= c <= s.len(),
    ensures
        s.subrange(a, b) + s.subrange(b, c) == s.subrange(a, c),
{
    assert(s.subrange(a, b) + s.subrange(b, c) =~= s.subrange(a, c));
}

pub proof fn lemma_items_text(ts: Seq<(Token, int, int)>, s: Seq<u8>, i: int, c: Scope)
    requires
        tiles(ts, 0, s.len() as int),
        0 <= i <= ts.len(),
    ensures
        i <= items(ts, s, i, c).1 <= ts.len(),
        c == Scope::Top ==> items(ts, s, i, c).1 == ts.len(),
        texts_of(items(ts, s, i, c).0) == s.subrange(
            pos(ts, i, s.len() as int),
            pos(ts, items(ts, s, i, c).1, s.len() as int),
        ),
    decreases ts.len() - i, 1int,
{
    let n = s.len() as int;
    lemma_pos_monotone(ts, 0, n, i, ts.len() as int);
    if i >= ts.len() {
        assert(s.subrange(pos(ts, i, n), pos(ts, i, n)) =~= seq![]);
    } else if closes(c, ts[i].0) {
        lemma_texts_one(leaf(ts, s, i));
    } else {
        lemma_element_text(ts, s, i, c);
        let (e, j) = element(ts, s, i, c);
        lemma_items_text(ts, s, j, c);
        let (rest, k, closed) = items(ts, s, j, c);
        lemma_texts_concat(seq![e], rest);
        lemma_texts_one(e);
        lemma_pos_monotone(ts, 0, n, i, j);
        lemma_pos_monotone(ts, 0, n, j, k);
        lemma_join(s, pos(ts, i, n), pos(ts, j, n), pos(ts, k, n));
    }
}

pub proof fn lemma_element_text(ts: Seq<(Token, int, int)>, s: Seq<u8>, i: int, c: Scope)
    requires
        tiles(ts, 0, s.len() as int),
        0 <= i < ts.len(),
    ensures
        i < element(ts, s, i, c).1 <= ts.len(),
        text_of(element(ts, s, i, c).0) == s.subrange(
            pos(ts, i, s.len() as int),
            pos(ts, element(ts, s, i, c).1, s.len() as int),
        ),
    decreases ts.len() - i, 0int,
{
    let n = s.len() as int;
    let t = ts[i].0;
    let first = leaf(ts, s, i);
    assert(ts[i].1 < ts[i].2 && ts[i].2 == pos(ts, i + 1, n));
    assert(text_of(first) == s.subrange(pos(ts, i, n), pos(ts, i + 1, n)));
    if is_start(t) || t == Token::BraceOpen {
        let sc = if is_start(t) { Scope::Env } else { Scope::Group };
        let kind = if is_start(t) { SyntaxKind::Environment } else { SyntaxKind::Argument };
        lemma_items_text(ts, s, i + 1, sc);
        let inner = items(ts, s, i + 1, sc);
        lemma_texts_concat(seq![first], inner.0);
        lemma_texts_one(first);
        lemma_pos_monotone(ts, 0, n, i + 1, inner.1);
        lemma_pos_monotone(ts, 0, n, i, i + 1);
        lemma_join(s, pos(ts, i, n), pos(ts, i + 1, n), pos(ts, inner.1, n));
        let node = GreenView::Node(kind, seq![first] + inner.0);
        lemma_texts_one(node);
        assert(element(ts, s, i, c) == opened(kind, first, inner));
    } else if t == Token::Command {
        lemma_tail_text(ts, s, i + 1);
        let (tail, j) = command_tail(ts, s, i + 1);
        lemma_texts_concat(seq![first], tail);
        lemma_texts_one(first);
        lemma_pos_monotone(ts, 0, n, i + 1, j);
        lemma_pos_monotone(ts, 0, n, i, i + 1);
        lemma_join(s, pos(ts, i, n), pos(ts, i + 1, n), pos(ts, j, n));
    } else if is_stray(t) {
        lemma_texts_one(first);
    }
}

proof fn lemma_tail_text(ts: Seq<(Token, int, int)>, s: Seq<u8>, i: int)
    requires
        tiles(ts, 0, s.len() as int),
        0 <= i <= ts.len(),
    ensures
        i <= command_tail(ts, s, i).1 <= ts.len(),
        texts_of(command_tail(ts, s, i).0) == s.subrange(
            pos(ts, i, s.len() as int),
            pos(ts, command_tail(ts, s, i).1, s.len() as int),
        ),
    decreases ts.len() - i, 1int,
{
    let n = s.len() as int;
    lemma_pos_monotone(ts, 0, n, i, ts.len() as int);
    if i < ts.len() && (ts[i].0 == Token::Options || ts[i].0 == Token::BraceOpen) {
        lemma_element_text(ts, s, i, Scope::Top);
        let (e, j) = element(ts, s, i, Scope::Top);
        lemma_tail_text(ts, s, j);
        let (rest, k) = command_tail(ts, s, j);
        lemma_texts_concat(seq![e], rest);
        lemma_texts_one(e);
        lemma_pos_monotone(ts, 0, n, i, j);
        lemma_pos_monotone(ts, 0, n, j, k);
        lemma_join(s, pos(ts, i, n), pos(ts, j, n), pos(ts, k, n));
    } else {
        assert(s.subrange(pos(ts, i, n), pos(ts, i, n)) =~= seq![]);
    }
}

/// The concrete tree's tokens, read in order, are the text it was built from.
/// The element at `i` ends after `i`, within the tokens.
pub proof fn lemma_element_bounds(ts: Seq<(Token, int, int)>, s: Seq<u8>, i: int, c: Scope)
    requires
        tiles(ts, 0, s.len() as int),
        0 <= i < ts.len(),
    ensures
        i < element(ts, s, i, c).1 <= ts.len(),
{
    lemma_element_text(ts, s, i, c);
}

pub proof fn lemma_tree_lossless(s: Seq<u8>)
    ensures
        text_of(tree_of(s)) == s,
{
    let ts = lex_spec(s);
    let n = s.len() as int;
    lemma_lex_tiles(s, 0);
    lemma_items_text(ts, s, 0, Scope::Top);
    lemma_pos_monotone(ts, 0, n, 0, ts.len() as int);
    assert(s.subrange(0, n) =~= s);
}

pub struct SyntaxTree {
    pub green: GreenNode,
}

impl SyntaxTree {
    pub fn new(green: GreenNode) -> (r: SyntaxTree)
        ensures
            r.green == green,
    {
        SyntaxTree { green }
    }

    pub fn root(&self) -> (r: &GreenNode)
        ensures
            *r == self.green,
    {
        &self.green
    }
}

/// Builds a green tree depth first: `start_node` opens a node, `token` adds
/// a leaf to the innermost open node, `finish_node` closes it.
pub struct SyntaxTreeBuilder {
    open: Vec<(SyntaxKind, Vec<GreenElement>)>,
    root: Option<GreenNode>,
}

/// The open nodes, outermost first, each with the children it has so far.
pub open spec fn open_view(open: Seq<(SyntaxKind, Vec<GreenElement>)>) -> Seq<(SyntaxKind, Seq<GreenView>)> {
    Seq::new(open.len(), |k: int| (open[k].0, view_elems(open[k].1@)))
}

impl SyntaxTreeBuilder {
    pub closed spec fn open_nodes(&self) -> Seq<(SyntaxKind, Seq<GreenView>)> {
        open_view(self.open@)
    }

    /// The finished root, once the outermost node is closed.
    pub closed spec fn finished(&self) -> Option<GreenView> {
        match self.root {
            Some(n) => Some(view_node(n)),
            None => None,
        }
    }

    pub fn new() -> (r: SyntaxTreeBuilder)
        ensures
            r.open_nodes().len() == 0,
            r.finished() is None,
    {
        SyntaxTreeBuilder { open: Vec::new(), root: None }
    }

    pub fn start_node(&mut self, kind: SyntaxKind)
        requires
            old(self).finished() is None,
        ensures
            final(self).open_nodes() == old(self).open_nodes().push((kind, Seq::<GreenView>::empty())),
            final(self).finished() is None,
    {
        let ghost before = self.open@;
        self.open.push((kind, Vec::new()));
        assert(view_elems(Seq::<GreenElement>::empty()) =~= Seq::<GreenView>::empty());
        assert(open_view(self.open@) =~= open_view(before).push((kind, Seq::<GreenView>::empty())));
    }

    pub fn token(&mut self, kind: SyntaxKind, text: &str)
        requires
            old(self).open_nodes().len() > 0,
        ensures
            final(self).open_nodes() == old(self).open_nodes().update(
                old(self).open_nodes().len() - 1,
                (
                    old(self).open_nodes().last().0,
                    old(self).open_nodes().last().1.push(GreenView::Token(kind, utf8(text@))),
                ),
            ),
            final(self).finished() == old(self).finished(),
    {
        let ghost before = self.open@;
        let (k, mut cs) = self.open.pop().unwrap();
        let ghost rest = self.open@;
        let ghost old_cs = cs@;
        assert(rest == before.drop_last() && before.last() == (k, cs));
        let leaf = GreenElement::Token(GreenToken { kind, text: text.to_owned() });
        assert(view_elem(leaf) == GreenView::Token(kind, utf8(text@)));
        proof {
            lemma_views_push(cs@, leaf);
        }
        cs.push(leaf);
        self.open.push((k, cs));
        proof {
            let o = open_view(before);
            let t = o.update(before.len() - 1, (o.last().0, o.last().1.push(GreenView::Token(kind, utf8(text@)))));
            assert(self.open@ == rest.push((k, cs)));
            assert forall|j: int| 0 <= j < t.len() implies open_view(self.open@)[j] == t[j] by {
                if j < before.len() - 1 {
                    assert(self.open@[j] == before[j]);
                } else {
                    assert(view_elems(cs@) == view_elems(old_cs).push(GreenView::Token(kind, utf8(text@))));
                }
            }
            assert(open_view(self.open@) =~= t);
        }
    }

    /// Closes the innermost open node: it becomes the last child of the
    /// node around it, or the root if it was the outermost.
    pub fn finish_node(&mut self)
        requires
            old(self).open_nodes().len() > 0,
        ensures
            old(self).open_nodes().len() == 1 ==> final(self).open_nodes().len() == 0 && final(self).finished() == Some(
                GreenView::Node(old(self).open_nodes()[0].0, old(self).open_nodes()[0].1),
            ),
            old(self).open_nodes().len() > 1 ==> final(self).finished() == old(self).finished() && final(self).open_nodes() == ({
                let o = old(self).open_nodes();
                let n = o.len();
                o.subrange(0, n - 1).update(n - 2, (o[n - 2].0, o[n - 2].1.push(GreenView::Node(o[n - 1].0, o[n - 1].1))))
            }),
    {
        let ghost before = self.open@;
        let (k, cs) = self.open.pop().unwrap();
        assert(self.open@ == before.drop_last() && before.last() == (k, cs));
        let node = GreenNode { kind: k, children: cs };
        if self.open.len() == 0 {
            self.root = Some(node);
            assert(open_view(self.open@) =~= Seq::<(SyntaxKind, Seq<GreenView>)>::empty());
        } else {
            let ghost mid = self.open@;
            let (pk, mut pcs) = self.open.pop().unwrap();
            let ghost rest = self.open@;
            assert(rest == mid.drop_last() && mid.last() == (pk, pcs));
            let child = GreenElement::Node(node);
            proof {
                lemma_views_push(pcs@, child);
            }
            pcs.push(child);
            self.open.push((pk, pcs));
            proof {
                assert(self.open@ == rest.push((pk, pcs)));
                let o = open_view(before);
                let n = o.len();
                assert(mid =~= before.subrange(0, n - 1));
                assert(view_elem(child) == GreenView::Node(o[n - 1].0, o[n - 1].1));
                let t = o.subrange(0, n - 1).update(n - 2, (o[n - 2].0, o[n - 2].1.push(GreenView::Node(o[n - 1].0, o[n - 1].1))));
                assert forall|j: int| 0 <= j < t.len() implies open_view(self.open@)[j] == t[j] by {
                    if j < n - 2 {
                        assert(self.open@[j] == before[j]);
                    } else {
                        assert(mid.last() == before[n - 2]);
                    }
                }
                assert(open_view(self.open@) =~= t);
            }
        }
    }

    /// The tree, once its root is closed.
    pub fn finish(self) -> (r: SyntaxTree)
        requires
            self.finished() is Some,
        ensures
            Some(view_node(r.green)) == self.finished(),
    {
        match self.root {
            Some(green) => SyntaxTree { green },
            None => SyntaxTree { green: GreenNode { kind: SyntaxKind::Document, children: Vec::new() } },
        }
    }
}

} // verus!
