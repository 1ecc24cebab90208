//! Parsing entry points: the lossless concrete tree and the typed syntax tree.
use vstd::prelude::*;
use vstd::string::StringSliceAdditionalSpecFns;
use vstd::utf8::decode_utf8;
use crate::lexer::{tokenize, kw_start, kw_stop, kw_text, kw_document, start_bytes, stop_bytes, text_bytes, document_bytes};
use crate::syntax::{SyntaxTree, build_tree, tree_of, view_node, text_of, lemma_tree_lossless};
use crate::ast::{option_groups, lemma_nodes_view_empty, table_style, NodeV, node_view, nodes_view, lemma_nodes_view_push, find_byte, key_index, set_entry, options_from, options_in, option_pairs, bracket_at, context_form, tiled, tiled_from, lemma_tiled_first, lemma_tiled_ordered, lemma_ordered_widen, ConTeXtNode, CommandStyle, ArgumentStyle, SourceSpan, OptionList, span_of, span_at, newlines_before, line_begin, trim_start, trim_end, trimmed, node_ok, nodes_ok, ordered, unique_keys, is_line_command, is_scoped_command};
use crate::text::{Class, utf8, is_cut, is_space, is_markup, is_letter, run_end, lemma_run_end, scan, slice_str, space, has_at, bytes_at};

verus! {

/// The concrete syntax tree of `text`. It never fails: regions that open a
/// group or an environment and never close it, and tokens that close
/// nothing, are held in `Error` nodes.
pub fn parse_text(text: &str) -> (r: SyntaxTree)
    ensures
        view_node(r.green) == tree_of(text.spec_bytes()),
        text_of(view_node(r.green)) == text.spec_bytes(),
{
    let tokens = tokenize(text);
    let r = build_tree(&tokens, text);
    proof {
        lemma_tree_lossless(text.spec_bytes());
    }
    r
}

#[derive(Debug, Clone, Copy, PartialEq, Eq, Structural)]
pub enum ParseErrorKind {
    /// A byte that starts no node: `{`, `}` where no group is open, or `\`
    /// that no letter follows.
    UnexpectedChar,
    /// A `{` whose `}` never comes.
    UnclosedGroup,
    /// A `\start<name>` whose `\stop<name>` never comes.
    UnclosedEnvironment,
}

/// Why the text did not parse, and the byte offset where that was found.
#[derive(Debug, Clone, Copy, PartialEq, Eq, Structural)]
pub struct ParseError {
    pub kind: ParseErrorKind,
    pub position: usize,
}

/// A `{`, `}` or `\\` stands at `i`: every parse error points at one.
pub open spec fn at_markup(s: Seq<u8>, i: int) -> bool {
    0 <= i < s.len() && (s[i] == 0x7b || s[i] == 0x7d || s[i] == 0x5c)
}

/// The source being parsed, with the line number and line start of every
/// offset.
struct Src<'a> {
    text: &'a str,
    b: &'a [u8],
    lines: Vec<usize>,
    begins: Vec<usize>,
}

impl<'a> Src<'a> {
    spec fn ok(&self) -> bool {
        &&& self.b@ == self.text.spec_bytes()
        &&& self.lines@.len() == self.b@.len() + 1
        &&& self.begins@.len() == self.b@.len() + 1
        &&& forall|i: int| 0 <= i <= self.b@.len() ==> #[trigger] self.lines@[i] == newlines_before(self.b@, i)
        &&& forall|i: int| 0 <= i <= self.b@.len() ==> #[trigger] self.begins@[i] == line_begin(self.b@, i)
    }
}

proof fn lemma_line_facts(s: Seq<u8>, i: int)
    requires
        0 <= i <= s.len(),
    ensures
        0 <= newlines_before(s, i) <= i,
        0 <= line_begin(s, i) <= i,
    decreases i,
{
    if i > 0 {
        lemma_line_facts(s, i - 1);
    }
}

fn make_src(text: &str) -> (r: Src)
    ensures
        r.ok(),
        r.text == text,
{
    let b = text.as_bytes();
    let n = b.len();
    let mut lines: Vec<usize> = Vec::new();
    let mut begins: Vec<usize> = Vec::new();
    lines.push(0);
    begins.push(0);
    let mut i: usize = 0;
    while i < n
        invariant
            n == b@.len(),
            i <= n,
            lines@.len() == i + 1,
            begins@.len() == i + 1,
            forall|j: int| 0 <= j <= i ==> #[trigger] lines@[j] == newlines_before(b@, j),
            forall|j: int| 0 <= j <= i ==> #[trigger] begins@[j] == line_begin(b@, j),
        decreases n - i,
    {
        proof {
            lemma_line_facts(b@, i as int);
        }
        let l = lines[i];
        let g = begins[i];
        if b[i] == 0x0a {
            lines.push(l + 1);
            begins.push(i + 1);
        } else {
            lines.push(l);
            begins.push(g);
        }
        i = i + 1;
    }
    Src { text, b, lines, begins }
}

fn make_span(c: &Src, a: usize, e: usize) -> (r: SourceSpan)
    requires
        c.ok(),
        a < e <= c.b@.len(),
    ensures
        r == span_at(c.b@, a as int, e as int),
{
    proof {
        lemma_line_facts(c.b@, a as int);
    }
    SourceSpan { start: a, end: e, start_line: c.lines[a] + 1, start_col: a - c.begins[a] + 1 }
}

pub(crate) proof fn lemma_trim_start(s: Seq<u8>, a: int, b: int)
    requires
        0 <= a <= b <= s.len(),
        is_cut(s, a),
    ensures
        a <= trim_start(s, a, b) <= b,
        is_cut(s, trim_start(s, a, b)),
    decreases b - a,
{
    if a < b && is_space(s[a]) {
        lemma_trim_start(s, a + 1, b);
    }
}

pub(crate) proof fn lemma_trim_end(s: Seq<u8>, a: int, b: int)
    requires
        0 <= a <= b <= s.len(),
        is_cut(s, b),
    ensures
        a <= trim_end(s, a, b) <= b,
        is_cut(s, trim_end(s, a, b)),
    decreases b - a,
{
    if a < b && 0 < b && is_space(s[b - 1]) {
        lemma_trim_end(s, a, b - 1);
    }
}

/// The bounds of `s[a..b]` without its surrounding white space.
pub(crate) fn trim_bounds(s: &[u8], a: usize, b: usize) -> (r: (usize, usize))
    requires
        a <= b <= s@.len(),
    ensures
        r.0 == trim_start(s@, a as int, b as int),
        r.1 == trim_end(s@, r.0 as int, b as int),
        a <= r.0 <= r.1 <= b,
{
    let mut i = a;
    while i < b && space(s[i])
        invariant
            a <= i <= b <= s@.len(),
            trim_start(s@, a as int, b as int) == trim_start(s@, i as int, b as int),
        decreases b - i,
    {
        i = i + 1;
    }
    let mut j = b;
    while j > i && space(s[j - 1])
        invariant
            i <= j <= b <= s@.len(),
            trim_end(s@, i as int, b as int) == trim_end(s@, i as int, j as int),
        decreases j - i,
    {
        j = j - 1;
    }
    (i, j)
}

/// `s[a..b]` without its surrounding white space.
fn trimmed_str(c: &Src, a: usize, b: usize) -> (r: String)
    requires
        c.ok(),
        a <= b <= c.b@.len(),
        is_cut(c.b@, a as int),
        is_cut(c.b@, b as int),
    ensures
        utf8(r@) == trimmed(c.b@, a as int, b as int),
{
    let (x, y) = trim_bounds(c.b, a, b);
    proof {
        lemma_trim_start(c.b@, a as int, b as int);
        lemma_trim_end(c.b@, x as int, b as int);
    }
    slice_str(c.text, x, y)
}

/// A text node: the longest run of bytes other than `\`, `%`, `{`, `}`
/// from `pos`.
fn parse_plain(c: &Src, pos: usize) -> (r: (ConTeXtNode, usize))
    requires
        c.ok(),
        pos < c.b@.len(),
        !is_markup(c.b@[pos as int]),
        is_cut(c.b@, pos as int),
    ensures
        node_ok(c.b@, r.0),
        span_of(r.0) == Some(span_at(c.b@, pos as int, r.1 as int)),
        r.1 == run_end(c.b@, pos as int, Class::Plain),
        pos < r.1 <= c.b@.len(),
        is_cut(c.b@, r.1 as int),
        node_view(r.0) == NodeV::Text(c.b@.subrange(pos as int, r.1 as int), span_at(c.b@, pos as int, r.1 as int)),
{
    let e = scan(c.b, pos, Class::Plain);
    proof {
        lemma_run_end(c.b@, pos as int, Class::Plain);
    }
    let content = slice_str(c.text, pos, e);
    let span = make_span(c, pos, e);
    (ConTeXtNode::Text { content, span }, e)
}

/// A comment: `%` up to the end of the line, the newline excluded.
fn parse_comment(c: &Src, pos: usize) -> (r: (ConTeXtNode, usize))
    requires
        c.ok(),
        pos < c.b@.len(),
        c.b@[pos as int] == 0x25,
        is_cut(c.b@, pos as int),
    ensures
        node_ok(c.b@, r.0),
        span_of(r.0) == Some(span_at(c.b@, pos as int, r.1 as int)),
        pos < r.1 <= c.b@.len(),
        is_cut(c.b@, r.1 as int),
        r.1 == run_end(c.b@, pos + 1, Class::InLine),
        node_view(r.0) == NodeV::Comment(trimmed(c.b@, pos + 1, r.1 as int), span_at(c.b@, pos as int, r.1 as int)),
{
    let n = c.b.len();
    assert(pos + 1 <= n);
    let e = scan(c.b, pos + 1, Class::InLine);
    proof {
        lemma_run_end(c.b@, pos as int + 1, Class::InLine);
    }
    let content = trimmed_str(c, pos + 1, e);
    let span = make_span(c, pos, e);
    (ConTeXtNode::Comment { content, span }, e)
}

/// Sets `key` to `value`, in place if the key is already there.
fn set_option(os: &mut OptionList, key: String, value: String)
    requires
        unique_keys(old(os)@),
    ensures
        unique_keys(final(os)@),
        option_pairs(final(os)@) == set_entry(option_pairs(old(os)@), utf8(key@), utf8(value@)),
{
    let mut k: usize = 0;
    while k < os.len()
        invariant
            k <= os@.len(),
            unique_keys(os@),
            os@ == old(os)@,
            forall|j: int| 0 <= j < k ==> (#[trigger] os@[j]).0@ != key@,
        decreases os@.len() - k,
    {
        if os[k].0 == key {
            let ghost before = os@;
            os.remove(k);
            os.insert(k, (key, value));
            proof {
                assert(os@ =~= before.update(k as int, (key, value)));
                assert forall|a: int, b: int| 0 <= a < b < os@.len() implies (#[trigger] os@[a]).0@ != (#[trigger] os@[b]).0@ by {
                    assert(before[a].0@ != before[b].0@);
                }
                lemma_key_index_at(before, utf8(key@), k as int);
                assert(option_pairs(os@) =~= option_pairs(before).update(k as int, (utf8(key@), utf8(value@))));
            }
            return;
        }
        k = k + 1;
    }
    let ghost before = os@;
    os.push((key, value));
    proof {
        assert forall|a: int, b: int| 0 <= a < b < os@.len() implies (#[trigger] os@[a]).0@ != (#[trigger] os@[b]).0@ by {
            if b < before.len() {
                assert(before[a].0@ != before[b].0@);
            } else {
                assert(os@[a] == before[a]);
            }
        }
        assert forall|j: int| 0 <= j < before.len() implies utf8((#[trigger] before[j]).0@) != utf8(key@) by {
            if utf8(before[j].0@) == utf8(key@) {
                lemma_utf8_injective(before[j].0@, key@);
            }
        }
        lemma_key_index_none(before, utf8(key@));
        assert(option_pairs(os@) =~= option_pairs(before).push((utf8(key@), utf8(value@))));
    }
}

/// Keys that differ as text differ as bytes.
proof fn lemma_utf8_injective(a: Seq<char>, b: Seq<char>)
    requires
        utf8(a) == utf8(b),
    ensures
        a == b,
{
    vstd::utf8::encode_utf8_decode_utf8(a);
    vstd::utf8::encode_utf8_decode_utf8(b);
}

proof fn lemma_key_index_none(os: Seq<(String, String)>, key: Seq<u8>)
    requires
        forall|j: int| 0 <= j < os.len() ==> utf8((#[trigger] os[j]).0@) != key,
    ensures
        key_index(option_pairs(os), key) == -1,
    decreases os.len(),
{
    if os.len() > 0 {
        assert(option_pairs(os).drop_last() =~= option_pairs(os.drop_last()));
        assert(forall|j: int| 0 <= j < os.drop_last().len() ==> #[trigger] os.drop_last()[j] == os[j]);
        lemma_key_index_none(os.drop_last(), key);
    }
}

proof fn lemma_key_index_at(os: Seq<(String, String)>, key: Seq<u8>, k: int)
    requires
        unique_keys(os),
        0 <= k < os.len(),
        utf8(os[k].0@) == key,
    ensures
        key_index(option_pairs(os), key) == k,
    decreases os.len(),
{
    assert(option_pairs(os).drop_last() =~= option_pairs(os.drop_last()));
    if k < os.len() - 1 {
        let l = os.len() - 1;
        if utf8(os[l].0@) == key {
            lemma_utf8_injective(os[l].0@, os[k].0@);
            assert(os[k].0@ != os[l].0@);
        }
        assert(forall|j: int| 0 <= j < os.drop_last().len() ==> #[trigger] os.drop_last()[j] == os[j]);
        assert(unique_keys(os.drop_last())) by {
            assert forall|a: int, b: int| 0 <= a < b < os.drop_last().len() implies (#[trigger] os.drop_last()[a]).0@ != (#[trigger] os.drop_last()[b]).0@ by {
                assert(os[a].0@ != os[b].0@);
            }
        }
        lemma_key_index_at(os.drop_last(), key, k);
    }
}

/// The options written between the brackets at `a - 1` and `b`: entries
/// split on `,`, each split on its first `=`; keys and values trimmed; a
/// bare key stands for `key=true`; empty entries are skipped; a later value
/// for the same key wins.
fn parse_options(c: &Src, a: usize, b: usize) -> (r: OptionList)
    requires
        c.ok(),
        0 < a <= b < c.b@.len(),
        c.b@[a - 1] == 0x5b,
        c.b@[b as int] == 0x5d,
    ensures
        unique_keys(r@),
        option_pairs(r@) == options_in(c.b@, a as int, b as int),
{
    let mut out: OptionList = Vec::new();
    assert(option_pairs(out@) =~= Seq::<(Seq<u8>, Seq<u8>)>::empty());
    add_options(c, a, b, &mut out);
    out
}

/// Adds the options of the consecutive option groups from `i` on to `out`,
/// and returns where what follows them starts.
fn take_option_groups(c: &Src, i: usize, out: &mut OptionList) -> (r: usize)
    requires
        c.ok(),
        i <= c.b@.len(),
        unique_keys(old(out)@),
    ensures
        unique_keys(final(out)@),
        (option_pairs(final(out)@), r as int) == option_groups(c.b@, i as int, option_pairs(old(out)@)),
        i <= r <= c.b@.len(),
        r == i <==> bracket_at(c.b@, i as int) is None,
        is_cut(c.b@, i as int) ==> is_cut(c.b@, r as int),
{
    let ghost s = c.b@;
    let n = c.b.len();
    let mut j = i;
    loop
        invariant
            c.ok(),
            s == c.b@,
            n == s.len(),
            i <= j <= s.len(),
            unique_keys(out@),
            option_groups(s, i as int, option_pairs(old(out)@)) == option_groups(s, j as int, option_pairs(out@)),
            j == i || s[j - 1] == 0x5d,
            j == i ==> out@ == old(out)@,
            j > i ==> bracket_at(s, i as int) is Some,
        decreases s.len() - j,
    {
        match bracket_end(c, j) {
            Some(k) => {
                add_options(c, j + 1, k, out);
                j = k + 1;
            },
            None => {
                return j;
            },
        }
    }
}

/// Adds the options written between the brackets at `a - 1` and `b` to
/// `out`.
fn add_options(c: &Src, a: usize, b: usize, out: &mut OptionList)
    requires
        c.ok(),
        0 < a <= b < c.b@.len(),
        c.b@[a - 1] == 0x5b,
        c.b@[b as int] == 0x5d,
        unique_keys(old(out)@),
    ensures
        unique_keys(final(out)@),
        option_pairs(final(out)@) == options_from(c.b@, a as int, b as int, option_pairs(old(out)@)),
{
    let ghost s = c.b@;
    let ghost acc0 = option_pairs(out@);
    let n = c.b.len();
    let mut i = a;
    while i <= b
        invariant
            c.ok(),
            s == c.b@,
            n == s.len(),
            0 < a <= i <= b + 1,
            b < c.b@.len(),
            c.b@[a - 1] == 0x5b,
            c.b@[b as int] == 0x5d,
            i <= b ==> is_cut(c.b@, i as int),
            unique_keys(out@),
            options_from(s, a as int, b as int, acc0) == options_from(s, i as int, b as int, option_pairs(out@)),
        decreases b + 1 - i,
    {
        // The entry runs to the next `,` or to the closing bracket.
        let mut j = i;
        while j < b && c.b[j] != 0x2c
            invariant
                i <= j <= b,
                b < c.b@.len(),
                s == c.b@,
                find_byte(s, i as int, b as int, 0x2c) == find_byte(s, j as int, b as int, 0x2c),
            decreases b - j,
        {
            j = j + 1;
        }
        let mut k = i;
        while k < j && c.b[k] != 0x3d
            invariant
                i <= k <= j <= b,
                b < c.b@.len(),
                s == c.b@,
                find_byte(s, i as int, j as int, 0x3d) == find_byte(s, k as int, j as int, 0x3d),
            decreases j - k,
        {
            k = k + 1;
        }
        let ghost acc = option_pairs(out@);
        proof {
            assert(c.b@[j as int] < 0x80);
            assert(is_cut(c.b@, j as int));
            assert(is_cut(c.b@, k as int));
            if k < j {
                assert(c.b@[k as int] == 0x3d);
                assert(is_cut(c.b@, k + 1));
            }
            assert(j + 1 < c.b@.len() ==> is_cut(c.b@, j + 1));
        }
        let key = trimmed_str(c, i, k);
        if key.as_str().as_bytes().len() > 0 {
            let value = if k < j {
                trimmed_str(c, k + 1, j)
            } else {
                "true".to_owned()
            };
            set_option(out, key, value);
        }
        assert(options_from(s, i as int, b as int, acc) == options_from(s, j + 1, b as int, option_pairs(out@)));
        i = j + 1;
    }
}

proof fn lemma_nodes_push(s: Seq<u8>, ns: Seq<ConTeXtNode>, x: ConTeXtNode)
    ensures
        nodes_ok(s, ns.push(x)) == (nodes_ok(s, ns) && node_ok(s, x)),
{
    assert(ns.push(x).drop_last() =~= ns);
}

proof fn lemma_ordered_push(ns: Seq<ConTeXtNode>, lo: int, hi: int, x: ConTeXtNode)
    requires
        span_of(x) is Some,
        ordered(ns, lo, span_of(x)->Some_0.start as int),
        span_of(x)->Some_0.start < span_of(x)->Some_0.end <= hi,
    ensures
        ordered(ns.push(x), lo, hi),
{
    assert(ns.push(x).drop_last() =~= ns);
}

proof fn lemma_tiled_push(ns: Seq<ConTeXtNode>, lo: int, x: ConTeXtNode)
    requires
        span_of(x) is Some,
        tiled(ns, lo, span_of(x)->Some_0.start as int),
        span_of(x)->Some_0.start < span_of(x)->Some_0.end,
    ensures
        tiled(ns.push(x), lo, span_of(x)->Some_0.end as int),
{
    assert(ns.push(x).drop_last() =~= ns);
}

proof fn lemma_tiled_bounds(ns: Seq<ConTeXtNode>, lo: int, hi: int)
    requires
        tiled(ns, lo, hi),
    ensures
        lo <= hi,
    decreases ns.len(),
{
    if ns.len() > 0 {
        lemma_tiled_bounds(ns.drop_last(), lo, span_of(ns.last())->Some_0.start as int);
    }
}

proof fn lemma_ordered_concat(a: Seq<ConTeXtNode>, b: Seq<ConTeXtNode>, lo: int, mid: int, hi: int)
    requires
        ordered(a, lo, mid),
        ordered(b, mid, hi),
    ensures
        ordered(a + b, lo, hi),
    decreases b.len(),
{
    if b.len() == 0 {
        assert(a + b =~= a);
        lemma_ordered_widen(a, lo, mid, lo, hi);
    } else {
        assert((a + b).drop_last() =~= a + b.drop_last());
        assert((a + b).last() == b.last());
        lemma_ordered_concat(a, b.drop_last(), lo, mid, span_of(b.last())->Some_0.start as int);
    }
}

proof fn lemma_nodes_concat(s: Seq<u8>, a: Seq<ConTeXtNode>, b: Seq<ConTeXtNode>)
    requires
        nodes_ok(s, a),
        nodes_ok(s, b),
    ensures
        nodes_ok(s, a + b),
    decreases b.len(),
{
    if b.len() == 0 {
        assert(a + b =~= a);
    } else {
        assert((a + b).drop_last() =~= a + b.drop_last());
        assert((a + b).last() == b.last());
        lemma_nodes_concat(s, a, b.drop_last());
    }
}

/// Where a run of sibling nodes ends.
pub enum Until {
    /// At the end of the text.
    End,
    /// Before a `}`.
    Brace,
    /// Before the given bytes (the stop tag of an environment).
    Tag(Vec<u8>),
    /// Before `\starttext` or `\startdocument`, or at the end of the text.
    DocStart,
}

/// The value of an `Until`.
pub enum Stop {
    End,
    Brace,
    Tag(Seq<u8>),
    DocStart,
}

pub open spec fn stop_view(u: Until) -> Stop {
    match u {
        Until::End => Stop::End,
        Until::Brace => Stop::Brace,
        Until::Tag(t) => Stop::Tag(t@),
        Until::DocStart => Stop::DocStart,
    }
}

pub open spec fn stops(s: Seq<u8>, e: int, u: Stop) -> bool {
    match u {
        Stop::End => e == s.len(),
        Stop::Brace => e < s.len() && s[e] == 0x7d,
        Stop::Tag(t) => has_at(s, e, t),
        Stop::DocStart => e == s.len() || has_at(s, e, kw_start() + kw_text()) || has_at(s, e, kw_start() + kw_document()),
    }
}

/// No node of `ns` starts where `u` would end the run.
pub open spec fn starts_free(s: Seq<u8>, ns: Seq<ConTeXtNode>, u: Stop) -> bool {
    forall|k: int|
        0 <= k < ns.len() ==> span_of(#[trigger] ns[k]) is Some && !stops(s, span_of(ns[k])->Some_0.start as int, u)
}

/// `r` with `xs` put before the nodes of a success.
pub open spec fn prepend(xs: Seq<NodeV>, r: Result<(Seq<NodeV>, int), ParseError>) -> Result<(Seq<NodeV>, int), ParseError> {
    match r {
        Ok((ys, f)) => Ok((xs + ys, f)),
        Err(e) => Err(e),
    }
}

/// `e` with the end of the text, where a run stopped unclosed, replaced by
/// the offset `at` of what opened it.
pub open spec fn reopened(s: Seq<u8>, e: ParseError, at: int) -> ParseError {
    ParseError { kind: e.kind, position: if e.position == s.len() { at as usize } else { e.position } }
}

pub open spec fn error_at(kind: ParseErrorKind, p: int) -> ParseError {
    ParseError { kind, position: p as usize }
}

/// The option group at `i`, if any, and where what follows it starts.
pub open spec fn leading_options(s: Seq<u8>, i: int) -> (Seq<(Seq<u8>, Seq<u8>)>, int) {
    match bracket_at(s, i) {
        Some(k) => (options_in(s, i + 1, k), k + 1),
        None => (seq![], i),
    }
}

// The grammar of the typed tree. Each function gives the node (or the run
// of nodes) that starts at an offset of `s`, and the offset after it, or the
// error met there.

/// A run of sibling nodes from `p` up to where `u` ends it.
pub open spec fn seq_spec(s: Seq<u8>, p: int, u: Stop) -> Result<(Seq<NodeV>, int), ParseError>
    decreases s.len() - p, 2int,
{
    if p < 0 || p > s.len() {
        Err(error_at(ParseErrorKind::UnexpectedChar, p))
    } else if stops(s, p, u) {
        Ok((seq![], p))
    } else if p == s.len() {
        Err(error_at(if u is Brace { ParseErrorKind::UnclosedGroup } else { ParseErrorKind::UnclosedEnvironment }, p))
    } else if s[p] == 0x7d {
        Err(error_at(ParseErrorKind::UnexpectedChar, p))
    } else {
        match node_spec(s, p) {
            Err(e) => Err(e),
            Ok((x, e)) => if e <= p || e > s.len() {
                Err(error_at(ParseErrorKind::UnexpectedChar, p))
            } else {
                prepend(seq![x], seq_spec(s, e, u))
            },
        }
    }
}

/// The node at `p`: a comment, an environment, a command or text.
pub open spec fn node_spec(s: Seq<u8>, p: int) -> Result<(NodeV, int), ParseError>
    decreases s.len() - p, 1int,
{
    if p < 0 || p >= s.len() {
        Err(error_at(ParseErrorKind::UnexpectedChar, p))
    } else if s[p] == 0x25 {
        let e = run_end(s, p + 1, Class::InLine);
        Ok((NodeV::Comment(trimmed(s, p + 1, e), span_at(s, p, e)), e))
    } else if s[p] == 0x5c {
        let ne = run_end(s, p + 1, Class::Letter);
        if ne <= p + 1 {
            Err(error_at(ParseErrorKind::UnexpectedChar, p))
        } else if ne - p > 6 && has_at(s, p, kw_start()) {
            startstop_spec(s, p, ne)
        } else {
            command_spec(s, p, ne)
        }
    } else if s[p] == 0x7b || s[p] == 0x7d {
        Err(error_at(ParseErrorKind::UnexpectedChar, p))
    } else {
        let e = run_end(s, p, Class::Plain);
        Ok((NodeV::Text(s.subrange(p, e), span_at(s, p, e)), e))
    }
}

/// The contents of the group that opens at `i`, from `p` on, and the offset
/// after its `}`; a group-scoped command takes the rest of the group.
pub open spec fn group_from(s: Seq<u8>, i: int, p: int) -> Result<(Seq<NodeV>, int), ParseError>
    decreases s.len() - p, 3int,
{
    if p < 0 || p > s.len() {
        Err(error_at(ParseErrorKind::UnexpectedChar, i))
    } else if p == s.len() {
        Err(error_at(ParseErrorKind::UnclosedGroup, i))
    } else if s[p] == 0x7d {
        Ok((seq![], p + 1))
    } else {
        match node_spec(s, p) {
            Err(e) => Err(e),
            Ok((x, e)) => if e <= p || e > s.len() {
                Err(error_at(ParseErrorKind::UnexpectedChar, p))
            } else {
                match x {
                    NodeV::Command(name, style, ArgumentStyle::GroupScoped, opts, _, _) => match seq_spec(s, e, Stop::Brace) {
                        Err(er) => Err(reopened(s, er, i)),
                        Ok((rest, e2)) => Ok((
                            seq![NodeV::Command(name, style, ArgumentStyle::GroupScoped, opts, rest, span_at(s, p, e2))],
                            e2 + 1,
                        )),
                    },
                    _ => prepend(seq![x], group_from(s, i, e)),
                }
            },
        }
    }
}

/// `\start<name>` (whose letters end at `ne`), optional options, the
/// content, and `\stop<name>`.
pub open spec fn startstop_spec(s: Seq<u8>, p: int, ne: int) -> Result<(NodeV, int), ParseError>
    decreases s.len() - p, 0int,
{
    let name = s.subrange(p + 6, ne);
    let tag = kw_stop() + name;
    let (opts, i) = leading_options(s, ne);
    if i <= p || i > s.len() {
        Err(error_at(ParseErrorKind::UnexpectedChar, p))
    } else {
        match seq_spec(s, i, Stop::Tag(tag)) {
            Err(er) => Err(reopened(s, er, p)),
            Ok((content, e)) => Ok((NodeV::StartStop(name, opts, content, span_at(s, p, e + tag.len())), e + tag.len())),
        }
    }
}

/// A command whose name ends at `ne`.
pub open spec fn command_spec(s: Seq<u8>, p: int, ne: int) -> Result<(NodeV, int), ParseError>
    decreases s.len() - p, 0int,
{
    let name = s.subrange(p + 1, ne);
    if context_form(s, ne) {
        let k1 = bracket_at(s, ne)->Some_0;
        let k2 = bracket_at(s, k1 + 1)->Some_0;
        Ok((
            NodeV::Command(
                name,
                CommandStyle::ContextStyle,
                ArgumentStyle::Explicit,
                options_in(s, k1 + 2, k2),
                seq![NodeV::Text(s.subrange(ne + 1, k1), span_at(s, ne + 1, k1))],
                span_at(s, p, k2 + 1),
            ),
            k2 + 1,
        ))
    } else {
        let (opts, i) = option_groups(s, ne, seq![]);
        match table_style(decode_utf8(name)) {
            ArgumentStyle::GroupScoped => Ok((
                NodeV::Command(name, CommandStyle::TexStyle, ArgumentStyle::GroupScoped, seq![], seq![], span_at(s, p, ne)),
                ne,
            )),
            ArgumentStyle::LineEnding => {
                let e = run_end(s, i, Class::PlainInLine);
                let x = trim_start(s, i, e);
                let y = trim_end(s, x, e);
                let args = if x < y { seq![NodeV::Text(s.subrange(x, y), span_at(s, x, y))] } else { seq![] };
                Ok((NodeV::Command(name, CommandStyle::TexStyle, ArgumentStyle::LineEnding, opts, args, span_at(s, p, e)), e))
            },
            ArgumentStyle::Explicit => if i < s.len() && s[i] == 0x7b && i > p {
                match group_from(s, i, i + 1) {
                    Err(er) => Err(er),
                    Ok((args, e)) => {
                        let (opts2, j) = if bracket_at(s, ne) is None { option_groups(s, e, seq![]) } else { (opts, e) };
                        Ok((NodeV::Command(name, CommandStyle::TexStyle, ArgumentStyle::Explicit, opts2, args, span_at(s, p, j)), j))
                    },
                }
            } else {
                Ok((NodeV::Command(name, CommandStyle::TexStyle, ArgumentStyle::Explicit, opts, seq![], span_at(s, p, i)), i))
            },
        }
    }
}

/// The typed tree of the text `s`.
pub open spec fn document_spec(s: Seq<u8>) -> Result<NodeV, ParseError> {
    match seq_spec(s, 0, Stop::DocStart) {
        Err(e) => Err(e),
        Ok((pre, e)) => if e == s.len() {
            Ok(NodeV::Document(seq![], pre))
        } else {
            let is_text = has_at(s, e, kw_start() + kw_text());
            let mlen: int = if is_text { 10 } else { 14 };
            let stop = if is_text { kw_stop() + kw_text() } else { kw_stop() + kw_document() };
            match seq_spec(s, e + mlen, Stop::Tag(stop)) {
                Err(er) => Err(reopened(s, er, e)),
                Ok((body, e2)) => Ok(NodeV::Document(pre, body)),
            }
        },
    }
}

pub open spec fn one_view(r: Result<(ConTeXtNode, usize), ParseError>) -> Result<(NodeV, int), ParseError> {
    match r {
        Ok((x, e)) => Ok((node_view(x), e as int)),
        Err(er) => Err(er),
    }
}

pub open spec fn many_view(r: Result<(Vec<ConTeXtNode>, usize), ParseError>) -> Result<(Seq<NodeV>, int), ParseError> {
    match r {
        Ok((xs, e)) => Ok((nodes_view(xs@), e as int)),
        Err(er) => Err(er),
    }
}

fn starttext_bytes() -> (r: Vec<u8>)
    ensures
        r@ == kw_start() + kw_text(),
{
    let mut r = start_bytes();
    let mut t = text_bytes();
    r.append(&mut t);
    r
}

fn startdocument_bytes() -> (r: Vec<u8>)
    ensures
        r@ == kw_start() + kw_document(),
{
    let mut r = start_bytes();
    let mut t = document_bytes();
    r.append(&mut t);
    r
}

fn stops_at(c: &Src, e: usize, u: &Until) -> (r: bool)
    requires
        c.ok(),
        e <= c.b@.len(),
    ensures
        r == stops(c.b@, e as int, stop_view(*u)),
{
    match u {
        Until::End => e == c.b.len(),
        Until::Brace => e < c.b.len() && c.b[e] == 0x7d,
        Until::Tag(t) => bytes_at(c.b, e, t.as_slice()),
        Until::DocStart => {
            let st = starttext_bytes();
            let sd = startdocument_bytes();
            e == c.b.len() || bytes_at(c.b, e, st.as_slice()) || bytes_at(c.b, e, sd.as_slice())
        },
    }
}

/// The end of the bracket group that opens at `i`, if `s[i]` is `[` and a
/// `]` follows.
fn bracket_end(c: &Src, i: usize) -> (r: Option<usize>)
    requires
        c.ok(),
        i <= c.b@.len(),
    ensures
        r matches Some(k) ==> i < k < c.b@.len() && c.b@[i as int] == 0x5b && c.b@[k as int] == 0x5d
            && bracket_at(c.b@, i as int) == Some(k as int),
        r is None ==> bracket_at(c.b@, i as int) is None,
{
    if i < c.b.len() && c.b[i] == 0x5b {
        let k = scan(c.b, i + 1, Class::InBracket);
        proof {
            lemma_run_end(c.b@, i + 1, Class::InBracket);
        }
        if k < c.b.len() {
            return Some(k);
        }
    }
    None
}

fn is_line_name(name: &str) -> (r: bool)
    ensures
        r == is_line_command(name@),
{
    name.to_owned() == "item".to_owned()
}

fn is_scoped_name(name: &str) -> (r: bool)
    ensures
        r == is_scoped_command(name@),
{
    let n = name.to_owned();
    n == "bf".to_owned() || n == "it".to_owned() || n == "em".to_owned() || n == "tt".to_owned()
        || n == "rm".to_owned() || n == "sf".to_owned() || n == "sc".to_owned() || n == "sl".to_owned()
}

/// The sibling nodes from `pos` up to where `u` says the run ends.
fn parse_seq(c: &Src, pos: usize, u: &Until) -> (r: Result<(Vec<ConTeXtNode>, usize), ParseError>)
    requires
        c.ok(),
        pos <= c.b@.len(),
        is_cut(c.b@, pos as int),
    ensures
        r matches Ok((ns, e)) ==> pos <= e <= c.b@.len() && is_cut(c.b@, e as int) && nodes_ok(c.b@, ns@)
            && tiled(ns@, pos as int, e as int) && stops(c.b@, e as int, stop_view(*u)),
        r matches Err(err) ==> at_markup(c.b@, err.position as int) || (err.position == c.b@.len() && (*u is Brace || *u is Tag)),
        many_view(r) == seq_spec(c.b@, pos as int, stop_view(*u)),
        r matches Ok((ns, e)) ==> starts_free(c.b@, ns@, stop_view(*u)),
    decreases c.b@.len() - pos, 2int,
{
    let n = c.b.len();
    let ghost s = c.b@;
    let ghost st = stop_view(*u);
    let mut out: Vec<ConTeXtNode> = Vec::new();
    let mut p = pos;
    assert(prepend(nodes_view(out@), seq_spec(s, p as int, st)) =~= seq_spec(s, p as int, st)) by {
        match seq_spec(s, p as int, st) {
            Ok((ys, f)) => { assert(nodes_view(out@) + ys =~= ys); },
            Err(_) => {},
        }
    }
    loop
        invariant
            c.ok(),
            s == c.b@,
            st == stop_view(*u),
            n == c.b@.len(),
            pos <= p <= n,
            is_cut(c.b@, p as int),
            nodes_ok(c.b@, out@),
            tiled(out@, pos as int, p as int),
            seq_spec(s, pos as int, st) == prepend(nodes_view(out@), seq_spec(s, p as int, st)),
            starts_free(s, out@, st),
        decreases n - p,
    {
        if stops_at(c, p, u) {
            return Ok((out, p));
        }
        if p == n {
            let kind = match u {
                Until::Brace => ParseErrorKind::UnclosedGroup,
                _ => ParseErrorKind::UnclosedEnvironment,
            };
            return Err(ParseError { kind, position: p });
        }
        if c.b[p] == 0x7d {
            return Err(ParseError { kind: ParseErrorKind::UnexpectedChar, position: p });
        }
        let (node, e) = match parse_node(c, p) {
            Ok(v) => v,
            Err(err) => {
                return Err(err);
            },
        };
        proof {
            lemma_nodes_push(c.b@, out@, node);
            lemma_tiled_push(out@, pos as int, node);
            lemma_nodes_view_push(out@, node);
            assert forall|k: int| 0 <= k < out@.push(node).len() implies span_of(#[trigger] out@.push(node)[k]) is Some
                && !stops(s, span_of(out@.push(node)[k])->Some_0.start as int, st) by {
                if k < out@.len() {
                    assert(out@.push(node)[k] == out@[k]);
                }
            }
            let r2 = seq_spec(s, e as int, st);
            assert(seq_spec(s, p as int, st) == prepend(seq![node_view(node)], r2));
            match r2 {
                Ok((ys, f)) => {
                    assert(nodes_view(out@) + (seq![node_view(node)] + ys) =~= nodes_view(out@).push(node_view(node)) + ys);
                },
                Err(_) => {},
            }
        }
        out.push(node);
        p = e;
    }
}

/// The node that starts at `p`.
fn parse_node(c: &Src, p: usize) -> (r: Result<(ConTeXtNode, usize), ParseError>)
    requires
        c.ok(),
        p < c.b@.len(),
        is_cut(c.b@, p as int),
    ensures
        r matches Ok((x, e)) ==> p < e <= c.b@.len() && is_cut(c.b@, e as int) && node_ok(c.b@, x)
            && span_of(x) == Some(span_at(c.b@, p as int, e as int)),
        r matches Err(err) ==> at_markup(c.b@, err.position as int),
        one_view(r) == node_spec(c.b@, p as int),
    decreases c.b@.len() - p, 1int,
{
    let n = c.b.len();
    let b = c.b[p];
    if b == 0x25 {
        Ok(parse_comment(c, p))
    } else if b == 0x5c {
        let ne = scan(c.b, p + 1, Class::Letter);
        proof {
            lemma_run_end(c.b@, p + 1, Class::Letter);
        }
        if ne == p + 1 {
            return Err(ParseError { kind: ParseErrorKind::UnexpectedChar, position: p });
        }
        let st = start_bytes();
        if ne - p > 6 && bytes_at(c.b, p, st.as_slice()) {
            parse_startstop(c, p, ne)
        } else {
            parse_command(c, p, ne)
        }
    } else if b == 0x7b || b == 0x7d {
        Err(ParseError { kind: ParseErrorKind::UnexpectedChar, position: p })
    } else {
        Ok(parse_plain(c, p))
    }
}

/// The contents of the brace group that opens at `i`, and the offset after
/// its `}`. A group-scoped command inside takes the rest of the group as
/// its arguments.
fn parse_group(c: &Src, i: usize) -> (r: Result<(Vec<ConTeXtNode>, usize), ParseError>)
    requires
        c.ok(),
        i < c.b@.len(),
        c.b@[i as int] == 0x7b,
    ensures
        r matches Ok((ns, e)) ==> i + 1 < e <= c.b@.len() && c.b@[e - 1] == 0x7d && nodes_ok(c.b@, ns@)
            && tiled(ns@, i + 1, e - 1),
        r matches Err(err) ==> at_markup(c.b@, err.position as int),
        many_view(r) == group_from(c.b@, i as int, i + 1),
    decreases c.b@.len() - i, 3int,
{
    let n = c.b.len();
    let ghost s = c.b@;
    let mut out: Vec<ConTeXtNode> = Vec::new();
    let mut p = i + 1;
    assert(prepend(nodes_view(out@), group_from(s, i as int, p as int)) =~= group_from(s, i as int, p as int)) by {
        match group_from(s, i as int, p as int) {
            Ok((ys, f)) => { assert(nodes_view(out@) + ys =~= ys); },
            Err(_) => {},
        }
    }
    loop
        invariant
            c.ok(),
            s == c.b@,
            group_from(s, i as int, i + 1) == prepend(nodes_view(out@), group_from(s, i as int, p as int)),
            n == c.b@.len(),
            i < p <= n,
            c.b@[i as int] == 0x7b,
            is_cut(c.b@, p as int),
            nodes_ok(c.b@, out@),
            tiled(out@, i + 1, p as int),
        decreases n - p,
    {
        if p == n {
            return Err(ParseError { kind: ParseErrorKind::UnclosedGroup, position: i });
        }
        if c.b[p] == 0x7d {
            return Ok((out, p + 1));
        }
        let (node, e) = match parse_node(c, p) {
            Ok(v) => v,
            Err(err) => {
                return Err(err);
            },
        };
        let scoped = match &node {
            ConTeXtNode::Command { arg_style, .. } => *arg_style == ArgumentStyle::GroupScoped,
            _ => false,
        };
        if scoped {
            let (rest, e2) = match parse_seq(c, e, &Until::Brace) {
                Ok(v) => v,
                Err(err) => {
                    let position = if err.position == n { i } else { err.position };
                    return Err(ParseError { kind: err.kind, position });
                },
            };
            match node {
                ConTeXtNode::Command { name, style, arg_style, options, arguments: _, span } => {
                    let span2 = make_span(c, p, e2);
                    let cmd = ConTeXtNode::Command { name, style, arg_style, options, arguments: rest, span: span2 };
                    proof {
                        lemma_tiled_ordered(rest@, e as int, e2 as int);
                        lemma_ordered_widen(rest@, e as int, e2 as int, p + 1 + utf8(name@).len(), e2 as int);
                        assert(node_ok(c.b@, cmd));
                        lemma_nodes_push(c.b@, out@, cmd);
                        lemma_tiled_push(out@, i + 1, cmd);
                        lemma_nodes_view_push(out@, cmd);
                        assert(nodes_view(out@) + seq![node_view(cmd)] =~= nodes_view(out@).push(node_view(cmd)));
                    }
                    out.push(cmd);
                    return Ok((out, e2 + 1));
                },
                _ => {
                    return Err(ParseError { kind: ParseErrorKind::UnexpectedChar, position: p });
                },
            }
        }
        proof {
            lemma_nodes_push(c.b@, out@, node);
            lemma_tiled_push(out@, i + 1, node);
            lemma_nodes_view_push(out@, node);
            let r2 = group_from(s, i as int, e as int);
            assert(group_from(s, i as int, p as int) == prepend(seq![node_view(node)], r2));
            match r2 {
                Ok((ys, f)) => {
                    assert(nodes_view(out@) + (seq![node_view(node)] + ys) =~= nodes_view(out@).push(node_view(node)) + ys);
                },
                Err(_) => {},
            }
        }
        out.push(node);
        p = e;
    }
}

/// `\start<name>`, optional options, the content, and `\stop<name>`.
#[verifier::rlimit(60)]
fn parse_startstop(c: &Src, p: usize, ne: usize) -> (r: Result<(ConTeXtNode, usize), ParseError>)
    requires
        c.ok(),
        p + 6 < ne <= c.b@.len(),
        has_at(c.b@, p as int, kw_start()),
        ne == run_end(c.b@, p + 1, Class::Letter),
    ensures
        r matches Ok((x, e)) ==> p < e <= c.b@.len() && is_cut(c.b@, e as int) && node_ok(c.b@, x)
            && span_of(x) == Some(span_at(c.b@, p as int, e as int)),
        r matches Err(err) ==> at_markup(c.b@, err.position as int),
        one_view(r) == startstop_spec(c.b@, p as int, ne as int),
    decreases c.b@.len() - p, 0int,
{
    let ghost s = c.b@;
    let n = c.b.len();
    proof {
        lemma_run_end(s, p + 1, Class::Letter);
        lemma_run_end(s, p + 6, Class::Letter);
        assert(s.subrange(p as int, p + 6) == kw_start());
        assert(s[p + 5] == kw_start()[5]);
        assert forall|j: int| p + 6 <= j < ne implies is_letter(#[trigger] s[j]) by {}
        lemma_letters_run(s, p + 1, p + 6, ne as int);
    }
    let name = slice_str(c.text, p + 6, ne);
    let mut tag = stop_bytes();
    let mut j = p + 6;
    while j < ne
        invariant
            c.ok(),
            s == c.b@,
            p + 6 <= j <= ne <= s.len(),
            tag@ == kw_stop() + s.subrange(p + 6, j as int),
        decreases ne - j,
    {
        tag.push(c.b[j]);
        j = j + 1;
        assert(tag@ =~= kw_stop() + s.subrange(p + 6, j as int));
    }
    let mut i = ne;
    let mut options: OptionList = Vec::new();
    assert(option_pairs(options@) =~= Seq::<(Seq<u8>, Seq<u8>)>::empty());
    if let Some(k) = bracket_end(c, ne) {
        options = parse_options(c, ne + 1, k);
        i = k + 1;
    }
    assert(leading_options(s, ne as int) == (option_pairs(options@), i as int));
    let tlen = tag.len();
    let ghost tv = tag@;
    let until = Until::Tag(tag);
    let ghost spec_name = s.subrange(p + 6, ne as int);
    assert(tv == kw_stop() + spec_name);
    let (content, e) = match parse_seq(c, i, &until) {
        Ok(v) => v,
        Err(err) => {
            let position = if err.position == n { p } else { err.position };
            assert(seq_spec(s, i as int, Stop::Tag(kw_stop() + spec_name)) == Err::<(Seq<NodeV>, int), ParseError>(err));
            return Err(ParseError { kind: err.kind, position });
        },
    };
    assert(seq_spec(s, i as int, Stop::Tag(kw_stop() + spec_name)) == Ok::<(Seq<NodeV>, int), ParseError>((nodes_view(content@), e as int)));
    assert(has_at(s, e as int, tv));
    let end = e + tlen;
    let span = make_span(c, p, end);
    let node = ConTeXtNode::StartStop { name, options, content, span };
    proof {
        assert(utf8(name@) == s.subrange(p + 6, ne as int));
        assert(s.subrange(end - 5 - utf8(name@).len(), end as int) =~= kw_stop() + utf8(name@));
        assert(utf8(name@).len() == ne - p - 6);
        assert(ne <= i);
        assert(end - 5 - utf8(name@).len() == e);
        let name_end = span.start + 6 + utf8(name@).len();
        if content@.len() > 0 {
            lemma_tiled_first(content@, i as int, e as int);
        } else {
            lemma_tiled_bounds(content@, i as int, e as int);
        }
        assert(tiled_from(content@, name_end, span.end - 5 - utf8(name@).len()));
        assert(s[end - 1] == (kw_stop() + utf8(name@))[tlen - 1]);
        assert(node_ok(s, node));
        assert(tlen == (kw_stop() + spec_name).len());
    }
    Ok((node, end))
}

/// A run of letters from `a` that passes `m` ends where the run from `m` ends.
proof fn lemma_letters_run(s: Seq<u8>, a: int, m: int, e: int)
    requires
        0 <= a <= m <= e <= s.len(),
        e == run_end(s, a, Class::Letter),
    ensures
        e == run_end(s, m, Class::Letter),
    decreases m - a,
{
    if a < m {
        lemma_run_end(s, a, Class::Letter);
        assert(is_letter(s[a]));
        lemma_letters_run(s, a + 1, m, e);
    }
}

/// A command whose name ends at `ne`, with its options and arguments.
#[verifier::rlimit(40)]
fn parse_command(c: &Src, p: usize, ne: usize) -> (r: Result<(ConTeXtNode, usize), ParseError>)
    requires
        c.ok(),
        p + 1 < ne <= c.b@.len(),
        c.b@[p as int] == 0x5c,
        ne == run_end(c.b@, p + 1, Class::Letter),
        !(ne - p > 6 && has_at(c.b@, p as int, kw_start())),
    ensures
        r matches Ok((x, e)) ==> p < e <= c.b@.len() && is_cut(c.b@, e as int) && node_ok(c.b@, x)
            && span_of(x) == Some(span_at(c.b@, p as int, e as int)),
        r matches Err(err) ==> at_markup(c.b@, err.position as int),
        one_view(r) == command_spec(c.b@, p as int, ne as int),
    decreases c.b@.len() - p, 0int,
{
    let ghost s = c.b@;
    let n = c.b.len();
    proof {
        lemma_run_end(s, p + 1, Class::Letter);
        assert(is_letter(s[ne - 1]));
    }
    let name = slice_str(c.text, p + 1, ne);
    proof {
        vstd::utf8::encode_utf8_decode_utf8(name@);
    }
    // A bracket group right after the name, a second one right after it, and
    // no brace group after that: `\cmd[argument][options]`.
    if let Some(k1) = bracket_end(c, ne) {
        if let Some(k2) = bracket_end(c, k1 + 1) {
            let plain = scan(c.b, ne + 1, Class::Plain);
            if k1 > ne + 1 && plain >= k1 && !(k2 + 1 < n && c.b[k2 + 1] == 0x7b) {
                proof {
                    lemma_run_end(s, ne + 1, Class::Plain);
                }
                let content = slice_str(c.text, ne + 1, k1);
                let aspan = make_span(c, ne + 1, k1);
                let arg = ConTeXtNode::Text { content, span: aspan };
                let options = parse_options(c, k1 + 2, k2);
                let span = make_span(c, p, k2 + 1);
                let mut arguments: Vec<ConTeXtNode> = Vec::new();
                proof {
                    assert(node_ok(s, arg));
                    lemma_nodes_push(s, arguments@, arg);
                    lemma_ordered_push(arguments@, ne as int, k2 + 1, arg);
                }
                arguments.push(arg);
                proof {
                    lemma_nodes_view_push(Seq::<ConTeXtNode>::empty(), arg);
                    assert(arguments@ =~= Seq::<ConTeXtNode>::empty().push(arg));
                    assert(nodes_view(arguments@) =~= seq![NodeV::Text(s.subrange(ne + 1, k1 as int), span_at(s, ne + 1, k1 as int))]);
                }
                let node = ConTeXtNode::Command {
                    name,
                    style: CommandStyle::ContextStyle,
                    arg_style: ArgumentStyle::Explicit,
                    options,
                    arguments,
                    span,
                };
                assert(node_ok(s, node));
                return Ok((node, k2 + 1));
            }
        }
    }
    let arg_style = if is_line_name(name.as_str()) {
        ArgumentStyle::LineEnding
    } else if is_scoped_name(name.as_str()) {
        ArgumentStyle::GroupScoped
    } else {
        ArgumentStyle::Explicit
    };
    let mut options: OptionList = Vec::new();
    let mut arguments: Vec<ConTeXtNode> = Vec::new();
    let mut i = ne;
    proof {
        assert(option_pairs(options@) =~= Seq::<(Seq<u8>, Seq<u8>)>::empty());
        assert(nodes_view(arguments@) =~= Seq::<NodeV>::empty());
        assert(arg_style == table_style(decode_utf8(s.subrange(p + 1, ne as int))));
    }
    match arg_style {
        ArgumentStyle::LineEnding => {
            i = take_option_groups(c, i, &mut options);
            let e = scan(c.b, i, Class::PlainInLine);
            proof {
                lemma_run_end(s, i as int, Class::PlainInLine);
            }
            let (x, y) = trim_bounds(c.b, i, e);
            proof {
                lemma_trim_start(s, i as int, e as int);
                lemma_trim_end(s, x as int, e as int);
            }
            if x < y {
                let content = slice_str(c.text, x, y);
                let aspan = make_span(c, x, y);
                let arg = ConTeXtNode::Text { content, span: aspan };
                proof {
                    assert forall|j: int| x <= j < y implies !is_markup(#[trigger] s[j]) by {
                        assert(crate::text::in_class(Class::PlainInLine, s[j]));
                    }
                    assert(node_ok(s, arg));
                    lemma_nodes_push(s, arguments@, arg);
                    lemma_ordered_push(arguments@, ne as int, e as int, arg);
                    lemma_nodes_view_push(arguments@, arg);
                }
                arguments.push(arg);
                assert(nodes_view(arguments@) =~= seq![NodeV::Text(s.subrange(x as int, y as int), span_at(s, x as int, y as int))]);
            }
            i = e;
        },
        ArgumentStyle::GroupScoped => {},
        ArgumentStyle::Explicit => {
            i = take_option_groups(c, i, &mut options);
            let has_options = i != ne;
            if i < n && c.b[i] == 0x7b {
                let (args, e) = match parse_group(c, i) {
                    Ok(v) => v,
                    Err(err) => {
                        return Err(err);
                    },
                };
                proof {
                    lemma_tiled_ordered(args@, i + 1, e - 1);
                    lemma_ordered_widen(args@, i + 1, e - 1, ne as int, e as int);
                }
                arguments = args;
                i = e;
                if !has_options {
                    let j = take_option_groups(c, i, &mut options);
                    proof {
                        lemma_ordered_widen(arguments@, ne as int, i as int, ne as int, j as int);
                    }
                    i = j;
                }
            }
        },
    }
    let span = make_span(c, p, i);
    let node = ConTeXtNode::Command { name, style: CommandStyle::TexStyle, arg_style, options, arguments, span };
    assert(node_ok(s, node));
    Ok((node, i))
}

/// How the nodes of a document cover its text `s`: a fragment's body covers
/// all of it and none of its nodes starts with `\starttext` or
/// `\startdocument`; otherwise the preamble, none of whose nodes starts
/// with such a marker, covers everything before the first one, the
/// `\starttext` (or `\startdocument`) at `e`, and the body everything
/// between that marker and the `\stoptext` (or `\stopdocument`) at `e2`.
pub open spec fn framed(s: Seq<u8>, pre: Seq<ConTeXtNode>, body: Seq<ConTeXtNode>) -> bool {
    ||| (pre.len() == 0 && tiled(body, 0, s.len() as int) && starts_free(s, body, Stop::DocStart))
    ||| exists|e: int, e2: int|
        tiled(pre, 0, e) && starts_free(s, pre, Stop::DocStart) && ((has_at(s, e, kw_start() + kw_text()) && tiled(
            body,
            e + 10,
            e2,
        ) && has_at(s, e2, kw_stop() + kw_text())) || (has_at(s, e, kw_start() + kw_document()) && tiled(body, e + 14, e2)
            && has_at(s, e2, kw_stop() + kw_document())))
}

/// The typed tree of a parse, or its error.
pub open spec fn document_view(r: Result<ConTeXtNode, ParseError>) -> Result<NodeV, ParseError> {
    match r {
        Ok(d) => Ok(node_view(d)),
        Err(e) => Err(e),
    }
}

/// The typed syntax tree of `text`.
///
/// Everything before the first `\starttext` or `\startdocument` that
/// stands between nodes is the preamble, and the body runs from there to
/// the matching `\stoptext` or `\stopdocument`. A text with neither
/// marker is a fragment: its nodes are the body and the preamble is empty.
pub fn parse_document(text: &str) -> (r: Result<ConTeXtNode, ParseError>)
    ensures
        r matches Ok(d) ==> d is Document && node_ok(text.spec_bytes(), d)
            && ordered(crate::ast::children_of(d), 0, text.spec_bytes().len() as int),
        r matches Ok(ConTeXtNode::Document { preamble, body }) ==> framed(text.spec_bytes(), preamble@, body@),
        r matches Err(e) ==> at_markup(text.spec_bytes(), e.position as int),
        (forall|j: int| 0 <= j < text.spec_bytes().len() ==> !at_markup(text.spec_bytes(), j)) ==> r is Ok,
        document_view(r) == document_spec(text.spec_bytes()),
{
    let c = make_src(text);
    let ghost s = c.b@;
    let n = c.b.len();
    let (pre, e) = match parse_seq(&c, 0, &Until::DocStart) {
        Ok(v) => v,
        Err(err) => {
            return Err(err);
        },
    };
    if e == n {
        let preamble: Vec<ConTeXtNode> = Vec::new();
        let d = ConTeXtNode::Document { preamble, body: pre };
        proof {
            lemma_nodes_view_empty();
            assert(preamble@ =~= Seq::<ConTeXtNode>::empty());
            assert(preamble@ + pre@ =~= pre@);
            assert(node_ok(s, d));
            lemma_tiled_ordered(pre@, 0, n as int);
        }
        return Ok(d);
    }
    let st = starttext_bytes();
    let is_text = bytes_at(c.b, e, st.as_slice());
    proof {
        if is_text {
            assert(s.subrange(e as int, e + 10)[9] == s[e + 9]);
            assert(s.subrange(e as int, e + 10)[0] == s[e as int]);
        } else {
            assert(s.subrange(e as int, e + 14)[13] == s[e + 13]);
            assert(s.subrange(e as int, e + 14)[0] == s[e as int]);
        }
        assert(s[e as int] == 0x5c);
    }
    let (mlen, stop) = if is_text {
        let mut t = stop_bytes();
        let mut x = text_bytes();
        t.append(&mut x);
        (10usize, t)
    } else {
        let mut t = stop_bytes();
        let mut x = document_bytes();
        t.append(&mut x);
        (14usize, t)
    };
    proof {
        assert(s[e + mlen - 1] == 0x74);
    }
    let until = Until::Tag(stop);
    let (body, e2) = match parse_seq(&c, e + mlen, &until) {
        Ok(v) => v,
        Err(err) => {
            let position = if err.position == n { e } else { err.position };
            assert(at_markup(text.spec_bytes(), position as int));
            assert(stop@ == (if is_text { kw_stop() + kw_text() } else { kw_stop() + kw_document() }));
            return Err(ParseError { kind: err.kind, position });
        },
    };
    let d = ConTeXtNode::Document { preamble: pre, body };
    proof {
        lemma_tiled_ordered(pre@, 0, e as int);
        lemma_tiled_ordered(body@, e + mlen, e2 as int);
        lemma_ordered_widen(body@, e + mlen, e2 as int, e as int, n as int);
        lemma_ordered_concat(pre@, body@, 0, e as int, n as int);
        assert(node_ok(s, d));
        if is_text {
            assert(tiled(pre@, 0, e as int) && has_at(s, e as int, kw_start() + kw_text()) && tiled(body@, e + 10, e2 as int)
                && has_at(s, e2 as int, kw_stop() + kw_text()));
        } else {
            assert(tiled(pre@, 0, e as int) && has_at(s, e as int, kw_start() + kw_document()) && tiled(body@, e + 14, e2 as int)
                && has_at(s, e2 as int, kw_stop() + kw_document()));
        }
        assert(framed(s, pre@, body@));
        assert(stop@ == (if is_text { kw_stop() + kw_text() } else { kw_stop() + kw_document() }));
    }
    Ok(d)
}

} // verus!
