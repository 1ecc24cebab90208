//! Properties that relate the library's functions, proved for all inputs.
use vstd::prelude::*;
use crate::ast::{ConTeXtNode, span_of, tiled, lemma_tiled_ordered, lemma_ordered_widen, children_of, node_ok, ordered};
use crate::syntax::{tree_of, text_of, lemma_tree_lossless};
use crate::highlight::{HighlightKind, spans_of, spans_of_all};
use crate::syntax::{GreenView, texts_of};
use crate::diagnostic::{DiagnosticSource, DiagnosticSeverity, findings_of, findings_of_all, own_finding, known_command, strip, backslash};
use crate::lexer::{Token, lex_spec};
use crate::syntax::{SyntaxKind, Scope, items, element, command_tail, opened, leaf, closes, is_start, tiles, lemma_lex_tiles, lemma_items_text};
use vstd::utf8::decode_utf8;
use crate::runtime::splice;
use crate::text::{utf8, lemma_cut_is_boundary};
use vstd::utf8::{is_char_boundary, encode_utf8_valid_utf8};

verus! {

/// Reading the tokens of the concrete tree in document order gives back the
/// text it was built from, byte for byte.
pub proof fn law_round_trip(s: Seq<u8>)
    ensures
        text_of(tree_of(s)) == s,
{
    lemma_tree_lossless(s);
}

/// What `ordered` says, one node and one neighbour at a time.
pub proof fn lemma_ordered_each(ns: Seq<ConTeXtNode>, lo: int, hi: int)
    requires
        ordered(ns, lo, hi),
    ensures
        lo <= hi,
        forall|k: int| 0 <= k < ns.len() ==> span_of(#[trigger] ns[k]) is Some
            && lo <= span_of(ns[k])->Some_0.start && span_of(ns[k])->Some_0.start < span_of(ns[k])->Some_0.end
            && span_of(ns[k])->Some_0.end <= hi,
        forall|k: int| 0 <= k < ns.len() - 1 ==> span_of(#[trigger] ns[k])->Some_0.end <= span_of(ns[k + 1])->Some_0.start,
    decreases ns.len(),
{
    if ns.len() > 0 {
        let last = ns.last();
        let m = span_of(last)->Some_0.start as int;
        lemma_ordered_each(ns.drop_last(), lo, m);
        assert forall|k: int| 0 <= k < ns.len() implies span_of(#[trigger] ns[k]) is Some
            && lo <= span_of(ns[k])->Some_0.start && span_of(ns[k])->Some_0.start < span_of(ns[k])->Some_0.end
            && span_of(ns[k])->Some_0.end <= hi by {
            if k < ns.len() - 1 {
                assert(ns[k] == ns.drop_last()[k]);
            }
        }
        assert forall|k: int| 0 <= k < ns.len() - 1 implies span_of(#[trigger] ns[k])->Some_0.end <= span_of(ns[k + 1])->Some_0.start by {
            assert(ns[k] == ns.drop_last()[k]);
            if k + 1 < ns.len() - 1 {
                assert(ns[k + 1] == ns.drop_last()[k + 1]);
            }
        }
    }
}

/// Every child of a parsed node lies inside the node's span, and siblings
/// come left to right without overlapping.
pub proof fn law_span_nesting(s: Seq<u8>, n: ConTeXtNode)
    requires
        node_ok(s, n),
        span_of(n) is Some,
    ensures
        forall|k: int| 0 <= k < children_of(n).len() ==> {
            let c = span_of(#[trigger] children_of(n)[k])->Some_0;
            let p = span_of(n)->Some_0;
            &&& span_of(children_of(n)[k]) is Some
            &&& p.start <= c.start < c.end <= p.end
        },
        forall|k: int| 0 <= k < children_of(n).len() - 1 ==>
            span_of(#[trigger] children_of(n)[k])->Some_0.end <= span_of(children_of(n)[k + 1])->Some_0.start,
{
    match n {
        ConTeXtNode::Command { name, arguments, span, .. } => {
            lemma_ordered_each(arguments@, span.start + 1 + utf8(name@).len(), span.end as int);
        },
        ConTeXtNode::StartStop { name, content, span, .. } => {
            let lo = span.start + 6 + utf8(name@).len();
            let hi = span.end - 5 - utf8(name@).len();
            if content@.len() > 0 {
                let c = span_of(content@[0])->Some_0.start as int;
                lemma_tiled_ordered(content@, c, hi);
                lemma_ordered_widen(content@, c, hi, lo, hi);
            }
            lemma_ordered_each(content@, lo, hi);
        },
        _ => {},
    }
}

/// Replacing a range of a source by the text it already holds leaves the
/// source, and so its tree, highlights and diagnostics, as they were.
pub proof fn law_no_op_update(src: Seq<u8>, start: int, end: int, new: Seq<u8>)
    requires
        0 <= start <= end <= src.len(),
        new == src.subrange(start, end),
    ensures
        splice(src, start, end, new) == src,
        tree_of(splice(src, start, end, new)) == tree_of(src),
        spans_of(tree_of(splice(src, start, end, new)), 0) == spans_of(tree_of(src), 0),
        findings_of(tree_of(splice(src, start, end, new)), 0) == findings_of(tree_of(src), 0),
{
    assert(splice(src, start, end, new) =~= src);
}

/// The ranges `hs` lie within `[lo, hi]`, each ending before the next starts.
pub open spec fn sorted_within(hs: Seq<(int, int, HighlightKind)>, lo: int, hi: int) -> bool {
    &&& lo <= hi
    &&& forall|k: int| 0 <= k < hs.len() ==> lo <= (#[trigger] hs[k]).0 <= hs[k].1 <= hi
    &&& forall|k: int| 0 <= k < hs.len() - 1 ==> (#[trigger] hs[k]).1 <= hs[k + 1].0
}

proof fn lemma_sorted_concat(a: Seq<(int, int, HighlightKind)>, b: Seq<(int, int, HighlightKind)>, lo: int, mid: int, hi: int)
    requires
        sorted_within(a, lo, mid),
        sorted_within(b, mid, hi),
    ensures
        sorted_within(a + b, lo, hi),
{
    let c = a + b;
    assert forall|k: int| 0 <= k < c.len() implies lo <= (#[trigger] c[k]).0 <= c[k].1 <= hi by {
        if k < a.len() {
            assert(c[k] == a[k]);
        } else {
            assert(c[k] == b[k - a.len()]);
        }
    }
    assert forall|k: int| 0 <= k < c.len() - 1 implies (#[trigger] c[k]).1 <= c[k + 1].0 by {
        if k < a.len() - 1 {
            assert(c[k] == a[k] && c[k + 1] == a[k + 1]);
        } else if k == a.len() - 1 {
            assert(c[k] == a[k] && c[k + 1] == b[0]);
        } else {
            assert(c[k] == b[k - a.len()] && c[k + 1] == b[k + 1 - a.len()]);
        }
    }
}

proof fn lemma_spans_sorted(v: GreenView, off: int)
    requires
        0 <= off,
    ensures
        sorted_within(spans_of(v, off), off, off + text_of(v).len()),
    decreases v,
{
    match v {
        GreenView::Token(_, _) => {},
        GreenView::Node(_, cs) => {
            lemma_spans_all_sorted(cs, off);
        },
    }
}

proof fn lemma_spans_all_sorted(vs: Seq<GreenView>, off: int)
    requires
        0 <= off,
    ensures
        sorted_within(spans_of_all(vs, off), off, off + texts_of(vs).len()),
    decreases vs,
{
    if vs.len() > 0 {
        let mid = off + texts_of(vs.drop_last()).len();
        lemma_spans_all_sorted(vs.drop_last(), off);
        lemma_spans_sorted(vs.last(), mid);
        lemma_sorted_concat(spans_of_all(vs.drop_last(), off), spans_of(vs.last(), mid), off, mid, mid + text_of(vs.last()).len());
    }
}

/// The highlights of a text come in document order, never overlap, and lie
/// within the text.
pub proof fn law_highlights_in_order(s: Seq<u8>)
    ensures
        sorted_within(spans_of(tree_of(s), 0), 0, s.len() as int),
{
    lemma_tree_lossless(s);
    lemma_spans_sorted(tree_of(s), 0);
}

/// The name of the command token `k` of `ts`: its text without the `\`.
pub open spec fn command_name(ts: Seq<(Token, int, int)>, s: Seq<u8>, k: int) -> Seq<char> {
    decode_utf8(strip(s.subrange(ts[k].1, ts[k].2), backslash()))
}

pub open spec fn unknown_message(name: Seq<char>) -> Seq<char> {
    "Unknown command: \\"@ + name
}

/// Some warning in `fs` says `m`.
pub open spec fn warns(fs: Seq<(int, int, DiagnosticSeverity, Seq<char>, DiagnosticSource)>, m: Seq<char>) -> bool {
    exists|j: int| 0 <= j < fs.len() && fs[j].2 == DiagnosticSeverity::Warning && fs[j].3 == m
}

proof fn lemma_warns_left(a: Seq<(int, int, DiagnosticSeverity, Seq<char>, DiagnosticSource)>, b: Seq<(int, int, DiagnosticSeverity, Seq<char>, DiagnosticSource)>, m: Seq<char>)
    requires
        warns(a, m),
    ensures
        warns(a + b, m),
{
    let j = choose|j: int| 0 <= j < a.len() && a[j].2 == DiagnosticSeverity::Warning && a[j].3 == m;
    assert((a + b)[j] == a[j]);
}

proof fn lemma_warns_right(a: Seq<(int, int, DiagnosticSeverity, Seq<char>, DiagnosticSource)>, b: Seq<(int, int, DiagnosticSeverity, Seq<char>, DiagnosticSource)>, m: Seq<char>)
    requires
        warns(b, m),
    ensures
        warns(a + b, m),
{
    let j = choose|j: int| 0 <= j < b.len() && b[j].2 == DiagnosticSeverity::Warning && b[j].3 == m;
    assert((a + b)[a.len() + j] == b[j]);
}

proof fn lemma_findings_concat(a: Seq<GreenView>, b: Seq<GreenView>, off: int)
    ensures
        findings_of_all(a + b, off) == findings_of_all(a, off) + findings_of_all(b, off + texts_of(a).len()),
    decreases b.len(),
{
    if b.len() == 0 {
        assert(a + b =~= a);
        assert(findings_of_all(a, off) + findings_of_all(b, off + texts_of(a).len()) =~= findings_of_all(a, off));
    } else {
        lemma_findings_concat(a, b.drop_last(), off);
        assert((a + b).drop_last() =~= a + b.drop_last());
        assert((a + b).last() == b.last());
        crate::syntax::lemma_texts_concat(a, b.drop_last());
        assert(findings_of_all(a + b, off) =~= findings_of_all(a, off) + findings_of_all(b, off + texts_of(a).len()));
    }
}

proof fn lemma_findings_one(v: GreenView, off: int)
    ensures
        findings_of_all(seq![v], off) == findings_of(v, off),
{
    assert(seq![v].drop_last() =~= Seq::<GreenView>::empty());
    assert(texts_of(Seq::<GreenView>::empty()) =~= seq![]);
    assert(findings_of_all(Seq::<GreenView>::empty(), off) + findings_of(v, off) =~= findings_of(v, off));
}

/// A warning of the elements after the first one is a warning of them all.
proof fn lemma_warns_tail(first: GreenView, rest: Seq<GreenView>, off: int, m: Seq<char>)
    requires
        warns(findings_of_all(rest, off + text_of(first).len()), m),
    ensures
        warns(findings_of_all(seq![first] + rest, off), m),
{
    lemma_findings_concat(seq![first], rest, off);
    crate::syntax::lemma_texts_one(first);
    lemma_warns_right(findings_of_all(seq![first], off), findings_of_all(rest, off + text_of(first).len()), m);
}

/// A warning of the first element is a warning of them all.
proof fn lemma_warns_head(first: GreenView, rest: Seq<GreenView>, off: int, m: Seq<char>)
    requires
        warns(findings_of(first, off), m),
    ensures
        warns(findings_of_all(seq![first] + rest, off), m),
{
    lemma_findings_concat(seq![first], rest, off);
    lemma_findings_one(first, off);
    lemma_warns_left(findings_of(first, off), findings_of_all(rest, off + texts_of(seq![first]).len()), m);
}

/// A warning inside a node is a warning of the node.
proof fn lemma_warns_node(kind: SyntaxKind, cs: Seq<GreenView>, off: int, m: Seq<char>)
    requires
        warns(findings_of_all(cs, off), m),
    ensures
        warns(findings_of(GreenView::Node(kind, cs), off), m),
{
    let v = GreenView::Node(kind, cs);
    lemma_warns_right(own_finding(kind, cs, v, off), findings_of_all(cs, off), m);
}

proof fn lemma_warns_opened(kind: SyntaxKind, first: GreenView, inner: (Seq<GreenView>, int, bool), off: int, m: Seq<char>)
    requires
        warns(findings_of_all(inner.0, off + text_of(first).len()), m),
    ensures
        warns(findings_of(opened(kind, first, inner).0, off), m),
{
    lemma_warns_tail(first, inner.0, off, m);
    let node = GreenView::Node(kind, seq![first] + inner.0);
    lemma_warns_node(kind, seq![first] + inner.0, off, m);
    if !inner.2 {
        lemma_findings_one(node, off);
        lemma_warns_node(SyntaxKind::Error, seq![node], off, m);
    }
}

proof fn lemma_items_warn(ts: Seq<(Token, int, int)>, s: Seq<u8>, i: int, c: Scope, k: int, off: int)
    requires
        tiles(ts, 0, s.len() as int),
        0 <= i <= k < items(ts, s, i, c).1,
        k < ts.len(),
        ts[k].0 == Token::Command,
        !known_command(command_name(ts, s, k)),
    ensures
        warns(findings_of_all(items(ts, s, i, c).0, off), unknown_message(command_name(ts, s, k))),
    decreases ts.len() - i, 1int,
{
    let m = unknown_message(command_name(ts, s, k));
    lemma_items_text(ts, s, i, c);
    if i < ts.len() && !closes(c, ts[i].0) {
        crate::syntax::lemma_element_bounds(ts, s, i, c);
        let (e, j) = element(ts, s, i, c);
        let (rest, kk, closed) = items(ts, s, j, c);
        if k < j {
            lemma_element_warn(ts, s, i, c, k, off);
            lemma_warns_head(e, rest, off, m);
        } else {
            lemma_items_warn(ts, s, j, c, k, off + text_of(e).len());
            lemma_warns_tail(e, rest, off, m);
        }
    }
}

proof fn lemma_element_warn(ts: Seq<(Token, int, int)>, s: Seq<u8>, i: int, c: Scope, k: int, off: int)
    requires
        tiles(ts, 0, s.len() as int),
        0 <= i <= k < element(ts, s, i, c).1,
        k < ts.len(),
        ts[k].0 == Token::Command,
        !known_command(command_name(ts, s, k)),
    ensures
        warns(findings_of(element(ts, s, i, c).0, off), unknown_message(command_name(ts, s, k))),
    decreases ts.len() - i, 0int,
{
    let m = unknown_message(command_name(ts, s, k));
    let t = ts[i].0;
    let first = leaf(ts, s, i);
    if is_start(t) {
        lemma_items_warn(ts, s, i + 1, Scope::Env, k, off + text_of(first).len());
        lemma_warns_opened(SyntaxKind::Environment, first, items(ts, s, i + 1, Scope::Env), off, m);
    } else if t == Token::BraceOpen {
        lemma_items_warn(ts, s, i + 1, Scope::Group, k, off + text_of(first).len());
        lemma_warns_opened(SyntaxKind::Argument, first, items(ts, s, i + 1, Scope::Group), off, m);
    } else if t == Token::Command {
        let (tail, j) = command_tail(ts, s, i + 1);
        let v = GreenView::Node(SyntaxKind::Command, seq![first] + tail);
        if k == i {
            let cs = seq![first] + tail;
            assert(cs[0] == first);
            let own = own_finding(SyntaxKind::Command, cs, v, off);
            assert(own.len() == 1 && own[0].2 == DiagnosticSeverity::Warning && own[0].3 == m);
            lemma_warns_left(own, findings_of_all(cs, off), m);
        } else {
            lemma_tail_warn(ts, s, i + 1, k, off + text_of(first).len());
            lemma_warns_tail(first, tail, off, m);
            lemma_warns_node(SyntaxKind::Command, seq![first] + tail, off, m);
        }
    }
}

proof fn lemma_tail_warn(ts: Seq<(Token, int, int)>, s: Seq<u8>, i: int, k: int, off: int)
    requires
        tiles(ts, 0, s.len() as int),
        0 <= i <= k < command_tail(ts, s, i).1,
        k < ts.len(),
        ts[k].0 == Token::Command,
        !known_command(command_name(ts, s, k)),
    ensures
        warns(findings_of_all(command_tail(ts, s, i).0, off), unknown_message(command_name(ts, s, k))),
    decreases ts.len() - i, 1int,
{
    let m = unknown_message(command_name(ts, s, k));
    if i < ts.len() && (ts[i].0 == Token::Options || ts[i].0 == Token::BraceOpen) {
        crate::syntax::lemma_element_bounds(ts, s, i, Scope::Top);
        let (e, j) = element(ts, s, i, Scope::Top);
        let (rest, kk) = command_tail(ts, s, j);
        if k < j {
            lemma_element_warn(ts, s, i, Scope::Top, k, off);
            lemma_warns_head(e, rest, off, m);
        } else {
            lemma_tail_warn(ts, s, j, k, off + text_of(e).len());
            lemma_warns_tail(e, rest, off, m);
        }
    }
}

/// Every command in a text whose name the command table does not know is
/// reported by a warning that names it.
pub proof fn law_unknown_command_reported(s: Seq<u8>, k: int)
    requires
        0 <= k < lex_spec(s).len(),
        lex_spec(s)[k].0 == Token::Command,
        !known_command(command_name(lex_spec(s), s, k)),
    ensures
        warns(findings_of(tree_of(s), 0), unknown_message(command_name(lex_spec(s), s, k))),
{
    let ts = lex_spec(s);
    lemma_lex_tiles(s, 0);
    lemma_items_text(ts, s, 0, Scope::Top);
    lemma_items_warn(ts, s, 0, Scope::Top, k, 0);
    lemma_warns_node(SyntaxKind::Document, items(ts, s, 0, Scope::Top).0, 0, unknown_message(command_name(ts, s, k)));
}

/// The byte range of child `k` of a node whose text starts at `off`: it
/// starts after the text of the children before it.
pub open spec fn child_range(cs: Seq<GreenView>, off: int, k: int) -> (int, int) {
    let start = off + texts_of(cs.subrange(0, k)).len();
    (start, start + text_of(cs[k]).len())
}

proof fn lemma_prefix_step(cs: Seq<GreenView>, k: int)
    requires
        0 <= k < cs.len(),
    ensures
        texts_of(cs.subrange(0, k + 1)) == texts_of(cs.subrange(0, k)) + text_of(cs[k]),
{
    assert(cs.subrange(0, k + 1).drop_last() =~= cs.subrange(0, k));
    assert(cs.subrange(0, k + 1).last() == cs[k]);
}

proof fn lemma_prefix_within(cs: Seq<GreenView>, k: int)
    requires
        0 <= k <= cs.len(),
    ensures
        texts_of(cs.subrange(0, k)).len() <= texts_of(cs).len(),
    decreases cs.len() - k,
{
    if k < cs.len() {
        lemma_prefix_step(cs, k);
        lemma_prefix_within(cs, k + 1);
    } else {
        assert(cs.subrange(0, k) =~= cs);
    }
}

/// In the concrete tree, every child's range lies within its parent's, and
/// each child starts where the one before it ends.
pub proof fn law_tree_nesting(cs: Seq<GreenView>, off: int)
    ensures
        forall|k: int| 0 <= k < cs.len() ==> off <= (#[trigger] child_range(cs, off, k)).0 <= child_range(cs, off, k).1
            <= off + texts_of(cs).len(),
        forall|k: int| 0 <= k < cs.len() - 1 ==> (#[trigger] child_range(cs, off, k)).1 == child_range(cs, off, k + 1).0,
{
    assert forall|k: int| 0 <= k < cs.len() implies off <= (#[trigger] child_range(cs, off, k)).0 <= child_range(cs, off, k).1
        <= off + texts_of(cs).len() by {
        lemma_prefix_step(cs, k);
        lemma_prefix_within(cs, k + 1);
    }
    assert forall|k: int| 0 <= k < cs.len() - 1 implies (#[trigger] child_range(cs, off, k)).1 == child_range(cs, off, k + 1).0 by {
        lemma_prefix_step(cs, k);
    }
}

/// No span of a parsed node splits a character: both its offsets are
/// character boundaries of the text.
pub proof fn law_spans_on_boundaries(t: Seq<char>, n: ConTeXtNode)
    requires
        node_ok(utf8(t), n),
        span_of(n) is Some,
    ensures
        is_char_boundary(utf8(t), span_of(n)->Some_0.start as int),
        is_char_boundary(utf8(t), span_of(n)->Some_0.end as int),
{
    encode_utf8_valid_utf8(t);
    lemma_cut_is_boundary(utf8(t), span_of(n)->Some_0.start as int);
    lemma_cut_is_boundary(utf8(t), span_of(n)->Some_0.end as int);
}

/// Two workspace documents with the same source hold the same typed tree
/// and the same highlights: reopening a document with its own text changes
/// neither.
pub proof fn law_same_source_same_document(a: crate::workspace::Document, b: crate::workspace::Document)
    requires
        crate::workspace::document_ok(a),
        crate::workspace::document_ok(b),
        a.source@ == b.source@,
    ensures
        crate::ast::node_view(a.ast) == crate::ast::node_view(b.ast),
        crate::highlight::highlights_view(a.highlights@) == crate::highlight::highlights_view(b.highlights@),
{
}

proof fn lemma_nodes_ok_each(s: Seq<u8>, ns: Seq<ConTeXtNode>, k: int)
    requires
        crate::ast::nodes_ok(s, ns),
        0 <= k < ns.len(),
    ensures
        node_ok(s, ns[k]),
    decreases ns.len(),
{
    if k < ns.len() - 1 {
        lemma_nodes_ok_each(s, ns.drop_last(), k);
        assert(ns.drop_last()[k] == ns[k]);
    }
}

/// The facts of a parsed node hold of each of its children, and so, child
/// by child, of every node below it: `law_span_nesting` applies at every
/// depth of a parsed document.
pub proof fn law_children_ok(s: Seq<u8>, n: ConTeXtNode, k: int)
    requires
        node_ok(s, n),
        0 <= k < children_of(n).len(),
    ensures
        node_ok(s, children_of(n)[k]),
{
    match n {
        ConTeXtNode::Document { preamble, body } => {
            if k < preamble@.len() {
                lemma_nodes_ok_each(s, preamble@, k);
                assert(children_of(n)[k] == preamble@[k]);
            } else {
                lemma_nodes_ok_each(s, body@, k - preamble@.len());
                assert(children_of(n)[k] == body@[k - preamble@.len()]);
            }
        },
        ConTeXtNode::Command { arguments, .. } => {
            lemma_nodes_ok_each(s, arguments@, k);
        },
        ConTeXtNode::StartStop { content, .. } => {
            lemma_nodes_ok_each(s, content@, k);
        },
        _ => {},
    }
}

} // verus!
