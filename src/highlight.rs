//! Classified highlight spans over the concrete syntax tree.
use vstd::prelude::*;
use crate::syntax::{SyntaxKind, GreenElement, GreenNode, GreenView, view_elem, view_elems, view_node, text_of, texts_of};

verus! {

#[derive(Debug, Clone, Copy, PartialEq, Eq, Structural)]
pub enum HighlightKind {
    /// Reserved for heads that change the declaration scope; no token gets it.
    Keyword,
    Command,
    Option,
    Text,
    Comment,
    Environment,
}

impl HighlightKind {
    pub fn to_string(&self) -> (r: String)
        ensures
            r@ == kind_name(*self),
    {
        let s = match self {
            HighlightKind::Keyword => "keyword",
            HighlightKind::Command => "command",
            HighlightKind::Option => "option",
            HighlightKind::Text => "text",
            HighlightKind::Comment => "comment",
            HighlightKind::Environment => "environment",
        };
        s.to_owned()
    }
}

/// The lowercase name of a highlight kind.
pub open spec fn kind_name(k: HighlightKind) -> Seq<char> {
    match k {
        HighlightKind::Keyword => "keyword"@,
        HighlightKind::Command => "command"@,
        HighlightKind::Option => "option"@,
        HighlightKind::Text => "text"@,
        HighlightKind::Comment => "comment"@,
        HighlightKind::Environment => "environment"@,
    }
}

/// A classified byte range `[start, end)` of the source.
#[derive(Debug, Clone, Copy, PartialEq, Eq, Structural)]
pub struct Highlight {
    pub start: usize,
    pub end: usize,
    pub kind: HighlightKind,
}

/// The class of a token of the given kind, if it has one: command names,
/// environment tags, option groups, text and comments.
pub open spec fn class_of(k: SyntaxKind) -> Option<HighlightKind> {
    match k {
        SyntaxKind::Command => Some(HighlightKind::Command),
        SyntaxKind::Environment => Some(HighlightKind::Environment),
        SyntaxKind::Options => Some(HighlightKind::Option),
        SyntaxKind::Text => Some(HighlightKind::Text),
        SyntaxKind::Comment => Some(HighlightKind::Comment),
        _ => None,
    }
}

fn class_exec(k: SyntaxKind) -> (r: Option<HighlightKind>)
    ensures
        r == class_of(k),
{
    match k {
        SyntaxKind::Command => Some(HighlightKind::Command),
        SyntaxKind::Environment => Some(HighlightKind::Environment),
        SyntaxKind::Options => Some(HighlightKind::Option),
        SyntaxKind::Text => Some(HighlightKind::Text),
        SyntaxKind::Comment => Some(HighlightKind::Comment),
        _ => None,
    }
}

/// The highlights of an element whose text starts at byte `off`: one per
/// classified token, spanning exactly that token, in document order.
pub open spec fn spans_of(v: GreenView, off: int) -> Seq<(int, int, HighlightKind)>
    decreases v,
{
    match v {
        GreenView::Token(k, t) => match class_of(k) {
            Some(c) => seq![(off, off + t.len(), c)],
            None => seq![],
        },
        GreenView::Node(_, cs) => spans_of_all(cs, off),
    }
}

pub open spec fn spans_of_all(vs: Seq<GreenView>, off: int) -> Seq<(int, int, HighlightKind)>
    decreases vs,
{
    if vs.len() == 0 {
        seq![]
    } else {
        spans_of_all(vs.drop_last(), off) + spans_of(vs.last(), off + texts_of(vs.drop_last()).len())
    }
}

pub open spec fn highlights_view(hs: Seq<Highlight>) -> Seq<(int, int, HighlightKind)> {
    Seq::new(hs.len(), |k: int| (hs[k].start as int, hs[k].end as int, hs[k].kind))
}

proof fn lemma_highlights_push(hs: Seq<Highlight>, h: Highlight)
    ensures
        highlights_view(hs.push(h)) == highlights_view(hs) + seq![(h.start as int, h.end as int, h.kind)],
{
    assert(highlights_view(hs.push(h)) =~= highlights_view(hs) + seq![(h.start as int, h.end as int, h.kind)]);
}

fn highlight_children(children: &Vec<GreenElement>, off: usize, out: &mut Vec<Highlight>) -> (end: usize)
    requires
        off + texts_of(view_elems(children@)).len() <= usize::MAX,
    ensures
        highlights_view(final(out)@) == highlights_view(old(out)@) + spans_of_all(view_elems(children@), off as int),
        end == off + texts_of(view_elems(children@)).len(),
    decreases children@,
{
    let mut cur = off;
    let mut k: usize = 0;
    proof {
        assert(children@.subrange(0, 0) =~= Seq::<GreenElement>::empty());
        assert(highlights_view(out@) + spans_of_all(view_elems(Seq::<GreenElement>::empty()), off as int) =~= highlights_view(out@));
    }
    while k < children.len()
        invariant
            0 <= k <= children@.len(),
            off + texts_of(view_elems(children@)).len() <= usize::MAX,
            highlights_view(out@) == highlights_view(old(out)@) + spans_of_all(view_elems(children@.subrange(0, k as int)), off as int),
            cur == off + texts_of(view_elems(children@.subrange(0, k as int))).len(),
        decreases children@.len() - k,
    {
        let ghost pre = children@.subrange(0, k as int);
        let ghost cur_seq = children@.subrange(0, k + 1);
        proof {
            assert(cur_seq.drop_last() =~= pre);
            assert(cur_seq.last() == children@[k as int]);
            assert(view_elems(cur_seq) == view_elems(pre) + seq![view_elem(children@[k as int])]);
            assert(view_elems(cur_seq).drop_last() =~= view_elems(pre));
            lemma_prefix_text_bound(children@, k as int + 1);
        }
        let len = highlight_element(&children[k], cur, out);
        cur = len;
        k = k + 1;
    }
    assert(children@.subrange(0, k as int) =~= children@);
    cur
}

/// The text of a prefix of siblings is no longer than the text of them all.
proof fn lemma_prefix_text_bound(es: Seq<GreenElement>, k: int)
    requires
        0 <= k <= es.len(),
    ensures
        texts_of(view_elems(es.subrange(0, k))).len() <= texts_of(view_elems(es)).len(),
    decreases es.len(),
{
    if k < es.len() {
        assert(es.drop_last() =~= es.subrange(0, es.len() - 1));
        assert(es.subrange(0, k) =~= es.drop_last().subrange(0, k));
        lemma_prefix_text_bound(es.drop_last(), k);
        assert(view_elems(es).drop_last() =~= view_elems(es.drop_last()));
        assert(texts_of(view_elems(es)) == texts_of(view_elems(es.drop_last())) + text_of(view_elems(es).last()));
    } else {
        assert(es.subrange(0, k) =~= es);
    }
}

fn highlight_element(e: &GreenElement, off: usize, out: &mut Vec<Highlight>) -> (end: usize)
    requires
        off + text_of(view_elem(*e)).len() <= usize::MAX,
    ensures
        highlights_view(final(out)@) == highlights_view(old(out)@) + spans_of(view_elem(*e), off as int),
        end == off + text_of(view_elem(*e)).len(),
    decreases *e,
{
    match e {
        GreenElement::Token(t) => {
            let len = t.text.as_str().len();
            let end = off + len;
            match class_exec(t.kind) {
                Some(c) => {
                    let h = Highlight { start: off, end, kind: c };
                    proof {
                        lemma_highlights_push(out@, h);
                    }
                    out.push(h);
                },
                None => {
                    assert(highlights_view(out@) + seq![] =~= highlights_view(out@));
                },
            }
            end
        },
        GreenElement::Node(n) => {
            highlight_children(&n.children, off, out)
        },
    }
}

/// The highlights of the tree rooted at `root`, in document order.
pub fn highlight(root: &GreenNode) -> (r: Vec<Highlight>)
    requires
        text_of(view_node(*root)).len() <= usize::MAX,
    ensures
        highlights_view(r@) == spans_of(view_node(*root), 0),
{
    let mut out: Vec<Highlight> = Vec::new();
    highlight_children(&root.children, 0, &mut out);
    assert(highlights_view(Seq::<Highlight>::empty()) + spans_of(view_node(*root), 0) =~= spans_of(view_node(*root), 0));
    out
}

} // verus!
