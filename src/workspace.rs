//! A workspace of documents kept with their typed syntax trees.
use vstd::prelude::*;
use crate::ast::{ConTeXtNode, node_ok};
use crate::syntax::{SyntaxTree, view_node, tree_of, text_of};
use crate::parser::{parse_document, parse_text, document_spec, document_view};
use crate::ast::node_view;
use vstd::string::StringSliceAdditionalSpecFns;
use crate::highlight::{Highlight, highlight, highlights_view, spans_of};
use crate::runtime::bytes;

verus! {

/// A document whose text parsed, with its typed tree, concrete tree and
/// highlights.
pub struct Document {
    pub source: String,
    pub ast: ConTeXtNode,
    pub syntax_tree: SyntaxTree,
    pub highlights: Vec<Highlight>,
}

/// Everything a document holds is what its source gives.
pub open spec fn document_ok(d: Document) -> bool {
    &&& d.ast is Document
    &&& node_ok(bytes(d.source), d.ast)
    &&& document_spec(bytes(d.source)) == Ok::<_, crate::parser::ParseError>(node_view(d.ast))
    &&& view_node(d.syntax_tree.green) == tree_of(bytes(d.source))
    &&& highlights_view(d.highlights@) == spans_of(tree_of(bytes(d.source)), 0)
}

impl Document {
    /// The document of `source`, if its typed tree parses.
    pub fn from_str(source: &str) -> (r: Option<Document>)
        ensures
            r is Some <==> document_spec(source.spec_bytes()) is Ok,
            r matches Some(d) ==> document_ok(d) && d.source@ == source@,
    {
        let ast = match parse_document(source) {
            Ok(a) => a,
            Err(_) => {
                return None;
            },
        };
        let syntax_tree = parse_text(source);
        let n = source.as_bytes().len();
        assert(text_of(view_node(syntax_tree.green)).len() == n);
        let highlights = highlight(syntax_tree.root());
        Some(Document { source: source.to_owned(), ast, syntax_tree, highlights })
    }
}

pub struct Workspace {
    documents: Vec<(String, Document)>,
}

pub open spec fn at_uri(ds: Seq<(String, Document)>, uri: Seq<char>, k: int) -> bool {
    0 <= k < ds.len() && ds[k].0@ == uri
}

/// The document under `uri` in `ds`.
pub open spec fn document_in(ds: Seq<(String, Document)>, uri: Seq<char>) -> Option<Document> {
    if exists|k: int| at_uri(ds, uri, k) {
        Some(ds[choose|k: int| at_uri(ds, uri, k)].1)
    } else {
        None
    }
}

pub open spec fn distinct(ds: Seq<(String, Document)>) -> bool {
    forall|a: int, b: int| 0 <= a < b < ds.len() ==> (#[trigger] ds[a]).0@ != (#[trigger] ds[b]).0@
}

proof fn lemma_document_at(ds: Seq<(String, Document)>, uri: Seq<char>, k: int)
    requires
        distinct(ds),
        at_uri(ds, uri, k),
    ensures
        document_in(ds, uri) == Some(ds[k].1),
{
    let j = choose|j: int| at_uri(ds, uri, j);
    if j != k {
        if j < k {
            assert(ds[j].0@ != ds[k].0@);
        } else {
            assert(ds[k].0@ != ds[j].0@);
        }
    }
}

proof fn lemma_same_document(a: Seq<(String, Document)>, b: Seq<(String, Document)>, v: Seq<char>)
    requires
        distinct(a),
        distinct(b),
        forall|j: int| at_uri(a, v, j) <==> at_uri(b, v, j),
        forall|j: int| at_uri(a, v, j) ==> a[j].1 == b[j].1,
    ensures
        document_in(a, v) == document_in(b, v),
{
    if exists|j: int| at_uri(a, v, j) {
        let j = choose|j: int| at_uri(a, v, j);
        lemma_document_at(a, v, j);
        lemma_document_at(b, v, j);
    } else {
        assert(!exists|j: int| at_uri(b, v, j));
    }
}

impl Workspace {
    pub closed spec fn wf(self) -> bool {
        &&& distinct(self.documents@)
        &&& forall|k: int| 0 <= k < self.documents@.len() ==> document_ok(#[trigger] self.documents@[k].1)
    }

    /// The document open under `uri`.
    pub closed spec fn document(self, uri: Seq<char>) -> Option<Document> {
        document_in(self.documents@, uri)
    }

    pub fn new() -> (r: Workspace)
        ensures
            r.wf(),
            forall|u: Seq<char>| r.document(u) is None,
    {
        Workspace { documents: Vec::new() }
    }

    fn find(&self, uri: &str) -> (r: Option<usize>)
        ensures
            r is Some ==> at_uri(self.documents@, uri@, r->0 as int),
            r is None ==> forall|k: int| !at_uri(self.documents@, uri@, k),
    {
        let mut k: usize = 0;
        while k < self.documents.len()
            invariant
                k <= self.documents@.len(),
                forall|j: int| 0 <= j < k ==> !at_uri(self.documents@, uri@, j),
            decreases self.documents@.len() - k,
        {
            if self.documents[k].0.as_str().to_owned() == uri.to_owned() {
                return Some(k);
            }
            k = k + 1;
        }
        None
    }

    /// Opens `uri` with `text` if the text parses, replacing what was open
    /// under it; otherwise changes nothing and returns `false`.
    pub fn open(&mut self, uri: &str, text: &str) -> (r: bool)
        requires
            old(self).wf(),
        ensures
            final(self).wf(),
            r == document_spec(text.spec_bytes()) is Ok,
            r ==> (final(self).document(uri@) matches Some(d) && d.source@ == text@),
            !r ==> final(self).document(uri@) == old(self).document(uri@),
            forall|u: Seq<char>| u != uri@ ==> final(self).document(u) == old(self).document(u),
    {
        let doc = match Document::from_str(text) {
            Some(d) => d,
            None => {
                return false;
            },
        };
        let ghost before = self.documents@;
        let ghost u = uri@;
        let key = uri.to_owned();
        let ghost entry = (key, doc);
        match self.find(uri) {
            Some(k) => {
                self.documents.remove(k);
                self.documents.insert(k, (key, doc));
                proof {
                    let after = self.documents@;
                    assert(after =~= before.update(k as int, entry));
                    assert forall|a: int, b: int| 0 <= a < b < after.len() implies (#[trigger] after[a]).0@ != (#[trigger] after[b]).0@ by {
                        assert(before[a].0@ != before[b].0@);
                    }
                    lemma_document_at(after, u, k as int);
                    assert forall|v: Seq<char>| v != u implies document_in(after, v) == document_in(before, v) by {
                        assert forall|j: int| at_uri(before, v, j) <==> at_uri(after, v, j) by {}
                        lemma_same_document(before, after, v);
                    }
                }
            },
            None => {
                self.documents.push((key, doc));
                proof {
                    let after = self.documents@;
                    let n = before.len() as int;
                    assert(after == before.push(entry));
                    assert forall|a: int, b: int| 0 <= a < b < after.len() implies (#[trigger] after[a]).0@ != (#[trigger] after[b]).0@ by {
                        if b == n {
                            assert(!at_uri(before, u, a));
                        } else {
                            assert(before[a].0@ != before[b].0@);
                        }
                    }
                    assert(at_uri(after, u, n));
                    lemma_document_at(after, u, n);
                    assert forall|v: Seq<char>| v != u implies document_in(after, v) == document_in(before, v) by {
                        assert forall|j: int| at_uri(before, v, j) <==> at_uri(after, v, j) by {}
                        lemma_same_document(before, after, v);
                    }
                }
            },
        }
        true
    }

    /// The same as `open`: the new text is parsed whole.
    pub fn update(&mut self, uri: &str, text: &str) -> (r: bool)
        requires
            old(self).wf(),
        ensures
            final(self).wf(),
            r == document_spec(text.spec_bytes()) is Ok,
            r ==> (final(self).document(uri@) matches Some(d) && d.source@ == text@),
            !r ==> final(self).document(uri@) == old(self).document(uri@),
            forall|u: Seq<char>| u != uri@ ==> final(self).document(u) == old(self).document(u),
    {
        self.open(uri, text)
    }

    pub fn highlights(&self, uri: &str) -> (r: Option<&[Highlight]>)
        requires
            self.wf(),
        ensures
            self.document(uri@) is None ==> r is None,
            self.document(uri@) matches Some(d) ==> (r matches Some(h) && h@ == d.highlights@),
    {
        match self.find(uri) {
            None => None,
            Some(k) => {
                proof {
                    lemma_document_at(self.documents@, uri@, k as int);
                }
                Some(self.documents[k].1.highlights.as_slice())
            },
        }
    }

    pub fn ast(&self, uri: &str) -> (r: Option<&ConTeXtNode>)
        requires
            self.wf(),
        ensures
            self.document(uri@) is None ==> r is None,
            self.document(uri@) matches Some(d) ==> (r matches Some(a) && *a == d.ast),
    {
        match self.find(uri) {
            None => None,
            Some(k) => {
                proof {
                    lemma_document_at(self.documents@, uri@, k as int);
                }
                Some(&self.documents[k].1.ast)
            },
        }
    }

    pub fn source(&self, uri: &str) -> (r: Option<&str>)
        requires
            self.wf(),
        ensures
            self.document(uri@) is None ==> r is None,
            self.document(uri@) matches Some(d) ==> (r matches Some(t) && t@ == d.source@),
    {
        match self.find(uri) {
            None => None,
            Some(k) => {
                proof {
                    lemma_document_at(self.documents@, uri@, k as int);
                }
                Some(self.documents[k].1.source.as_str())
            },
        }
    }
}

} // verus!
