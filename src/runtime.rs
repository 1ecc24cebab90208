//! The document session: one concrete tree, highlight set and diagnostic
//! set per open URI, derived afresh from the source on every change.
//!
//! The session is a plain value. Callers that share it between threads hold
//! it behind a lock, and parse into a local value before they take the lock
//! to swap an entry in.
use vstd::prelude::*;
use vstd::string::StringSliceAdditionalSpecFns;
use vstd::string::StringExecFns;
use vstd::utf8::*;
use crate::syntax::{SyntaxTree, view_node, tree_of, text_of};
use crate::parser::parse_text;
use crate::highlight::{Highlight, highlight, highlights_view, spans_of};
use crate::diagnostic::{DiagnosticSource, Diagnostic, DiagnosticSeverity, collect_syntax_diagnostics, diagnostics_view, findings_of};
use crate::backend_traits::CompilationResult;
use crate::compilation::{compilation_diagnostics, placed};
use crate::text::utf8;

verus! {

broadcast use vstd::utf8::encode_utf8_valid_utf8, vstd::utf8::is_char_boundary_start_end_of_seq;

/// How compilation is reached: a remote server, or a local executable.
#[derive(Debug, Clone, PartialEq, Eq)]
pub struct RuntimeConfig {
    pub remote: bool,
    pub server_url: Option<String>,
    pub auth_token: Option<String>,
    pub local_executable: Option<String>,
}

impl Default for RuntimeConfig {
    fn default() -> (r: RuntimeConfig)
        ensures
            r.remote,
            r.server_url is None,
            r.auth_token is None,
            r.local_executable is None,
    {
        RuntimeConfig { remote: true, server_url: None, auth_token: None, local_executable: None }
    }
}

#[derive(Debug)]
pub enum RuntimeError {
    /// The session could not be reached; a caller may retry.
    LockPoisoned,
    CompilationError { line: u32, column: u32, message: String },
    /// No document is open under this URI.
    DocumentNotFound(String),
    Unavailable(String),
    /// An edit range that is reversed, past the end of the source, or that
    /// splits a character.
    InvalidRange { start: usize, end: usize },
}

/// One open document and everything derived from its source.
pub struct Document {
    uri: String,
    source: String,
    syntax_tree: SyntaxTree,
    highlights: Vec<Highlight>,
    diagnostics: Vec<Diagnostic>,
    /// The messages of the last compilation, placed on this source.
    compiled: Vec<Diagnostic>,
}

/// The UTF-8 bytes of a string.
pub open spec fn bytes(s: String) -> Seq<u8> {
    utf8(s@)
}

/// `src` with the bytes `[start, end)` replaced by `new`.
pub open spec fn splice(src: Seq<u8>, start: int, end: int, new: Seq<u8>) -> Seq<u8> {
    src.subrange(0, start) + new + src.subrange(end, src.len() as int)
}

/// Whether `[start, end)` is a range of `src` that an edit may replace.
pub open spec fn valid_edit(src: Seq<u8>, start: int, end: int) -> bool {
    0 <= start <= end <= src.len() && is_char_boundary(src, start) && is_char_boundary(src, end)
}

impl Document {
    /// Everything stored is what the source gives.
    pub closed spec fn wf(self) -> bool {
        &&& view_node(self.syntax_tree.green) == tree_of(bytes(self.source))
        &&& highlights_view(self.highlights@) == spans_of(tree_of(bytes(self.source)), 0)
        &&& diagnostics_view(self.diagnostics@) == findings_of(tree_of(bytes(self.source)), 0)
    }

    pub closed spec fn uri_view(self) -> Seq<char> {
        self.uri@
    }

    pub closed spec fn source_view(self) -> Seq<u8> {
        bytes(self.source)
    }

    /// The source, and the compiler's diagnostics on it.
    pub closed spec fn entry_view(self) -> (Seq<u8>, Seq<(int, int, DiagnosticSeverity, Seq<char>, DiagnosticSource)>) {
        (bytes(self.source), diagnostics_view(self.compiled@))
    }

    /// Parses `source` and derives its highlights and diagnostics.
    pub fn from_source(uri: String, source: String) -> (r: Document)
        ensures
            r.wf(),
            r.uri_view() == uri@,
            r.source_view() == bytes(source),
            r.entry_view() == (bytes(source), Seq::<(int, int, DiagnosticSeverity, Seq<char>, DiagnosticSource)>::empty()),
    {
        let syntax_tree = parse_text(source.as_str());
        let n = source.as_str().as_bytes().len();
        assert(text_of(view_node(syntax_tree.green)).len() == n);
        let highlights = highlight(syntax_tree.root());
        let diagnostics = collect_syntax_diagnostics(syntax_tree.root());
        let compiled: Vec<Diagnostic> = Vec::new();
        assert(diagnostics_view(compiled@) =~= Seq::<(int, int, DiagnosticSeverity, Seq<char>, DiagnosticSource)>::empty());
        Document { uri, source, syntax_tree, highlights, diagnostics, compiled }
    }
}

pub struct ContextRuntime {
    config: RuntimeConfig,
    documents: Vec<Document>,
}

/// The position of the document open under `uri`, if any.
pub open spec fn has_uri(docs: Seq<Document>, uri: Seq<char>, k: int) -> bool {
    0 <= k < docs.len() && docs[k].uri_view() == uri
}

proof fn lemma_encode_concat(a: Seq<char>, b: Seq<char>)
    ensures
        encode_utf8(a + b) == encode_utf8(a) + encode_utf8(b),
    decreases a.len(),
{
    if a.len() == 0 {
        assert(a + b =~= b);
        assert(encode_utf8(a) + encode_utf8(b) =~= encode_utf8(b));
    } else {
        lemma_encode_concat(a.drop_first(), b);
        assert((a + b).drop_first() =~= a.drop_first() + b);
        assert((a + b)[0] == a[0]);
        assert(encode_utf8(a + b) =~= encode_utf8(a) + encode_utf8(b));
    }
}

/// The source under `uri` in `docs`, with the compiler's diagnostics on it.
pub open spec fn entry_in(docs: Seq<Document>, uri: Seq<char>) -> Option<(Seq<u8>, Seq<(int, int, DiagnosticSeverity, Seq<char>, DiagnosticSource)>)> {
    if exists|k: int| has_uri(docs, uri, k) {
        let k = choose|k: int| has_uri(docs, uri, k);
        Some(docs[k].entry_view())
    } else {
        None
    }
}

pub open spec fn unique(docs: Seq<Document>) -> bool {
    forall|a: int, b: int| 0 <= a < b < docs.len() ==> (#[trigger] docs[a]).uri_view() != (#[trigger] docs[b]).uri_view()
}

proof fn lemma_entry_in_at(docs: Seq<Document>, uri: Seq<char>, k: int)
    requires
        unique(docs),
        has_uri(docs, uri, k),
    ensures
        entry_in(docs, uri) == Some(docs[k].entry_view()),
{
    let j = choose|j: int| has_uri(docs, uri, j);
    if j != k {
        if j < k {
            assert(docs[j].uri_view() != docs[k].uri_view());
        } else {
            assert(docs[k].uri_view() != docs[j].uri_view());
        }
    }
}

/// Two lists that hold `v` at the same places, with the same sources there,
/// give `v` the same source.
proof fn lemma_same_source(a: Seq<Document>, b: Seq<Document>, v: Seq<char>)
    requires
        unique(a),
        unique(b),
        forall|j: int| has_uri(a, v, j) <==> has_uri(b, v, j),
        forall|j: int| has_uri(a, v, j) ==> a[j].entry_view() == b[j].entry_view(),
    ensures
        entry_in(a, v) == entry_in(b, v),
{
    if exists|j: int| has_uri(a, v, j) {
        let j = choose|j: int| has_uri(a, v, j);
        lemma_entry_in_at(a, v, j);
        lemma_entry_in_at(b, v, j);
    } else {
        assert(!exists|j: int| has_uri(b, v, j));
    }
}

proof fn lemma_put_replace(a: Seq<Document>, b: Seq<Document>, k: int, doc: Document)
    requires
        unique(a),
        has_uri(a, doc.uri_view(), k),
        b == a.update(k, doc),
    ensures
        unique(b),
        entry_in(b, doc.uri_view()) == Some(doc.entry_view()),
        forall|u: Seq<char>| u != doc.uri_view() ==> entry_in(b, u) == entry_in(a, u),
{
    let u = doc.uri_view();
    assert forall|x: int, y: int| 0 <= x < y < b.len() implies (#[trigger] b[x]).uri_view() != (#[trigger] b[y]).uri_view() by {
        assert(a[x].uri_view() != a[y].uri_view());
    }
    lemma_entry_in_at(b, u, k);
    assert forall|v: Seq<char>| v != u implies entry_in(b, v) == entry_in(a, v) by {
        assert forall|j: int| has_uri(a, v, j) <==> has_uri(b, v, j) by {
            if j == k {
                assert(b[j].uri_view() == u);
            }
        }
        lemma_same_source(a, b, v);
    }
}

proof fn lemma_put_push(a: Seq<Document>, b: Seq<Document>, doc: Document)
    requires
        unique(a),
        forall|k: int| !has_uri(a, doc.uri_view(), k),
        b == a.push(doc),
    ensures
        unique(b),
        entry_in(b, doc.uri_view()) == Some(doc.entry_view()),
        forall|u: Seq<char>| u != doc.uri_view() ==> entry_in(b, u) == entry_in(a, u),
{
    let n = a.len() as int;
    let u = doc.uri_view();
    assert forall|x: int, y: int| 0 <= x < y < b.len() implies (#[trigger] b[x]).uri_view() != (#[trigger] b[y]).uri_view() by {
        if y == n {
            assert(!has_uri(a, u, x));
        } else {
            assert(a[x].uri_view() != a[y].uri_view());
        }
    }
    assert(has_uri(b, u, n));
    lemma_entry_in_at(b, u, n);
    assert forall|v: Seq<char>| v != u implies entry_in(b, v) == entry_in(a, v) by {
        assert forall|j: int| has_uri(a, v, j) <==> has_uri(b, v, j) by {
            if j == n {
                assert(b[j].uri_view() == u);
            }
        }
        lemma_same_source(a, b, v);
    }
}

proof fn lemma_remove(a: Seq<Document>, b: Seq<Document>, k: int)
    requires
        unique(a),
        0 <= k < a.len(),
        b == a.remove(k),
    ensures
        unique(b),
        entry_in(b, a[k].uri_view()) is None,
        forall|u: Seq<char>| u != a[k].uri_view() ==> entry_in(b, u) == entry_in(a, u),
        forall|j: int| 0 <= j < b.len() ==> #[trigger] b[j] == a[if j < k { j } else { j + 1 }],
{
    let u = a[k].uri_view();
    assert forall|x: int, y: int| 0 <= x < y < b.len() implies (#[trigger] b[x]).uri_view() != (#[trigger] b[y]).uri_view() by {
        let x0 = if x < k { x } else { x + 1 };
        let y0 = if y < k { y } else { y + 1 };
        assert(b[x] == a[x0]);
        assert(b[y] == a[y0]);
        assert(a[x0].uri_view() != a[y0].uri_view());
    }
    assert forall|j: int| !has_uri(b, u, j) by {
        if 0 <= j < b.len() {
            let j0 = if j < k { j } else { j + 1 };
            assert(b[j] == a[j0]);
            if j0 < k {
                assert(a[j0].uri_view() != a[k].uri_view());
            } else {
                assert(a[k].uri_view() != a[j0].uri_view());
            }
        }
    }
    assert forall|v: Seq<char>| v != u implies entry_in(b, v) == entry_in(a, v) by {
        if exists|j: int| has_uri(a, v, j) {
            let j = choose|j: int| has_uri(a, v, j);
            lemma_entry_in_at(a, v, j);
            let j1 = if j < k { j } else { j - 1 };
            assert(b[j1] == a[j]);
            lemma_entry_in_at(b, v, j1);
        } else {
            assert forall|j: int| !has_uri(b, v, j) by {
                if 0 <= j < b.len() {
                    let j0 = if j < k { j } else { j + 1 };
                    assert(b[j] == a[j0]);
                    if has_uri(b, v, j) {
                        assert(has_uri(a, v, j0));
                    }
                }
            }
        }
    }
}

/// `src` with the bytes `[start, end)` replaced by `new_text`, if that
/// range is a valid edit of it.
pub fn edited(src: &str, start: usize, end: usize, new_text: &str) -> (r: Option<String>)
    ensures
        !valid_edit(src.spec_bytes(), start as int, end as int) ==> r is None,
        valid_edit(src.spec_bytes(), start as int, end as int) ==> (r matches Some(t) && bytes(t) == splice(
            src.spec_bytes(),
            start as int,
            end as int,
            new_text.spec_bytes(),
        )),
{
    let ghost b = src.spec_bytes();
    let n = src.as_bytes().len();
    if !(start <= end && end <= n && src.is_char_boundary(start) && src.is_char_boundary(end)) {
        return None;
    }
    let (before, _) = src.split_at(start);
    let (_, after) = src.split_at(end);
    let mut text = before.to_owned();
    text.append(new_text);
    text.append(after);
    proof {
        lemma_encode_concat(before@ + new_text@, after@);
        lemma_encode_concat(before@, new_text@);
        assert(bytes(text) == splice(b, start as int, end as int, new_text.spec_bytes()));
    }
    Some(text)
}

fn copy_diagnostics(ds: &Vec<Diagnostic>, out: &mut Vec<Diagnostic>)
    ensures
        diagnostics_view(final(out)@) == diagnostics_view(old(out)@) + diagnostics_view(ds@),
{
    let mut j: usize = 0;
    while j < ds.len()
        invariant
            j <= ds@.len(),
            out@ == old(out)@ + ds@.subrange(0, j as int),
        decreases ds@.len() - j,
    {
        out.push(ds[j].copy());
        j = j + 1;
        assert(out@ =~= old(out)@ + ds@.subrange(0, j as int));
    }
    assert(ds@.subrange(0, j as int) =~= ds@);
    proof {
        crate::diagnostic::lemma_diagnostics_concat(old(out)@, ds@);
    }
}

impl ContextRuntime {
    /// Each open document is well formed, and no two share a URI.
    pub closed spec fn wf(self) -> bool {
        &&& forall|k: int| 0 <= k < self.documents@.len() ==> (#[trigger] self.documents@[k]).wf()
        &&& unique(self.documents@)
    }

    /// The source of the document open under `uri`.
    pub closed spec fn source(self, uri: Seq<char>) -> Option<Seq<u8>> {
        match entry_in(self.documents@, uri) {
            Some(e) => Some(e.0),
            None => None,
        }
    }

    /// The compiler's diagnostics on the document open under `uri`.
    pub closed spec fn compiled(self, uri: Seq<char>) -> Seq<(int, int, DiagnosticSeverity, Seq<char>, DiagnosticSource)> {
        match entry_in(self.documents@, uri) {
            Some(e) => e.1,
            None => seq![],
        }
    }

    pub closed spec fn config_view(self) -> RuntimeConfig {
        self.config
    }

    pub fn new(config: RuntimeConfig) -> (r: ContextRuntime)
        ensures
            r.wf(),
            r.config_view() == config,
            forall|u: Seq<char>| r.source(u) is None,
    {
        ContextRuntime { config, documents: Vec::new() }
    }

    fn find(&self, uri: &str) -> (r: Option<usize>)
        requires
            self.wf(),
        ensures
            r is Some ==> has_uri(self.documents@, uri@, r->0 as int),
            r is None ==> forall|k: int| !has_uri(self.documents@, uri@, k),
    {
        let mut k: usize = 0;
        while k < self.documents.len()
            invariant
                k <= self.documents@.len(),
                forall|j: int| 0 <= j < k ==> !has_uri(self.documents@, uri@, j),
            decreases self.documents@.len() - k,
        {
            if self.documents[k].uri.as_str().to_owned() == uri.to_owned() {
                return Some(k);
            }
            k = k + 1;
        }
        None
    }

    proof fn lemma_source_at(self, uri: Seq<char>, k: int)
        requires
            self.wf(),
            has_uri(self.documents@, uri, k),
        ensures
            self.source(uri) == Some(self.documents@[k].source_view()),
            self.compiled(uri) == self.documents@[k].entry_view().1,
    {
        lemma_entry_in_at(self.documents@, uri, k);
    }

    /// Stores `doc`, replacing the document open under its URI if there is
    /// one. Callers that share the session parse into `doc` first and hold
    /// the session only for this swap.
    pub fn insert_document(&mut self, doc: Document)
        requires
            old(self).wf(),
            doc.wf(),
        ensures
            final(self).wf(),
            final(self).config_view() == old(self).config_view(),
            final(self).source(doc.uri_view()) == Some(doc.source_view()),
            final(self).compiled(doc.uri_view()) == doc.entry_view().1,
            forall|u: Seq<char>| u != doc.uri_view() ==> final(self).source(u) == old(self).source(u),
            forall|u: Seq<char>| u != doc.uri_view() ==> final(self).compiled(u) == old(self).compiled(u),
    {
        let ghost u = doc.uri_view();
        let found = self.find(doc.uri.as_str());
        let ghost before = self.documents@;
        match found {
            Some(k) => {
                self.documents.remove(k);
                self.documents.insert(k, doc);
                proof {
                    assert(self.documents@ =~= before.update(k as int, doc));
                    lemma_put_replace(before, self.documents@, k as int, doc);
                }
            },
            None => {
                self.documents.push(doc);
                proof {
                    lemma_put_push(before, self.documents@, doc);
                }
            },
        }
    }

    /// Opens (or reopens) `uri` with `content`, parsing it afresh.
    pub fn open_document(&mut self, uri: String, content: String) -> (r: Result<(), RuntimeError>)
        requires
            old(self).wf(),
        ensures
            r is Ok,
            final(self).wf(),
            final(self).source(uri@) == Some(bytes(content)),
            final(self).compiled(uri@).len() == 0,
            forall|u: Seq<char>| u != uri@ ==> final(self).source(u) == old(self).source(u),
            forall|u: Seq<char>| u != uri@ ==> final(self).compiled(u) == old(self).compiled(u),
    {
        let doc = Document::from_source(uri, content);
        self.insert_document(doc);
        Ok(())
    }

    /// Replaces the bytes `[edit_range.start, edit_range.end)` of the source
    /// of `uri` by `new_text` and parses the result afresh.
    pub fn update_document(&mut self, uri: &str, edit_range: std::ops::Range<usize>, new_text: &str) -> (r: Result<(), RuntimeError>)
        requires
            old(self).wf(),
        ensures
            final(self).wf(),
            old(self).source(uri@) is None ==> (r matches Err(RuntimeError::DocumentNotFound(u)) && u@ == uri@),
            old(self).source(uri@) is Some && !valid_edit(old(self).source(uri@)->Some_0, edit_range.start as int, edit_range.end as int)
                ==> (r matches Err(RuntimeError::InvalidRange { start, end }) && start == edit_range.start && end == edit_range.end),
            old(self).source(uri@) is Some && valid_edit(old(self).source(uri@)->Some_0, edit_range.start as int, edit_range.end as int)
                ==> r is Ok && final(self).source(uri@) == Some(splice(
                    old(self).source(uri@)->Some_0,
                    edit_range.start as int,
                    edit_range.end as int,
                    new_text.spec_bytes(),
                )),
            r is Ok ==> final(self).compiled(uri@).len() == 0,
            r is Err ==> forall|u: Seq<char>| final(self).source(u) == old(self).source(u),
            r is Err ==> forall|u: Seq<char>| final(self).compiled(u) == old(self).compiled(u),
            forall|u: Seq<char>| u != uri@ ==> final(self).source(u) == old(self).source(u),
            forall|u: Seq<char>| u != uri@ ==> final(self).compiled(u) == old(self).compiled(u),
    {
        let start = edit_range.start;
        let end = edit_range.end;
        match self.find(uri) {
            None => {
                proof {
                    assert(!(exists|k: int| has_uri(self.documents@, uri@, k)));
                }
                Err(RuntimeError::DocumentNotFound(uri.to_owned()))
            },
            Some(k) => {
                proof {
                    self.lemma_source_at(uri@, k as int);
                }
                let src = self.documents[k].source.as_str();
                let text = match edited(src, start, end, new_text) {
                    Some(t) => t,
                    None => {
                        return Err(RuntimeError::InvalidRange { start, end });
                    },
                };
                let doc = Document::from_source(uri.to_owned(), text);
                self.insert_document(doc);
                Ok(())
            },
        }
    }

    /// Closes `uri`; nothing is left of it.
    pub fn close_document(&mut self, uri: &str)
        requires
            old(self).wf(),
        ensures
            final(self).wf(),
            final(self).source(uri@) is None,
            final(self).compiled(uri@).len() == 0,
            forall|u: Seq<char>| u != uri@ ==> final(self).source(u) == old(self).source(u),
            forall|u: Seq<char>| u != uri@ ==> final(self).compiled(u) == old(self).compiled(u),
    {
        match self.find(uri) {
            None => {
                proof {
                    assert(!(exists|k: int| has_uri(self.documents@, uri@, k)));
                }
            },
            Some(k) => {
                let ghost before = self.documents@;
                self.documents.remove(k);
                proof {
                    lemma_remove(before, self.documents@, k as int);
                    assert forall|j: int| 0 <= j < self.documents@.len() implies (#[trigger] self.documents@[j]).wf() by {
                        let i = if j < k { j } else { j + 1 };
                        assert(before[i].wf());
                    }
                }
            },
        }
    }

    /// The source of `uri`, if it is open.
    pub fn get_document_source(&self, uri: &str) -> (r: Option<String>)
        requires
            self.wf(),
        ensures
            self.source(uri@) is None ==> r is None,
            self.source(uri@) is Some ==> (r matches Some(t) && bytes(t) == self.source(uri@)->Some_0),
    {
        match self.find(uri) {
            None => None,
            Some(k) => {
                proof {
                    self.lemma_source_at(uri@, k as int);
                }
                Some(self.documents[k].source.clone())
            },
        }
    }

    /// The highlights of `uri`: those of its current source, or none.
    pub fn get_highlights(&self, uri: &str) -> (r: Vec<Highlight>)
        requires
            self.wf(),
        ensures
            self.source(uri@) is None ==> r@.len() == 0,
            self.source(uri@) is Some ==> highlights_view(r@) == spans_of(tree_of(self.source(uri@)->Some_0), 0),
    {
        match self.find(uri) {
            None => Vec::new(),
            Some(k) => {
                proof {
                    self.lemma_source_at(uri@, k as int);
                    assert(self.documents@[k as int].wf());
                }
                let hs = &self.documents[k].highlights;
                let mut out: Vec<Highlight> = Vec::new();
                let mut j: usize = 0;
                while j < hs.len()
                    invariant
                        j <= hs@.len(),
                        out@ == hs@.subrange(0, j as int),
                    decreases hs@.len() - j,
                {
                    out.push(hs[j]);
                    j = j + 1;
                    assert(out@ =~= hs@.subrange(0, j as int));
                }
                assert(hs@.subrange(0, j as int) =~= hs@);
                out
            },
        }
    }

    /// The diagnostics of `uri`: those of its current source, then those of
    /// its last compilation; none if it is not open.
    pub fn get_diagnostics(&self, uri: &str) -> (r: Vec<Diagnostic>)
        requires
            self.wf(),
        ensures
            self.source(uri@) is None ==> r@.len() == 0,
            self.source(uri@) is Some ==> diagnostics_view(r@) == findings_of(tree_of(self.source(uri@)->Some_0), 0)
                + self.compiled(uri@),
    {
        match self.find(uri) {
            None => Vec::new(),
            Some(k) => {
                proof {
                    self.lemma_source_at(uri@, k as int);
                    assert(self.documents@[k as int].wf());
                }
                let doc = &self.documents[k];
                let mut out: Vec<Diagnostic> = Vec::new();
                copy_diagnostics(&doc.diagnostics, &mut out);
                copy_diagnostics(&doc.compiled, &mut out);
                assert(diagnostics_view(Seq::<Diagnostic>::empty()) =~= seq![]);
                assert(seq![] + diagnostics_view(doc.diagnostics@) =~= diagnostics_view(doc.diagnostics@));
                out
            },
        }
    }

    /// Places the messages of a compilation of `uri` on its current source
    /// and keeps them until the source next changes.
    pub fn add_compilation_diagnostics(&mut self, uri: &str, result: &CompilationResult) -> (r: Result<(), RuntimeError>)
        requires
            old(self).wf(),
        ensures
            final(self).wf(),
            old(self).source(uri@) is None ==> (r matches Err(RuntimeError::DocumentNotFound(u)) && u@ == uri@),
            old(self).source(uri@) is Some ==> r is Ok && final(self).compiled(uri@) == old(self).compiled(uri@) + placed(
                old(self).source(uri@)->Some_0,
                result.errors@,
                DiagnosticSeverity::Error,
            ) + placed(old(self).source(uri@)->Some_0, result.warnings@, DiagnosticSeverity::Warning),
            forall|u: Seq<char>| final(self).source(u) == old(self).source(u),
            forall|u: Seq<char>| u != uri@ ==> final(self).compiled(u) == old(self).compiled(u),
    {
        match self.find(uri) {
            None => {
                proof {
                    assert(!(exists|k: int| has_uri(self.documents@, uri@, k)));
                }
                Err(RuntimeError::DocumentNotFound(uri.to_owned()))
            },
            Some(k) => {
                proof {
                    self.lemma_source_at(uri@, k as int);
                }
                let ghost before = self.documents@;
                let mut doc = self.documents.remove(k);
                assert(doc == before[k as int]);
                let mut extra = compilation_diagnostics(doc.source.as_str(), result);
                let ghost old_compiled = doc.compiled@;
                let ghost extra_view = extra@;
                doc.compiled.append(&mut extra);
                proof {
                    assert(doc.compiled@ =~= old_compiled + extra_view);
                    crate::diagnostic::lemma_diagnostics_concat(old_compiled, extra_view);
                    assert(doc.wf() == before[k as int].wf());
                }
                self.documents.insert(k, doc);
                proof {
                    assert(self.documents@ =~= before.update(k as int, doc));
                    lemma_put_replace(before, self.documents@, k as int, doc);
                    assert forall|j: int| 0 <= j < self.documents@.len() implies (#[trigger] self.documents@[j]).wf() by {
                        if j != k {
                            assert(self.documents@[j] == before[j]);
                        }
                    }
                    assert forall|u: Seq<char>| u != uri@ implies self.source(u) == old(self).source(u) && self.compiled(u) == old(self).compiled(u) by {}
                    assert(self.source(uri@) == old(self).source(uri@));
                }
                Ok(())
            },
        }
    }

    /// The URIs of the open documents.
    pub fn get_document_uris(&self) -> (r: Vec<String>)
        requires
            self.wf(),
        ensures
            forall|u: Seq<char>| (exists|k: int| 0 <= k < r@.len() && r@[k]@ == u) <==> self.source(u) is Some,
    {
        let mut out: Vec<String> = Vec::new();
        let mut j: usize = 0;
        while j < self.documents.len()
            invariant
                j <= self.documents@.len(),
                out@.len() == j,
                forall|k: int| 0 <= k < j ==> out@[k]@ == self.documents@[k].uri_view(),
            decreases self.documents@.len() - j,
        {
            out.push(self.documents[j].uri.clone());
            j = j + 1;
        }
        proof {
            assert forall|u: Seq<char>| (exists|k: int| 0 <= k < out@.len() && out@[k]@ == u) <==> self.source(u) is Some by {
                if exists|k: int| 0 <= k < out@.len() && out@[k]@ == u {
                    let k = choose|k: int| 0 <= k < out@.len() && out@[k]@ == u;
                    assert(has_uri(self.documents@, u, k));
                }
                if self.source(u) is Some {
                    let k = choose|k: int| has_uri(self.documents@, u, k);
                    assert(out@[k]@ == u);
                }
            }
        }
        out
    }
}

} // verus!
