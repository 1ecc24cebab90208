//! Structural diagnostics: unknown commands and environments, and regions of
//! the concrete tree that did not parse.
use vstd::prelude::*;
use vstd::string::StringSliceAdditionalSpecFns;
use vstd::string::StringExecFns;
use vstd::utf8::decode_utf8;
use crate::syntax::{SyntaxKind, GreenElement, GreenNode, GreenView, view_elem, view_elems, view_node, text_of, texts_of};
use crate::text::{utf8, slice_str, bytes_at, has_at};
use crate::lexer::{kw_start, start_bytes};
use crate::ast::ConTeXtNode;

verus! {

broadcast use vstd::utf8::encode_utf8_decode_utf8;

#[derive(Debug, Clone, Copy, PartialEq, Eq, Structural)]
pub enum DiagnosticSeverity {
    Error,
    Warning,
    Info,
}

pub open spec fn severity_name(s: DiagnosticSeverity) -> Seq<char> {
    match s {
        DiagnosticSeverity::Error => "error"@,
        DiagnosticSeverity::Warning => "warning"@,
        DiagnosticSeverity::Info => "info"@,
    }
}

impl DiagnosticSeverity {
    /// The lowercase name of the severity.
    pub fn to_string(&self) -> (r: String)
        ensures
            r@ == severity_name(*self),
    {
        let s = match self {
            DiagnosticSeverity::Error => "error",
            DiagnosticSeverity::Warning => "warning",
            DiagnosticSeverity::Info => "info",
        };
        s.to_owned()
    }
}

/// Where a diagnostic comes from.
#[derive(Debug, Clone, Copy, PartialEq, Eq, Structural)]
pub enum DiagnosticSource {
    /// The structure of the text.
    Syntax,
    /// A compilation of the text.
    Compiler,
}

pub open spec fn source_name(s: DiagnosticSource) -> Seq<char> {
    match s {
        DiagnosticSource::Syntax => "syntax"@,
        DiagnosticSource::Compiler => "compiler"@,
    }
}

impl DiagnosticSource {
    /// The lowercase name of the source.
    pub fn to_string(&self) -> (r: String)
        ensures
            r@ == source_name(*self),
    {
        let s = match self {
            DiagnosticSource::Syntax => "syntax",
            DiagnosticSource::Compiler => "compiler",
        };
        s.to_owned()
    }
}

/// A finding about the byte range `[start, end)` of a document.
#[derive(Debug, Clone, PartialEq)]
pub struct Diagnostic {
    pub start: usize,
    pub end: usize,
    pub severity: DiagnosticSeverity,
    pub message: String,
    pub source: DiagnosticSource,
}

impl Diagnostic {
    pub fn error(start: usize, length: usize, message: String) -> (r: Diagnostic)
        requires
            start + length <= usize::MAX,
        ensures
            r.start == start,
            r.end == start + length,
            r.severity == DiagnosticSeverity::Error,
            r.message == message,
            r.source == DiagnosticSource::Syntax,
    {
        Diagnostic { start, end: start + length, severity: DiagnosticSeverity::Error, message, source: DiagnosticSource::Syntax }
    }

    pub fn warning(start: usize, length: usize, message: String) -> (r: Diagnostic)
        requires
            start + length <= usize::MAX,
        ensures
            r.start == start,
            r.end == start + length,
            r.severity == DiagnosticSeverity::Warning,
            r.message == message,
            r.source == DiagnosticSource::Syntax,
    {
        Diagnostic { start, end: start + length, severity: DiagnosticSeverity::Warning, message, source: DiagnosticSource::Syntax }
    }

    /// A copy of this diagnostic.
    pub fn copy(&self) -> (r: Diagnostic)
        ensures
            r == *self,
    {
        Diagnostic {
            start: self.start,
            end: self.end,
            severity: self.severity,
            message: self.message.clone(),
            source: self.source,
        }
    }
}

pub open spec fn diagnostics_view(ds: Seq<Diagnostic>) -> Seq<(int, int, DiagnosticSeverity, Seq<char>, DiagnosticSource)> {
    Seq::new(ds.len(), |k: int| (ds[k].start as int, ds[k].end as int, ds[k].severity, ds[k].message@, ds[k].source))
}

/// The commands the engine knows.
pub open spec fn known_command(n: Seq<char>) -> bool {
    ||| n == "setupbodyfont"@ ||| n == "setuppapersize"@ ||| n == "setupmargins"@
    ||| n == "setuphead"@ ||| n == "setuplist"@ ||| n == "setupitemize"@
    ||| n == "setupenumerate"@ ||| n == "setupdescription"@ ||| n == "definefont"@
    ||| n == "definecolor"@ ||| n == "definelayout"@ ||| n == "setupcolor"@
    ||| n == "input"@ ||| n == "component"@ ||| n == "product"@ ||| n == "environment"@
    ||| n == "project"@ ||| n == "em"@ ||| n == "bf"@ ||| n == "it"@ ||| n == "tt"@
    ||| n == "rm"@ ||| n == "sf"@ ||| n == "sc"@ ||| n == "sl"@ ||| n == "item"@
    ||| n == "head"@ ||| n == "subhead"@ ||| n == "subsubhead"@ ||| n == "title"@
    ||| n == "subject"@ ||| n == "page"@ ||| n == "blank"@ ||| n == "space"@
    ||| n == "par"@ ||| n == "break"@ ||| n == "hfill"@ ||| n == "vfill"@
    ||| n == "starttext"@ ||| n == "stoptext"@ ||| n == "startdocument"@
    ||| n == "stopdocument"@
}

/// The environments the engine knows.
pub open spec fn known_environment(n: Seq<char>) -> bool {
    ||| n == "document"@ ||| n == "text"@ ||| n == "itemize"@ ||| n == "enumerate"@
    ||| n == "description"@ ||| n == "table"@ ||| n == "tabulate"@ ||| n == "figure"@
    ||| n == "float"@ ||| n == "framed"@ ||| n == "typing"@ ||| n == "verbatim"@
    ||| n == "quote"@ ||| n == "quotation"@ ||| n == "lines"@ ||| n == "formula"@
    ||| n == "math"@ ||| n == "alignment"@ ||| n == "combinations"@ ||| n == "columns"@
}

fn same(a: &str, b: &str) -> (r: bool)
    ensures
        r == (a@ == b@),
{
    a.to_owned() == b.to_owned()
}

pub fn is_known_command(name: &str) -> (r: bool)
    ensures
        r == known_command(name@),
{
    same(name, "setupbodyfont") || same(name, "setuppapersize") || same(name, "setupmargins")
        || same(name, "setuphead") || same(name, "setuplist") || same(name, "setupitemize")
        || same(name, "setupenumerate") || same(name, "setupdescription") || same(name, "definefont")
        || same(name, "definecolor") || same(name, "definelayout") || same(name, "setupcolor")
        || same(name, "input") || same(name, "component") || same(name, "product") || same(name, "environment")
        || same(name, "project") || same(name, "em") || same(name, "bf") || same(name, "it") || same(name, "tt")
        || same(name, "rm") || same(name, "sf") || same(name, "sc") || same(name, "sl") || same(name, "item")
        || same(name, "head") || same(name, "subhead") || same(name, "subsubhead") || same(name, "title")
        || same(name, "subject") || same(name, "page") || same(name, "blank") || same(name, "space")
        || same(name, "par") || same(name, "break") || same(name, "hfill") || same(name, "vfill")
        || same(name, "starttext") || same(name, "stoptext") || same(name, "startdocument")
        || same(name, "stopdocument")
}

pub fn is_known_environment(name: &str) -> (r: bool)
    ensures
        r == known_environment(name@),
{
    same(name, "document") || same(name, "text") || same(name, "itemize") || same(name, "enumerate")
        || same(name, "description") || same(name, "table") || same(name, "tabulate") || same(name, "figure")
        || same(name, "float") || same(name, "framed") || same(name, "typing") || same(name, "verbatim")
        || same(name, "quote") || same(name, "quotation") || same(name, "lines") || same(name, "formula")
        || same(name, "math") || same(name, "alignment") || same(name, "combinations") || same(name, "columns")
}

/// `w` without the leading `p`, if it begins with it.
pub open spec fn strip(w: Seq<u8>, p: Seq<u8>) -> Seq<u8> {
    if has_at(w, 0, p) {
        w.subrange(p.len() as int, w.len() as int)
    } else {
        w
    }
}

/// `\`
pub open spec fn backslash() -> Seq<u8> {
    seq![0x5cu8]
}

/// The diagnostic a node raises by itself, given its first child and the
/// byte offset where it starts.
pub open spec fn own_finding(kind: SyntaxKind, cs: Seq<GreenView>, v: GreenView, off: int) -> Seq<(int, int, DiagnosticSeverity, Seq<char>, DiagnosticSource)> {
    if kind == SyntaxKind::Error {
        seq![(off, off + text_of(v).len(), DiagnosticSeverity::Error, "Syntax error"@, DiagnosticSource::Syntax)]
    } else if cs.len() > 0 && cs[0] is Token && kind == SyntaxKind::Command {
        let w = cs[0]->Token_1;
        let name = decode_utf8(strip(w, backslash()));
        if known_command(name) {
            seq![]
        } else {
            seq![(off, off + w.len(), DiagnosticSeverity::Warning, "Unknown command: \\"@ + name, DiagnosticSource::Syntax)]
        }
    } else if cs.len() > 0 && cs[0] is Token && kind == SyntaxKind::Environment {
        let w = cs[0]->Token_1;
        let name = decode_utf8(strip(w, kw_start()));
        if known_environment(name) {
            seq![]
        } else {
            seq![(off, off + w.len(), DiagnosticSeverity::Warning, "Unknown environment: "@ + name, DiagnosticSource::Syntax)]
        }
    } else {
        seq![]
    }
}

/// The diagnostics of an element whose text starts at byte `off`, each node
/// before its descendants, in document order.
pub open spec fn findings_of(v: GreenView, off: int) -> Seq<(int, int, DiagnosticSeverity, Seq<char>, DiagnosticSource)>
    decreases v,
{
    match v {
        GreenView::Token(_, _) => seq![],
        GreenView::Node(kind, cs) => own_finding(kind, cs, v, off) + findings_of_all(cs, off),
    }
}

pub open spec fn findings_of_all(vs: Seq<GreenView>, off: int) -> Seq<(int, int, DiagnosticSeverity, Seq<char>, DiagnosticSource)>
    decreases vs,
{
    if vs.len() == 0 {
        seq![]
    } else {
        findings_of_all(vs.drop_last(), off) + findings_of(vs.last(), off + texts_of(vs.drop_last()).len())
    }
}

proof fn lemma_diagnostics_push(ds: Seq<Diagnostic>, d: Diagnostic)
    ensures
        diagnostics_view(ds.push(d)) == diagnostics_view(ds) + seq![(d.start as int, d.end as int, d.severity, d.message@, d.source)],
{
    assert(diagnostics_view(ds.push(d)) =~= diagnostics_view(ds) + seq![(d.start as int, d.end as int, d.severity, d.message@, d.source)]);
}

pub(crate) proof fn lemma_diagnostics_concat(a: Seq<Diagnostic>, b: Seq<Diagnostic>)
    ensures
        diagnostics_view(a + b) == diagnostics_view(a) + diagnostics_view(b),
{
    assert(diagnostics_view(a + b) =~= diagnostics_view(a) + diagnostics_view(b));
}

/// The text of `t` without the leading `p`, if it begins with it; `p` is
/// made of ASCII bytes.
fn strip_prefix(t: &str, p: &[u8]) -> (r: String)
    requires
        forall|k: int| 0 <= k < p@.len() ==> p@[k] < 0x80,
    ensures
        utf8(r@) == strip(t.spec_bytes(), p@),
{
    let b = t.as_bytes();
    let ghost w = t.spec_bytes();
    if bytes_at(b, 0, p) {
        if p.len() > 0 {
            assert(w.subrange(0, p@.len() as int)[p@.len() - 1] == p@[p@.len() - 1]);
        }
        slice_str(t, p.len(), b.len())
    } else {
        let r = t.to_owned();
        r
    }
}

/// The diagnostic that node `n`, starting at `off` and `len` bytes long,
/// raises by itself.
fn own_finding_exec(n: &GreenNode, off: usize, len: usize, out: &mut Vec<Diagnostic>)
    requires
        len == text_of(view_node(*n)).len(),
        off + len <= usize::MAX,
    ensures
        diagnostics_view(final(out)@) == diagnostics_view(old(out)@) + own_finding(
            n.kind,
            view_elems(n.children@),
            view_node(*n),
            off as int,
        ),
{
    let ghost cs = view_elems(n.children@);
    if n.kind == SyntaxKind::Error {
        let d = Diagnostic::error(off, len, "Syntax error".to_owned());
        proof {
            lemma_diagnostics_push(out@, d);
        }
        out.push(d);
        return;
    }
    if n.children.len() == 0 || !(n.kind == SyntaxKind::Command || n.kind == SyntaxKind::Environment) {
        assert(diagnostics_view(out@) + seq![] =~= diagnostics_view(out@));
        return;
    }
    proof {
        lemma_first_view(n.children@);
    }
    match &n.children[0] {
        GreenElement::Node(_) => {
            assert(diagnostics_view(out@) + seq![] =~= diagnostics_view(out@));
        },
        GreenElement::Token(t) => {
            let ghost w = utf8(t.text@);
            proof {
                lemma_first_len(n.children@);
            }
            let tlen = t.text.as_str().len();
            if n.kind == SyntaxKind::Command {
                let slash = vec![0x5cu8];
                assert(slash@ =~= backslash());
                let name = strip_prefix(t.text.as_str(), slash.as_slice());
                if !is_known_command(name.as_str()) {
                    let mut m = "Unknown command: \\".to_owned();
                    m.append(name.as_str());
                    let d = Diagnostic::warning(off, tlen, m);
                    proof {
                        lemma_diagnostics_push(out@, d);
                    }
                    out.push(d);
                } else {
                    assert(diagnostics_view(out@) + seq![] =~= diagnostics_view(out@));
                }
            } else {
                let start = start_bytes();
                let name = strip_prefix(t.text.as_str(), start.as_slice());
                if !is_known_environment(name.as_str()) {
                    let mut m = "Unknown environment: ".to_owned();
                    m.append(name.as_str());
                    let d = Diagnostic::warning(off, tlen, m);
                    proof {
                        lemma_diagnostics_push(out@, d);
                    }
                    out.push(d);
                } else {
                    assert(diagnostics_view(out@) + seq![] =~= diagnostics_view(out@));
                }
            }
        },
    }
}

proof fn lemma_first_view(es: Seq<GreenElement>)
    requires
        es.len() > 0,
    ensures
        view_elems(es)[0] == view_elem(es[0]),
        view_elems(es).len() == es.len(),
    decreases es.len(),
{
    let vs = view_elems(es);
    assert(vs == view_elems(es.drop_last()) + seq![view_elem(es.last())]);
    if es.len() > 1 {
        lemma_first_view(es.drop_last());
        assert(es.drop_last()[0] == es[0]);
    } else {
        assert(es.drop_last() =~= Seq::<GreenElement>::empty());
        assert(view_elems(es.drop_last()) =~= Seq::<GreenView>::empty());
    }
}

/// The first child's text is no longer than all the children's.
proof fn lemma_first_len(es: Seq<GreenElement>)
    requires
        es.len() > 0,
    ensures
        text_of(view_elem(es[0])).len() <= texts_of(view_elems(es)).len(),
    decreases es.len(),
{
    let vs = view_elems(es);
    assert(vs.drop_last() =~= view_elems(es.drop_last()));
    if es.len() > 1 {
        lemma_first_len(es.drop_last());
        assert(es.drop_last()[0] == es[0]);
    } else {
        assert(es.drop_last() =~= Seq::<GreenElement>::empty());
        assert(texts_of(view_elems(es)) == texts_of(view_elems(es.drop_last())) + text_of(view_elem(es[0])));
    }
}

proof fn lemma_prefix_len(es: Seq<GreenElement>, k: int)
    requires
        0 <= k <= es.len(),
    ensures
        texts_of(view_elems(es.subrange(0, k))).len() <= texts_of(view_elems(es)).len(),
    decreases es.len(),
{
    if k < es.len() {
        assert(es.drop_last() =~= es.subrange(0, es.len() - 1));
        assert(es.subrange(0, k) =~= es.drop_last().subrange(0, k));
        lemma_prefix_len(es.drop_last(), k);
        assert(view_elems(es).drop_last() =~= view_elems(es.drop_last()));
        assert(texts_of(view_elems(es)) == texts_of(view_elems(es.drop_last())) + text_of(view_elems(es).last()));
    } else {
        assert(es.subrange(0, k) =~= es);
    }
}

fn collect_children(children: &Vec<GreenElement>, off: usize, out: &mut Vec<Diagnostic>) -> (end: usize)
    requires
        off + texts_of(view_elems(children@)).len() <= usize::MAX,
    ensures
        diagnostics_view(final(out)@) == diagnostics_view(old(out)@) + findings_of_all(view_elems(children@), off as int),
        end == off + texts_of(view_elems(children@)).len(),
    decreases children@,
{
    let mut cur = off;
    let mut k: usize = 0;
    proof {
        assert(children@.subrange(0, 0) =~= Seq::<GreenElement>::empty());
        assert(diagnostics_view(out@) + findings_of_all(view_elems(Seq::<GreenElement>::empty()), off as int) =~= diagnostics_view(out@));
    }
    while k < children.len()
        invariant
            0 <= k <= children@.len(),
            off + texts_of(view_elems(children@)).len() <= usize::MAX,
            diagnostics_view(out@) == diagnostics_view(old(out)@) + findings_of_all(view_elems(children@.subrange(0, k as int)), off as int),
            cur == off + texts_of(view_elems(children@.subrange(0, k as int))).len(),
        decreases children@.len() - k,
    {
        let ghost pre = children@.subrange(0, k as int);
        let ghost cur_seq = children@.subrange(0, k + 1);
        proof {
            assert(cur_seq.drop_last() =~= pre);
            assert(cur_seq.last() == children@[k as int]);
            assert(view_elems(cur_seq) == view_elems(pre) + seq![view_elem(children@[k as int])]);
            assert(view_elems(cur_seq).drop_last() =~= view_elems(pre));
            lemma_prefix_len(children@, k as int + 1);
        }
        let len = collect_element(&children[k], cur, out);
        cur = len;
        k = k + 1;
    }
    assert(children@.subrange(0, k as int) =~= children@);
    cur
}

fn collect_element(e: &GreenElement, off: usize, out: &mut Vec<Diagnostic>) -> (end: usize)
    requires
        off + text_of(view_elem(*e)).len() <= usize::MAX,
    ensures
        diagnostics_view(final(out)@) == diagnostics_view(old(out)@) + findings_of(view_elem(*e), off as int),
        end == off + text_of(view_elem(*e)).len(),
    decreases *e,
{
    match e {
        GreenElement::Token(t) => {
            assert(diagnostics_view(out@) + seq![] =~= diagnostics_view(out@));
            off + t.text.as_str().len()
        },
        GreenElement::Node(n) => {
            let mut inner: Vec<Diagnostic> = Vec::new();
            let end = collect_children(&n.children, off, &mut inner);
            own_finding_exec(n, off, end - off, out);
            let ghost a = out@;
            let ghost b = inner@;
            out.append(&mut inner);
            proof {
                assert(out@ =~= a + b);
                lemma_diagnostics_concat(a, b);
                assert(diagnostics_view(Seq::<Diagnostic>::empty()) =~= seq![]);
                assert(seq![] + findings_of_all(view_elems(n.children@), off as int) =~= findings_of_all(view_elems(n.children@), off as int));
            }
            end
        },
    }
}

/// The diagnostics of the tree rooted at `root`: a warning on the name of
/// each command and environment that the tables do not know, and an error
/// spanning each `Error` node, each node before its descendants.
pub fn collect_syntax_diagnostics(root: &GreenNode) -> (r: Vec<Diagnostic>)
    requires
        text_of(view_node(*root)).len() <= usize::MAX,
    ensures
        diagnostics_view(r@) == findings_of(view_node(*root), 0),
{
    let mut inner: Vec<Diagnostic> = Vec::new();
    let end = collect_children(&root.children, 0, &mut inner);
    let mut out: Vec<Diagnostic> = Vec::new();
    own_finding_exec(root, 0, end, &mut out);
    let ghost a = out@;
    let ghost b = inner@;
    out.append(&mut inner);
    proof {
        assert(out@ =~= a + b);
        lemma_diagnostics_concat(a, b);
        assert(diagnostics_view(Seq::<Diagnostic>::empty()) =~= seq![]);
    }
    out
}

/// The warnings of a typed tree: one at the span of each command and each
/// environment whose name the tables do not know, each node before its
/// descendants, in document order.
pub open spec fn ast_findings(n: ConTeXtNode) -> Seq<(int, int, DiagnosticSeverity, Seq<char>, DiagnosticSource)>
    decreases n,
{
    match n {
        ConTeXtNode::Document { preamble, body } => ast_findings_all(preamble@) + ast_findings_all(body@),
        ConTeXtNode::Command { name, arguments, span, .. } => (if known_command(name@) {
            seq![]
        } else {
            seq![(span.start as int, span.end as int, DiagnosticSeverity::Warning, "Unknown command: \\"@ + name@, DiagnosticSource::Syntax)]
        }) + ast_findings_all(arguments@),
        ConTeXtNode::StartStop { name, content, span, .. } => (if known_environment(name@) {
            seq![]
        } else {
            seq![(span.start as int, span.end as int, DiagnosticSeverity::Warning, "Unknown environment: "@ + name@, DiagnosticSource::Syntax)]
        }) + ast_findings_all(content@),
        _ => seq![],
    }
}

pub open spec fn ast_findings_all(ns: Seq<ConTeXtNode>) -> Seq<(int, int, DiagnosticSeverity, Seq<char>, DiagnosticSource)>
    decreases ns,
{
    if ns.len() == 0 {
        seq![]
    } else {
        ast_findings_all(ns.drop_last()) + ast_findings(ns.last())
    }
}

fn diagnose_all(ns: &Vec<ConTeXtNode>, out: &mut Vec<Diagnostic>)
    ensures
        diagnostics_view(final(out)@) == diagnostics_view(old(out)@) + ast_findings_all(ns@),
    decreases ns@,
{
    let mut k: usize = 0;
    assert(ns@.subrange(0, 0) =~= Seq::<ConTeXtNode>::empty());
    assert(diagnostics_view(out@) + ast_findings_all(Seq::<ConTeXtNode>::empty()) =~= diagnostics_view(out@));
    while k < ns.len()
        invariant
            0 <= k <= ns@.len(),
            diagnostics_view(out@) == diagnostics_view(old(out)@) + ast_findings_all(ns@.subrange(0, k as int)),
        decreases ns@.len() - k,
    {
        proof {
            assert(ns@.subrange(0, k + 1).drop_last() =~= ns@.subrange(0, k as int));
            assert(ns@.subrange(0, k + 1).last() == ns@[k as int]);
        }
        diagnose_node(&ns[k], out);
        k = k + 1;
    }
    assert(ns@.subrange(0, k as int) =~= ns@);
}

/// Pushes the warning of a command or environment with an unknown name.
fn warn_unknown(known: bool, prefix: &str, name: &String, start: usize, end: usize, out: &mut Vec<Diagnostic>)
    ensures
        known ==> final(out)@ == old(out)@,
        !known ==> diagnostics_view(final(out)@) == diagnostics_view(old(out)@) + seq![
            (start as int, end as int, DiagnosticSeverity::Warning, prefix@ + name@, DiagnosticSource::Syntax),
        ],
{
    if !known {
        let mut m = prefix.to_owned();
        m.append(name.as_str());
        let d = Diagnostic { start, end, severity: DiagnosticSeverity::Warning, message: m, source: DiagnosticSource::Syntax };
        proof {
            lemma_diagnostics_push(out@, d);
        }
        out.push(d);
    }
}

fn diagnose_node(n: &ConTeXtNode, out: &mut Vec<Diagnostic>)
    ensures
        diagnostics_view(final(out)@) == diagnostics_view(old(out)@) + ast_findings(*n),
    decreases *n,
{
    match n {
        ConTeXtNode::Document { preamble, body } => {
            let ghost before = diagnostics_view(out@);
            diagnose_all(preamble, out);
            diagnose_all(body, out);
            assert(diagnostics_view(out@) =~= before + (ast_findings_all(preamble@) + ast_findings_all(body@)));
        },
        ConTeXtNode::Command { name, arguments, span, .. } => {
            let ghost before = diagnostics_view(out@);
            let known = is_known_command(name.as_str());
            warn_unknown(known, "Unknown command: \\", name, span.start, span.end, out);
            let ghost mid = diagnostics_view(out@);
            diagnose_all(arguments, out);
            proof {
                if known {
                    assert(mid == before + Seq::<(int, int, DiagnosticSeverity, Seq<char>, DiagnosticSource)>::empty());
                }
                assert(diagnostics_view(out@) =~= before + ast_findings(*n));
            }
        },
        ConTeXtNode::StartStop { name, content, span, .. } => {
            let ghost before = diagnostics_view(out@);
            let known = is_known_environment(name.as_str());
            warn_unknown(known, "Unknown environment: ", name, span.start, span.end, out);
            let ghost mid = diagnostics_view(out@);
            diagnose_all(content, out);
            proof {
                if known {
                    assert(mid == before + Seq::<(int, int, DiagnosticSeverity, Seq<char>, DiagnosticSource)>::empty());
                }
                assert(diagnostics_view(out@) =~= before + ast_findings(*n));
            }
        },
        _ => {
            assert(diagnostics_view(out@) + seq![] =~= diagnostics_view(out@));
        },
    }
}

/// The warnings of a typed tree: one at the span of each command and each
/// environment whose name the tables do not know, each node before its
/// descendants; children are visited whether or not their parent was
/// flagged.
pub fn diagnose(ast: &ConTeXtNode) -> (r: Vec<Diagnostic>)
    ensures
        diagnostics_view(r@) == ast_findings(*ast),
{
    let mut out: Vec<Diagnostic> = Vec::new();
    diagnose_node(ast, &mut out);
    assert(diagnostics_view(Seq::<Diagnostic>::empty()) + ast_findings(*ast) =~= ast_findings(*ast));
    out
}

} // verus!
