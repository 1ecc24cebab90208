//! Plain records that cross the boundary to bindings and compilation
//! backends, and the conversions into them.
use vstd::prelude::*;
use crate::highlight::{Highlight, kind_name};
use crate::diagnostic::{Diagnostic, severity_name, source_name};
use crate::runtime::{RuntimeConfig, RuntimeError};
use crate::backend_traits::{CompilationResult, CompilationError};

verus! {

#[derive(Debug, Clone, Copy, PartialEq, Eq, Structural)]
pub struct FfiRange {
    pub start: u32,
    pub end: u32,
}

#[derive(Debug, Clone, Copy, PartialEq, Eq, Structural)]
pub struct TextRangeFfi {
    pub start: u32,
    pub end: u32,
}

#[derive(Debug, Clone, PartialEq)]
pub struct DiagnosticFfi {
    pub start: Option<u32>,
    pub end: Option<u32>,
    pub severity: String,
    pub message: String,
    /// What produced the diagnostic: `syntax`, `compiler` or `runtime`.
    pub source: String,
}

#[derive(Debug, Clone, PartialEq)]
pub struct CompileResultFfi {
    pub success: bool,
    pub pdf_path: Option<String>,
    pub log: String,
    pub diagnostics: Vec<DiagnosticFfi>,
}

#[derive(Debug, Clone, PartialEq)]
pub enum RuntimeErrorFfi {
    DocumentNotFound { uri: String },
    LockPoisoned,
    CompilationError { details: String },
    Unavailable { details: String },
    InvalidRange { start: u64, end: u64 },
}

#[derive(Debug, Clone, PartialEq)]
pub struct HighlightFfi {
    pub range: FfiRange,
    pub kind: String,
}

#[derive(Debug, Clone, PartialEq)]
pub struct RuntimeConfigFfi {
    pub remote: bool,
    pub server_url: Option<String>,
    pub auth_token: Option<String>,
    pub local_executable: Option<String>,
}

#[derive(Debug, Clone, PartialEq)]
pub struct CompileRequestFfi {
    pub uri: String,
    pub content: String,
    pub format: Option<String>,
}

impl Default for RuntimeConfigFfi {
    fn default() -> (r: RuntimeConfigFfi)
        ensures
            r.remote,
            r.server_url is None,
            r.auth_token is None,
            r.local_executable is None,
    {
        RuntimeConfigFfi { remote: true, server_url: None, auth_token: None, local_executable: None }
    }
}

impl RuntimeConfig {
    /// The configuration that the binding record describes.
    pub fn from_ffi(config: RuntimeConfigFfi) -> (r: RuntimeConfig)
        ensures
            r.remote == config.remote,
            r.server_url == config.server_url,
            r.auth_token == config.auth_token,
            r.local_executable == config.local_executable,
    {
        RuntimeConfig {
            remote: config.remote,
            server_url: config.server_url,
            auth_token: config.auth_token,
            local_executable: config.local_executable,
        }
    }
}

impl RuntimeErrorFfi {
    pub fn from_error(err: RuntimeError) -> (r: RuntimeErrorFfi)
        ensures
            err matches RuntimeError::DocumentNotFound(u) ==> r == (RuntimeErrorFfi::DocumentNotFound { uri: u }),
            err is LockPoisoned ==> r is LockPoisoned,
            err matches RuntimeError::CompilationError { message, .. } ==> r == (RuntimeErrorFfi::CompilationError { details: message }),
            err matches RuntimeError::Unavailable(d) ==> r == (RuntimeErrorFfi::Unavailable { details: d }),
            err matches RuntimeError::InvalidRange { start, end } ==> r == (RuntimeErrorFfi::InvalidRange { start: start as u64, end: end as u64 }),
    {
        match err {
            RuntimeError::DocumentNotFound(uri) => RuntimeErrorFfi::DocumentNotFound { uri },
            RuntimeError::LockPoisoned => RuntimeErrorFfi::LockPoisoned,
            RuntimeError::CompilationError { message, .. } => RuntimeErrorFfi::CompilationError { details: message },
            RuntimeError::Unavailable(details) => RuntimeErrorFfi::Unavailable { details },
            RuntimeError::InvalidRange { start, end } => RuntimeErrorFfi::InvalidRange { start: start as u64, end: end as u64 },
        }
    }
}

impl HighlightFfi {
    /// The binding record of a highlight; offsets are kept in 32 bits.
    pub fn from_highlight(h: Highlight) -> (r: HighlightFfi)
        ensures
            r.range.start == h.start as u32,
            r.range.end == h.end as u32,
            r.kind@ == kind_name(h.kind),
    {
        HighlightFfi { range: FfiRange { start: h.start as u32, end: h.end as u32 }, kind: h.kind.to_string() }
    }
}

impl DiagnosticFfi {
    pub fn without_range(severity: String, message: String) -> (r: DiagnosticFfi)
        ensures
            r.start is None,
            r.end is None,
            r.severity == severity,
            r.message == message,
            r.source@ == "runtime"@,
    {
        DiagnosticFfi { start: None, end: None, severity, message, source: "runtime".to_owned() }
    }

    pub fn new(start: Option<u32>, end: Option<u32>, severity: String, message: String) -> (r: DiagnosticFfi)
        ensures
            r.start == start,
            r.end == end,
            r.severity == severity,
            r.message == message,
            r.source@ == "runtime"@,
    {
        DiagnosticFfi { start, end, severity, message, source: "runtime".to_owned() }
    }

    /// The binding record of a diagnostic; offsets are kept in 32 bits.
    pub fn from_diagnostic(d: Diagnostic) -> (r: DiagnosticFfi)
        ensures
            r.start == Some(d.start as u32),
            r.end == Some(d.end as u32),
            r.severity@ == severity_name(d.severity),
            r.message == d.message,
            r.source@ == source_name(d.source),
    {
        DiagnosticFfi {
            start: Some(d.start as u32),
            end: Some(d.end as u32),
            severity: d.severity.to_string(),
            message: d.message,
            source: d.source.to_string(),
        }
    }

    pub fn copy(&self) -> (r: DiagnosticFfi)
        ensures
            r == *self,
    {
        DiagnosticFfi {
            start: self.start,
            end: self.end,
            severity: self.severity.clone(),
            message: self.message.clone(),
            source: self.source.clone(),
        }
    }
}

/// The diagnostics of `ds` whose severity is `sev`, in order.
pub open spec fn with_severity(ds: Seq<DiagnosticFfi>, sev: Seq<char>) -> Seq<DiagnosticFfi>
    decreases ds.len(),
{
    if ds.len() == 0 {
        seq![]
    } else if ds.last().severity@ == sev {
        with_severity(ds.drop_last(), sev).push(ds.last())
    } else {
        with_severity(ds.drop_last(), sev)
    }
}

fn select<'a>(ds: &'a Vec<DiagnosticFfi>, sev: &str) -> (r: Vec<&'a DiagnosticFfi>)
    ensures
        r@.len() == with_severity(ds@, sev@).len(),
        forall|k: int| 0 <= k < r@.len() ==> *r@[k] == with_severity(ds@, sev@)[k],
{
    let mut out: Vec<&DiagnosticFfi> = Vec::new();
    let mut j: usize = 0;
    let want = sev.to_owned();
    while j < ds.len()
        invariant
            j <= ds@.len(),
            want@ == sev@,
            out@.len() == with_severity(ds@.subrange(0, j as int), sev@).len(),
            forall|k: int| 0 <= k < out@.len() ==> *out@[k] == with_severity(ds@.subrange(0, j as int), sev@)[k],
        decreases ds@.len() - j,
    {
        proof {
            assert(ds@.subrange(0, j + 1).drop_last() =~= ds@.subrange(0, j as int));
            assert(ds@.subrange(0, j + 1).last() == ds@[j as int]);
        }
        if ds[j].severity == want {
            out.push(&ds[j]);
        }
        j = j + 1;
    }
    assert(ds@.subrange(0, j as int) =~= ds@);
    out
}

impl CompileResultFfi {
    /// A failed result that carries `message` as its log and as its one
    /// error.
    pub fn error(message: String) -> (r: CompileResultFfi)
        ensures
            !r.success,
            r.pdf_path is None,
            r.log == message,
            r.diagnostics@.len() == 1,
            r.diagnostics@[0].start == Some(0u32),
            r.diagnostics@[0].end == Some(0u32),
            r.diagnostics@[0].severity@ == "error"@,
            r.diagnostics@[0].message == message,
            r.diagnostics@[0].source@ == "runtime"@,
    {
        let d = DiagnosticFfi { start: Some(0), end: Some(0), severity: "error".to_owned(), message: message.clone(), source: "runtime".to_owned() };
        let mut diagnostics: Vec<DiagnosticFfi> = Vec::new();
        diagnostics.push(d);
        CompileResultFfi { success: false, pdf_path: None, log: message, diagnostics }
    }

    pub fn success(pdf_path: Option<String>, log: String) -> (r: CompileResultFfi)
        ensures
            r.success,
            r.pdf_path == pdf_path,
            r.log == log,
            r.diagnostics@.len() == 0,
    {
        CompileResultFfi { success: true, pdf_path, log, diagnostics: Vec::new() }
    }

    /// The diagnostics of severity `"error"`, in order.
    pub fn errors(&self) -> (r: Vec<&DiagnosticFfi>)
        ensures
            r@.len() == with_severity(self.diagnostics@, "error"@).len(),
            forall|k: int| 0 <= k < r@.len() ==> *r@[k] == with_severity(self.diagnostics@, "error"@)[k],
    {
        select(&self.diagnostics, "error")
    }

    /// The diagnostics of severity `"warning"`, in order.
    pub fn warnings(&self) -> (r: Vec<&DiagnosticFfi>)
        ensures
            r@.len() == with_severity(self.diagnostics@, "warning"@).len(),
            forall|k: int| 0 <= k < r@.len() ==> *r@[k] == with_severity(self.diagnostics@, "warning"@)[k],
    {
        select(&self.diagnostics, "warning")
    }

    pub fn copy(&self) -> (r: CompileResultFfi)
        ensures
            same_result(r, *self),
    {
        let mut diagnostics: Vec<DiagnosticFfi> = Vec::new();
        let mut j: usize = 0;
        while j < self.diagnostics.len()
            invariant
                j <= self.diagnostics@.len(),
                diagnostics@ == self.diagnostics@.subrange(0, j as int),
            decreases self.diagnostics@.len() - j,
        {
            diagnostics.push(self.diagnostics[j].copy());
            j = j + 1;
            assert(diagnostics@ =~= self.diagnostics@.subrange(0, j as int));
        }
        assert(self.diagnostics@.subrange(0, j as int) =~= self.diagnostics@);
        let pdf_path = match &self.pdf_path {
            Some(p) => Some(p.clone()),
            None => None,
        };
        CompileResultFfi { success: self.success, pdf_path, log: self.log.clone(), diagnostics }
    }
}

/// The binding record of a compiler message of severity `sev`: it spans
/// from its line number to the next.
pub open spec fn record_of(e: CompilationError, sev: Seq<char>) -> (Option<u32>, Option<u32>, Seq<char>, Seq<char>, Seq<char>) {
    (Some(e.line), Some(if e.line < u32::MAX { (e.line + 1) as u32 } else { e.line }), sev, e.message@, "compiler"@)
}

pub open spec fn records_view(ds: Seq<DiagnosticFfi>) -> Seq<(Option<u32>, Option<u32>, Seq<char>, Seq<char>, Seq<char>)> {
    Seq::new(ds.len(), |k: int| (ds[k].start, ds[k].end, ds[k].severity@, ds[k].message@, ds[k].source@))
}

pub open spec fn records_of(es: Seq<CompilationError>, sev: Seq<char>) -> Seq<(Option<u32>, Option<u32>, Seq<char>, Seq<char>, Seq<char>)> {
    Seq::new(es.len(), |k: int| record_of(es[k], sev))
}

fn push_records(out: &mut Vec<DiagnosticFfi>, es: &Vec<CompilationError>, sev: &str)
    ensures
        records_view(final(out)@) == records_view(old(out)@) + records_of(es@, sev@),
{
    let mut j: usize = 0;
    while j < es.len()
        invariant
            j <= es@.len(),
            records_view(out@) == records_view(old(out)@) + records_of(es@.subrange(0, j as int), sev@),
        decreases es@.len() - j,
    {
        let e = &es[j];
        let end = if e.line < u32::MAX { e.line + 1 } else { e.line };
        let ghost before = out@;
        out.push(DiagnosticFfi { start: Some(e.line), end: Some(end), severity: sev.to_owned(), message: e.message.clone(), source: "compiler".to_owned() });
        j = j + 1;
        proof {
            assert(records_view(out@) =~= records_view(before) + seq![record_of(es@[j - 1], sev@)]);
            assert(records_of(es@.subrange(0, j as int), sev@) =~= records_of(es@.subrange(0, j - 1), sev@) + seq![record_of(es@[j - 1], sev@)]);
            assert(records_view(out@) =~= records_view(old(out)@) + records_of(es@.subrange(0, j as int), sev@));
        }
    }
    assert(es@.subrange(0, j as int) =~= es@);
}

impl CompileResultFfi {
    /// The binding record of a compilation result: its errors, then its
    /// warnings, as diagnostics.
    pub fn from_result(result: CompilationResult) -> (r: CompileResultFfi)
        ensures
            r.success == result.success,
            r.pdf_path == result.pdf_path,
            r.log == result.log,
            records_view(r.diagnostics@) == records_of(result.errors@, "error"@) + records_of(result.warnings@, "warning"@),
    {
        let mut diagnostics: Vec<DiagnosticFfi> = Vec::new();
        push_records(&mut diagnostics, &result.errors, "error");
        push_records(&mut diagnostics, &result.warnings, "warning");
        assert(records_view(Seq::<DiagnosticFfi>::empty()) =~= seq![]);
        assert(seq![] + records_of(result.errors@, "error"@) =~= records_of(result.errors@, "error"@));
        CompileResultFfi { success: result.success, pdf_path: result.pdf_path, log: result.log, diagnostics }
    }
}

/// Two results with the same fields and the same diagnostics.
pub open spec fn same_result(a: CompileResultFfi, b: CompileResultFfi) -> bool {
    &&& a.success == b.success
    &&& a.pdf_path == b.pdf_path
    &&& a.log == b.log
    &&& a.diagnostics@ == b.diagnostics@
}

/// What a host implements to hear about changes as they happen.
pub trait LiveUpdateCallback {
    fn on_highlights_updated(&self, uri: String, highlights: Vec<HighlightFfi>);

    fn on_diagnostics_updated(&self, uri: String, diagnostics: Vec<DiagnosticFfi>);

    fn on_compilation_completed(&self, uri: String, result: CompileResultFfi);

    fn on_error(&self, error: RuntimeErrorFfi);
}

/// The state of a compilation that runs elsewhere: its result once it is
/// in, and whether it was asked to stop.
pub struct AsyncCompilationFuture {
    result: Option<CompileResultFfi>,
    ready: bool,
    cancelled: bool,
}

impl AsyncCompilationFuture {
    pub closed spec fn ready_view(&self) -> bool {
        self.ready
    }

    pub closed spec fn cancelled_view(&self) -> bool {
        self.cancelled
    }

    pub closed spec fn result_view(&self) -> Option<CompileResultFfi> {
        self.result
    }

    /// A compilation that has neither finished nor been cancelled.
    pub fn new() -> (r: AsyncCompilationFuture)
        ensures
            !r.ready_view(),
            !r.cancelled_view(),
            r.result_view() is None,
    {
        AsyncCompilationFuture { result: None, ready: false, cancelled: false }
    }

    /// Records the result; the compilation is then ready.
    pub fn complete(&mut self, result: CompileResultFfi)
        ensures
            final(self).ready_view(),
            final(self).result_view() == Some(result),
            final(self).cancelled_view() == old(self).cancelled_view(),
    {
        self.result = Some(result);
        self.ready = true;
    }

    /// The result, once the compilation is ready.
    pub fn poll_result(&self) -> (r: Option<CompileResultFfi>)
        ensures
            !self.ready_view() ==> r is None,
            self.ready_view() && self.result_view() is None ==> r is None,
            self.ready_view() && self.result_view() is Some ==> (r matches Some(x) && same_result(x, self.result_view()->Some_0)),
    {
        if self.ready {
            match &self.result {
                Some(res) => Some(res.copy()),
                None => None,
            }
        } else {
            None
        }
    }

    pub fn is_ready(&self) -> (r: bool)
        ensures
            r == self.ready_view(),
    {
        self.ready
    }

    /// Asks the compilation to stop; always accepted.
    pub fn cancel(&mut self) -> (r: bool)
        ensures
            r,
            final(self).cancelled_view(),
            final(self).ready_view() == old(self).ready_view(),
            final(self).result_view() == old(self).result_view(),
    {
        self.cancelled = true;
        true
    }

    /// Whether the compilation was asked to stop.
    pub fn is_cancelled(&self) -> (r: bool)
        ensures
            r == self.cancelled_view(),
    {
        self.cancelled
    }
}

} // verus!
