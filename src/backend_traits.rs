//! The records exchanged with a compilation backend. Running a compiler,
//! locally or over the network, happens outside the library.
use vstd::prelude::*;

verus! {

#[derive(Debug, Clone, PartialEq, Eq)]
pub struct CompilationRequest {
    pub content: String,
    pub job_id: String,
}

/// A message of the compiler, at a 1-based line and column.
#[derive(Debug, Clone, PartialEq, Eq)]
pub struct CompilationError {
    pub line: u32,
    pub column: u32,
    pub message: String,
}

#[derive(Debug, Clone, PartialEq, Eq)]
pub struct CompilationResult {
    pub success: bool,
    pub pdf_path: Option<String>,
    pub log: String,
    pub errors: Vec<CompilationError>,
    pub warnings: Vec<CompilationError>,
}

/// A byte range reported by a remote server.
#[derive(Debug, Clone, Copy, PartialEq, Eq, Structural)]
pub struct RemoteRange {
    pub start: u32,
    pub end: u32,
}

#[derive(Debug, Clone, PartialEq, Eq)]
pub struct RemoteDiagnostic {
    pub message: String,
    pub severity: String,
    pub range: Option<RemoteRange>,
}

/// The body a remote server answers with.
#[derive(Debug, Clone, PartialEq, Eq)]
pub struct CompileResponse {
    pub success: bool,
    pub log: String,
    pub output_url: Option<String>,
    pub diagnostics: Vec<RemoteDiagnostic>,
}

#[derive(Debug, Clone, PartialEq, Eq)]
pub enum BackendError {
    Network(String),
    Compilation(String),
    Unavailable(String),
    Setup(String),
    IO(String),
}

/// The compiler messages of the remote diagnostics of severity `sev`, in
/// order; a diagnostic without a range is placed at line 0, column 0.
pub open spec fn messages_of(ds: Seq<RemoteDiagnostic>, sev: Seq<char>) -> Seq<CompilationError>
    decreases ds.len(),
{
    if ds.len() == 0 {
        seq![]
    } else if ds.last().severity@ == sev {
        messages_of(ds.drop_last(), sev).push(message_of(ds.last()))
    } else {
        messages_of(ds.drop_last(), sev)
    }
}

pub open spec fn message_of(d: RemoteDiagnostic) -> CompilationError {
    CompilationError {
        line: match d.range {
            Some(r) => r.start,
            None => 0,
        },
        column: match d.range {
            Some(r) => r.end,
            None => 0,
        },
        message: d.message,
    }
}

fn select_messages(ds: &Vec<RemoteDiagnostic>, sev: &str) -> (r: Vec<CompilationError>)
    ensures
        r@ == messages_of(ds@, sev@),
{
    let want = sev.to_owned();
    let mut out: Vec<CompilationError> = Vec::new();
    let mut j: usize = 0;
    while j < ds.len()
        invariant
            j <= ds@.len(),
            want@ == sev@,
            out@ == messages_of(ds@.subrange(0, j as int), sev@),
        decreases ds@.len() - j,
    {
        proof {
            assert(ds@.subrange(0, j + 1).drop_last() =~= ds@.subrange(0, j as int));
            assert(ds@.subrange(0, j + 1).last() == ds@[j as int]);
        }
        let d = &ds[j];
        if d.severity == want {
            let (line, column) = match d.range {
                Some(r) => (r.start, r.end),
                None => (0, 0),
            };
            out.push(CompilationError { line, column, message: d.message.clone() });
        }
        j = j + 1;
    }
    assert(ds@.subrange(0, j as int) =~= ds@);
    out
}

impl CompilationResult {
    /// The result a remote server's answer describes: its errors and its
    /// warnings are the diagnostics of severity `"error"` and `"warning"`.
    pub fn from_response(response: CompileResponse) -> (r: CompilationResult)
        ensures
            r.success == response.success,
            r.pdf_path == response.output_url,
            r.log == response.log,
            r.errors@ == messages_of(response.diagnostics@, "error"@),
            r.warnings@ == messages_of(response.diagnostics@, "warning"@),
    {
        let errors = select_messages(&response.diagnostics, "error");
        let warnings = select_messages(&response.diagnostics, "warning");
        CompilationResult {
            success: response.success,
            pdf_path: response.output_url,
            log: response.log,
            errors,
            warnings,
        }
    }
}

} // verus!
