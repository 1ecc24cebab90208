use context_runtime::backend_traits::{CompilationError, CompilationResult, CompileResponse, RemoteDiagnostic, RemoteRange};
use context_runtime::compilation::{compilation_diagnostics, line_column_to_offset, parse_compiler_output};
use context_runtime::diagnostic::DiagnosticSeverity;
use context_runtime::ffi_bridge::{CompileResultFfi, DiagnosticFfi};
use context_runtime::syntax::{ConTeXtLanguage, SyntaxKind};
use context_runtime::parser::parse_document;
use context_runtime::workspace::Workspace;
use context_runtime::ast::ConTeXtNode;
use context_runtime::highlight::HighlightKind;

fn remote(severity: &str, message: &str, range: Option<(u32, u32)>) -> RemoteDiagnostic {
    RemoteDiagnostic {
        message: message.to_string(),
        severity: severity.to_string(),
        range: range.map(|(start, end)| RemoteRange { start, end }),
    }
}

#[test]
fn response_is_split_by_severity() {
    let response = CompileResponse {
        success: false,
        log: "log".into(),
        output_url: Some("out.pdf".into()),
        diagnostics: vec![
            remote("warning", "Remote warning", Some((3, 4))),
            remote("error", "boom", None),
            remote("info", "ignored", None),
        ],
    };
    let r = CompilationResult::from_response(response);
    assert!(!r.success);
    assert_eq!(r.pdf_path, Some("out.pdf".into()));
    assert_eq!(r.errors.len(), 1);
    assert_eq!((r.errors[0].line, r.errors[0].column, r.errors[0].message.as_str()), (0, 0, "boom"));
    assert_eq!(r.warnings.len(), 1);
    assert_eq!((r.warnings[0].line, r.warnings[0].column), (3, 4));

    let f = CompileResultFfi::from_result(r);
    assert_eq!(
        f.diagnostics,
        vec![
            DiagnosticFfi { source: "compiler".into(), ..DiagnosticFfi::new(Some(0), Some(1), "error".into(), "boom".into()) },
            DiagnosticFfi {
                source: "compiler".into(),
                ..DiagnosticFfi::new(Some(3), Some(4), "warning".into(), "Remote warning".into())
            },
        ]
    );
    assert_eq!(f.log, "log");
}

#[test]
fn raw_kinds_round_trip() {
    for raw in 0u16..9 {
        let k = ConTeXtLanguage::kind_from_raw(raw).unwrap();
        assert_eq!(ConTeXtLanguage::kind_to_raw(k), raw);
    }
    assert_eq!(ConTeXtLanguage::kind_to_raw(SyntaxKind::Error), 7);
    assert!(ConTeXtLanguage::kind_from_raw(9).is_none());
}

#[test]
fn workspace_keeps_parsed_documents() {
    let mut ws = Workspace::new();
    assert!(ws.open("main.tex", "\\starttext \\emph{Hi} \\stoptext"));
    assert_eq!(ws.source("main.tex"), Some("\\starttext \\emph{Hi} \\stoptext"));
    assert!(matches!(ws.ast("main.tex"), Some(ConTeXtNode::Document { .. })));
    let kinds: Vec<HighlightKind> = ws.highlights("main.tex").unwrap().iter().map(|h| h.kind).collect();
    assert_eq!(
        kinds,
        vec![HighlightKind::Environment, HighlightKind::Command, HighlightKind::Text, HighlightKind::Environment]
    );
    assert!(!ws.update("main.tex", "\\emph{"));
    assert_eq!(ws.source("main.tex"), Some("\\starttext \\emph{Hi} \\stoptext"));
    assert!(ws.update("main.tex", "plain"));
    assert_eq!(ws.source("main.tex"), Some("plain"));
    assert!(ws.ast("other.tex").is_none());
}

#[test]
fn line_and_column_to_offset() {
    let text = "ab\ncd\n";
    assert_eq!(line_column_to_offset(text, 1, 1), Some(0));
    assert_eq!(line_column_to_offset(text, 2, 2), Some(4));
    assert_eq!(line_column_to_offset(text, 2, 3), Some(5));
    assert_eq!(line_column_to_offset(text, 2, 10), Some(5));
    assert_eq!(line_column_to_offset(text, 3, 1), Some(6));
    assert_eq!(line_column_to_offset(text, 4, 1), None);
    assert_eq!(line_column_to_offset(text, 0, 1), None);
    assert_eq!(line_column_to_offset(text, 1, 0), Some(0));
    assert_eq!(line_column_to_offset("é x", 1, 2), Some(2));
    assert_eq!(line_column_to_offset("", 1, 5), Some(0));
}

#[test]
fn compiler_messages_become_diagnostics() {
    let result = CompilationResult {
        success: false,
        pdf_path: None,
        log: String::new(),
        errors: vec![
            CompilationError { line: 2, column: 3, message: "E".into() },
            CompilationError { line: 9, column: 1, message: "far".into() },
        ],
        warnings: vec![CompilationError { line: 1, column: 7, message: "W".into() }],
    };
    let ds = compilation_diagnostics("a\nbcd", &result);
    let got: Vec<(usize, usize, DiagnosticSeverity, String)> =
        ds.iter().map(|d| (d.start, d.end, d.severity, d.message.clone())).collect();
    assert_eq!(
        got,
        vec![
            (4, 5, DiagnosticSeverity::Error, "E".to_string()),
            (1, 2, DiagnosticSeverity::Warning, "W".to_string()),
        ]
    );
}

fn triples(es: &[CompilationError]) -> Vec<(u32, u32, String)> {
    es.iter().map(|e| (e.line, e.column, e.message.clone())).collect()
}

#[test]
fn compiler_output_lines() {
    let out = "main.tex:12:5 error: Missing $\n\
               x.tex:3:7 warning: Overfull hbox\r\n\
               12:5 error: LaTeX Warning here\n\
               no message here\n\
               main.tex:12:5 Error: capitalised keyword\n\
               a:99999999999:1 error: big\n\
               1:2 error:\n\
               1:2 error:  \n\
               :4:2\terror   spaced   ";
    let r = parse_compiler_output(out);
    assert_eq!(
        triples(&r.errors),
        vec![
            (12, 5, "Missing $".to_string()),
            (0, 1, "big".to_string()),
            (1, 2, "".to_string()),
            (4, 2, "spaced".to_string()),
        ]
    );
    assert_eq!(
        triples(&r.warnings),
        vec![(3, 7, "Overfull hbox".to_string()), (12, 5, "LaTeX Warning here".to_string())]
    );
    assert!(!r.success);
    assert_eq!(r.log, out);
    assert_eq!(r.pdf_path, None);
}

#[test]
fn compiler_output_without_errors_succeeds() {
    let r = parse_compiler_output("all good\n3:4 warning: careful");
    assert!(r.success);
    assert!(r.errors.is_empty());
    assert_eq!(triples(&r.warnings), vec![(3, 4, "careful".to_string())]);
}

#[test]
fn workspace_update_with_same_text_keeps_the_tree() {
    let t = "\\starttext \\framed[width=2cm]{\\bf Hi} % c\n\\stoptext";
    let mut ws = Workspace::new();
    assert!(ws.open("u", t));
    let expected = parse_document(t).unwrap();
    let h0: Vec<_> = ws.highlights("u").unwrap().to_vec();
    assert!(ws.update("u", t));
    assert_eq!(ws.ast("u"), Some(&expected));
    assert_eq!(ws.highlights("u").unwrap().to_vec(), h0);
    assert_eq!(ws.source("u"), Some(t));
}
