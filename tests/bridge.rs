use context_runtime::diagnostic::{Diagnostic, DiagnosticSeverity};
use context_runtime::ffi_bridge::{
    AsyncCompilationFuture, CompileResultFfi, DiagnosticFfi, HighlightFfi, RuntimeConfigFfi, RuntimeErrorFfi,
};
use context_runtime::highlight::{Highlight, HighlightKind};
use context_runtime::runtime::{RuntimeConfig, RuntimeError};

#[test]
fn error_result_carries_the_message() {
    let r = CompileResultFfi::error("boom".to_string());
    assert!(!r.success);
    assert_eq!(r.pdf_path, None);
    assert_eq!(r.log, "boom");
    assert_eq!(r.diagnostics, vec![DiagnosticFfi::new(Some(0), Some(0), "error".into(), "boom".into())]);
    assert_eq!(r.errors().len(), 1);
    assert!(r.warnings().is_empty());
}

#[test]
fn errors_and_warnings_filter_by_severity() {
    let mut r = CompileResultFfi::success(Some("out.pdf".into()), "log".into());
    assert!(r.success);
    assert!(r.diagnostics.is_empty());
    r.diagnostics.push(DiagnosticFfi::without_range("warning".into(), "w1".into()));
    r.diagnostics.push(DiagnosticFfi::without_range("error".into(), "e1".into()));
    r.diagnostics.push(DiagnosticFfi::without_range("warning".into(), "w2".into()));
    let ws: Vec<&str> = r.warnings().iter().map(|d| d.message.as_str()).collect();
    assert_eq!(ws, vec!["w1", "w2"]);
    let es: Vec<&str> = r.errors().iter().map(|d| d.message.as_str()).collect();
    assert_eq!(es, vec!["e1"]);
}

#[test]
fn conversions_to_records() {
    let h = HighlightFfi::from_highlight(Highlight { start: 3, end: 7, kind: HighlightKind::Option });
    assert_eq!((h.range.start, h.range.end), (3, 7));
    assert_eq!(h.kind, "option");
    let d = DiagnosticFfi::from_diagnostic(Diagnostic::warning(4, 2, "w".into()));
    assert_eq!((d.start, d.end, d.severity.as_str(), d.message.as_str()), (Some(4), Some(6), "warning", "w"));
    assert_eq!(d.source, "syntax");
    assert_eq!(DiagnosticFfi::new(None, None, "info".into(), "i".into()).source, "runtime");
    let e = Diagnostic::error(1, 0, "e".into());
    assert_eq!((e.start, e.end, e.severity), (1, 1, DiagnosticSeverity::Error));
    assert_eq!(
        RuntimeErrorFfi::from_error(RuntimeError::DocumentNotFound("x".into())),
        RuntimeErrorFfi::DocumentNotFound { uri: "x".into() }
    );
    assert_eq!(
        RuntimeErrorFfi::from_error(RuntimeError::InvalidRange { start: 1, end: 9 }),
        RuntimeErrorFfi::InvalidRange { start: 1, end: 9 }
    );
}

#[test]
fn configurations() {
    let d = RuntimeConfig::desktop_default();
    assert!(!d.is_mobile());
    assert_eq!(d.server_url, None);
    let m = RuntimeConfig::mobile_default("http://h".into(), Some("t".into()));
    assert!(m.is_mobile());
    assert_eq!(m.server_url, Some("http://h".into()));
    assert_eq!(m.auth_token, Some("t".into()));
    let f = RuntimeConfigFfi::default();
    assert!(f.remote);
    let c = RuntimeConfig::from_ffi(RuntimeConfigFfi { local_executable: Some("ctx".into()), ..f });
    assert_eq!(c.local_executable, Some("ctx".into()));
    assert!(RuntimeConfig::default().remote);
}

#[test]
fn future_lifecycle() {
    let mut f = AsyncCompilationFuture::new();
    assert!(!f.is_ready());
    assert!(f.poll_result().is_none());
    assert!(f.cancel());
    assert!(f.is_cancelled());
    assert!(!f.is_ready());
    f.complete(CompileResultFfi::error("Compilation cancelled".into()));
    assert!(f.is_ready());
    let r = f.poll_result().unwrap();
    assert_eq!(r.log, "Compilation cancelled");
}
