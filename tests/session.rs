use context_runtime::diagnostic::{is_known_command, is_known_environment, DiagnosticSeverity};
use context_runtime::highlight::{highlight, HighlightKind};
use context_runtime::lexer::{tokenize, Token};
use context_runtime::parser::parse_text;
use context_runtime::backend_traits::{CompilationError, CompilationResult};
use context_runtime::runtime::{ContextRuntime, RuntimeConfig, RuntimeError};
use context_runtime::syntax::{GreenElement, GreenNode, SyntaxKind, SyntaxTreeBuilder};

fn collect(n: &GreenNode, out: &mut String) {
    for c in &n.children {
        match c {
            GreenElement::Token(t) => out.push_str(&t.text),
            GreenElement::Node(m) => collect(m, out),
        }
    }
}

fn tokens_of(text: &str) -> String {
    let tree = parse_text(text);
    let mut out = String::new();
    collect(tree.root(), &mut out);
    out
}

#[test]
fn tree_round_trip() {
    let samples = [
        "",
        "\\starttext\nHello World!\n\\stoptext\n",
        "% c\n\\startitemize[packed]\n  \\item é ü\n\\stopitemize",
        "} stray { open [x \\\\ \\stopfoo ]",
        "\\framed[width=3cm]{\\bf in {box}}\t\r\n",
    ];
    for s in samples {
        assert_eq!(tokens_of(s), s);
    }
}

#[test]
fn tokenizer_covers_the_text() {
    let toks = tokenize("\\starttext Hi [a] {x} % c\n\\stoptext");
    let kinds: Vec<Token> = toks.iter().map(|l| l.token).collect();
    assert_eq!(
        kinds,
        vec![
            Token::StartText,
            Token::Whitespace,
            Token::Text,
            Token::Whitespace,
            Token::Options,
            Token::Whitespace,
            Token::BraceOpen,
            Token::Text,
            Token::BraceClose,
            Token::Whitespace,
            Token::Comment,
            Token::Whitespace,
            Token::StopText,
        ]
    );
    assert_eq!((toks[4].start, toks[4].end), (14, 17));
    assert_eq!(toks[10].text, "% c");
}

#[test]
fn tokenizer_environment_words() {
    let toks = tokenize("\\startitemize\\stopitemize\\start\\startdocument\\stopdocumentx");
    let kinds: Vec<Token> = toks.iter().map(|l| l.token).collect();
    assert_eq!(kinds, vec![Token::StartEnv, Token::StopEnv, Token::Command, Token::StartDocument, Token::StopEnv]);
}

#[test]
fn unclosed_regions_become_error_nodes() {
    let tree = parse_text("\\emph{abc");
    let root = tree.root();
    assert_eq!(root.kind, SyntaxKind::Document);
    match &root.children[0] {
        GreenElement::Node(n) => {
            assert_eq!(n.kind, SyntaxKind::Command);
            match &n.children[1] {
                GreenElement::Node(e) => assert_eq!(e.kind, SyntaxKind::Error),
                other => panic!("{:?}", other),
            }
        }
        other => panic!("{:?}", other),
    }
}

#[test]
fn highlights_in_document_order() {
    let tree = parse_text("\\emph[a]{Hey} % c");
    let hs = highlight(tree.root());
    let got: Vec<(usize, usize, HighlightKind)> = hs.iter().map(|h| (h.start, h.end, h.kind)).collect();
    assert_eq!(
        got,
        vec![
            (0, 5, HighlightKind::Command),
            (5, 8, HighlightKind::Option),
            (9, 12, HighlightKind::Text),
            (14, 17, HighlightKind::Comment),
        ]
    );
    assert_eq!(HighlightKind::Environment.to_string(), "environment");
    assert_eq!(HighlightKind::Keyword.to_string(), "keyword");
}

#[test]
fn highlight_offsets_count_bytes() {
    let tree = parse_text("é \\bf");
    let hs = highlight(tree.root());
    let got: Vec<(usize, usize, HighlightKind)> = hs.iter().map(|h| (h.start, h.end, h.kind)).collect();
    assert_eq!(got, vec![(0, 2, HighlightKind::Text), (3, 6, HighlightKind::Command)]);
}

#[test]
fn unknown_command_is_reported() {
    let mut rt = ContextRuntime::new(RuntimeConfig::default());
    rt.open_document("error.tex".to_string(), "\n\\starttext\n\\unknowncommand\n\\stoptext\n".to_string())
        .unwrap();
    let ds = rt.get_diagnostics("error.tex");
    assert!(ds
        .iter()
        .any(|d| d.severity == DiagnosticSeverity::Warning && d.message.contains("unknowncommand")));
    let d = ds.iter().find(|d| d.message.contains("unknowncommand")).unwrap();
    assert_eq!(d.message, "Unknown command: \\unknowncommand");
    assert_eq!((d.start, d.end), (12, 27));
}

#[test]
fn unknown_environment_and_syntax_error() {
    let mut rt = ContextRuntime::new(RuntimeConfig::default());
    rt.open_document("a.tex".to_string(), "\\startfoo x \\stopfoo }".to_string()).unwrap();
    let ds = rt.get_diagnostics("a.tex");
    let got: Vec<(usize, usize, DiagnosticSeverity, String)> =
        ds.iter().map(|d| (d.start, d.end, d.severity, d.message.clone())).collect();
    assert_eq!(
        got,
        vec![
            (0, 9, DiagnosticSeverity::Warning, "Unknown environment: foo".to_string()),
            (21, 22, DiagnosticSeverity::Error, "Syntax error".to_string()),
        ]
    );
    assert_eq!(DiagnosticSeverity::Warning.to_string(), "warning");
}

#[test]
fn known_tables() {
    assert!(is_known_command("setuphead"));
    assert!(!is_known_command("emph"));
    assert!(is_known_environment("itemize"));
    assert!(!is_known_environment("foo"));
}

#[test]
fn test_runtime_document_lifecycle() {
    let mut runtime = ContextRuntime::new(RuntimeConfig::default());

    // Test open
    assert!(runtime.open_document("test.tex".into(), "\\starttext\nHello\n\\stoptext".into()).is_ok());

    // Test get source
    assert_eq!(runtime.get_document_source("test.tex"), Some("\\starttext\nHello\n\\stoptext".into()));

    // Test update: the whole text is replaced
    let len = "\\starttext\nHello\n\\stoptext".len();
    assert!(runtime.update_document("test.tex", 0..len, "\\starttext\nUpdated\n\\stoptext").is_ok());
    assert_eq!(runtime.get_document_source("test.tex"), Some("\\starttext\nUpdated\n\\stoptext".into()));

    // Test close
    runtime.close_document("test.tex");
    assert!(runtime.get_document_source("test.tex").is_none());
}

#[test]
fn document_lifecycle_with_partial_edit() {
    let mut rt = ContextRuntime::new(RuntimeConfig::default());
    assert!(rt.open_document("test.tex".into(), "\\starttext\nHello\n\\stoptext".into()).is_ok());
    assert_eq!(rt.get_document_source("test.tex"), Some("\\starttext\nHello\n\\stoptext".into()));
    assert!(rt.update_document("test.tex", 11..16, "Updated").is_ok());
    assert_eq!(rt.get_document_source("test.tex"), Some("\\starttext\nUpdated\n\\stoptext".into()));
    assert_eq!(rt.get_document_uris(), vec!["test.tex".to_string()]);
    rt.close_document("test.tex");
    assert!(rt.get_document_source("test.tex").is_none());
    assert!(rt.get_highlights("test.tex").is_empty());
    assert!(rt.get_diagnostics("test.tex").is_empty());
}

#[test]
fn update_errors() {
    let mut rt = ContextRuntime::new(RuntimeConfig::default());
    assert!(matches!(rt.update_document("none.tex", 0..0, "x"), Err(RuntimeError::DocumentNotFound(u)) if u == "none.tex"));
    rt.open_document("u.tex".into(), "aé".into()).unwrap();
    assert!(matches!(rt.update_document("u.tex", 2..2, "x"), Err(RuntimeError::InvalidRange { start: 2, end: 2 })));
    assert!(matches!(rt.update_document("u.tex", 1..5, "x"), Err(RuntimeError::InvalidRange { .. })));
    assert!(matches!(rt.update_document("u.tex", 1..0, "x"), Err(RuntimeError::InvalidRange { .. })));
    assert_eq!(rt.get_document_source("u.tex"), Some("aé".into()));
    assert!(rt.update_document("u.tex", 3..3, "!").is_ok());
    assert_eq!(rt.get_document_source("u.tex"), Some("aé!".into()));
}

#[test]
fn no_op_update_reparses_to_the_same_tree() {
    let text = "\\starttext\n\\emph{Hi} % c\n\\stoptext";
    let mut rt = ContextRuntime::new(RuntimeConfig::default());
    rt.open_document("p.tex".into(), text.into()).unwrap();
    let before_h = rt.get_highlights("p.tex");
    let before_d = rt.get_diagnostics("p.tex");
    rt.update_document("p.tex", 11..20, "\\emph{Hi}").unwrap();
    assert_eq!(rt.get_document_source("p.tex"), Some(text.to_string()));
    assert_eq!(rt.get_highlights("p.tex"), before_h);
    assert_eq!(rt.get_diagnostics("p.tex"), before_d);
    assert_eq!(parse_text(text).root(), parse_text(&rt.get_document_source("p.tex").unwrap()).root());
}

#[test]
fn reopen_replaces_the_entry() {
    let mut rt = ContextRuntime::new(RuntimeConfig::default());
    rt.open_document("a".into(), "\\bf".into()).unwrap();
    rt.open_document("b".into(), "x".into()).unwrap();
    rt.open_document("a".into(), "\\foo".into()).unwrap();
    assert_eq!(rt.get_document_source("a"), Some("\\foo".into()));
    assert_eq!(rt.get_document_source("b"), Some("x".into()));
    assert_eq!(rt.get_document_uris().len(), 2);
    assert_eq!(rt.get_diagnostics("a").len(), 1);
}

#[test]
fn builder_nests_depth_first() {
    let mut b = SyntaxTreeBuilder::new();
    b.start_node(SyntaxKind::Document);
    b.start_node(SyntaxKind::Command);
    b.token(SyntaxKind::Command, "\\emph");
    b.finish_node();
    b.token(SyntaxKind::Text, " tail");
    b.finish_node();
    let tree = b.finish();
    let mut out = String::new();
    collect(tree.root(), &mut out);
    assert_eq!(out, "\\emph tail");
    assert_eq!(tree.root().kind, SyntaxKind::Document);
    assert_eq!(tree.root().children.len(), 2);
    assert!(matches!(&tree.root().children[0], GreenElement::Node(n) if n.kind == SyntaxKind::Command));
}

#[test]
fn compiler_messages_join_the_diagnostics_until_the_next_edit() {
    let mut rt = ContextRuntime::new(RuntimeConfig::default());
    let result = CompilationResult {
        success: false,
        pdf_path: None,
        log: String::new(),
        errors: vec![CompilationError { line: 2, column: 3, message: "E".into() }],
        warnings: vec![],
    };
    assert!(matches!(rt.add_compilation_diagnostics("none", &result), Err(RuntimeError::DocumentNotFound(_))));
    rt.open_document("a".into(), "\\foo\nbcd".into()).unwrap();
    rt.add_compilation_diagnostics("a", &result).unwrap();
    let got: Vec<(usize, usize, DiagnosticSeverity, String)> =
        rt.get_diagnostics("a").iter().map(|d| (d.start, d.end, d.severity, d.message.clone())).collect();
    assert_eq!(
        got,
        vec![
            (0, 4, DiagnosticSeverity::Warning, "Unknown command: \\foo".to_string()),
            (7, 8, DiagnosticSeverity::Error, "E".to_string()),
        ]
    );
    rt.update_document("a", 5..5, "x").unwrap();
    assert_eq!(rt.get_diagnostics("a").len(), 1);
}
