use context_runtime::add;
use context_runtime::ast::{ArgumentStyle, CommandStyle, ConTeXtNode, SourceSpan};
use context_runtime::diagnostic::{diagnose, DiagnosticSeverity};
use context_runtime::parser::{parse_document, ParseErrorKind};

fn body(text: &str) -> Vec<ConTeXtNode> {
    match parse_document(text).expect("parses") {
        ConTeXtNode::Document { preamble, body } => {
            assert!(preamble.is_empty());
            body
        }
        other => panic!("not a document: {:?}", other),
    }
}

fn text_of(n: &ConTeXtNode) -> String {
    match n {
        ConTeXtNode::Text { content, .. } => content.clone(),
        other => panic!("not text: {:?}", other),
    }
}

fn opts(list: &[(&str, &str)]) -> Vec<(String, String)> {
    list.iter().map(|(k, v)| (k.to_string(), v.to_string())).collect()
}

#[test]
fn it_works() {
    let result = add(2, 2);
    assert_eq!(result, 4);
}

#[test]
fn context_style_command() {
    let nodes = body("\\externalfigure[cow.pdf][scale=300]");
    assert_eq!(nodes.len(), 1);
    match &nodes[0] {
        ConTeXtNode::Command { name, style, arg_style, options, arguments, span } => {
            assert_eq!(name, "externalfigure");
            assert_eq!(*style, CommandStyle::ContextStyle);
            assert_eq!(*arg_style, ArgumentStyle::Explicit);
            assert_eq!(*options, opts(&[("scale", "300")]));
            assert_eq!(arguments.len(), 1);
            assert_eq!(text_of(&arguments[0]), "cow.pdf");
            assert_eq!((span.start, span.end), (0, 35));
        }
        other => panic!("{:?}", other),
    }
}

#[test]
fn tex_style_with_options() {
    let nodes = body("\\framed[width=textwidth]{Hi}");
    assert_eq!(nodes.len(), 1);
    match &nodes[0] {
        ConTeXtNode::Command { name, style, arg_style, options, arguments, .. } => {
            assert_eq!(name, "framed");
            assert_eq!(*style, CommandStyle::TexStyle);
            assert_eq!(*arg_style, ArgumentStyle::Explicit);
            assert_eq!(*options, opts(&[("width", "textwidth")]));
            assert_eq!(arguments.len(), 1);
            assert_eq!(text_of(&arguments[0]), "Hi");
        }
        other => panic!("{:?}", other),
    }
}

#[test]
fn tex_style_without_options() {
    let nodes = body("\\emph{Hey}");
    assert_eq!(nodes.len(), 1);
    match &nodes[0] {
        ConTeXtNode::Command { name, style, options, arguments, .. } => {
            assert_eq!(name, "emph");
            assert_eq!(*style, CommandStyle::TexStyle);
            assert!(options.is_empty());
            assert_eq!(arguments.len(), 1);
            assert_eq!(text_of(&arguments[0]), "Hey");
        }
        other => panic!("{:?}", other),
    }
}

#[test]
fn line_ending_argument() {
    let nodes = body("\\item Hello\n");
    match &nodes[0] {
        ConTeXtNode::Command { name, arg_style, arguments, span, .. } => {
            assert_eq!(name, "item");
            assert_eq!(*arg_style, ArgumentStyle::LineEnding);
            assert_eq!(arguments.len(), 1);
            assert_eq!(text_of(&arguments[0]), "Hello");
            assert_eq!(span.end, 11);
        }
        other => panic!("{:?}", other),
    }
    assert_eq!(nodes.len(), 2);
    assert_eq!(text_of(&nodes[1]), "\n");
}

#[test]
fn balanced_nesting() {
    let nodes = body("\\startitemize \\item Hello \\stopitemize");
    assert_eq!(nodes.len(), 1);
    match &nodes[0] {
        ConTeXtNode::StartStop { name, content, span, .. } => {
            assert_eq!(name, "itemize");
            assert_eq!(span.end, 38);
            assert!(content.iter().any(|n| matches!(n, ConTeXtNode::Command { name, .. } if name == "item")));
        }
        other => panic!("{:?}", other),
    }
}

#[test]
fn nested_environment_does_not_leak() {
    let nodes = body("\\startitemize \\startitemize \\item A \\stopitemize \\item B \\stopitemize after");
    assert_eq!(nodes.len(), 2);
    match &nodes[0] {
        ConTeXtNode::StartStop { name, content, .. } => {
            assert_eq!(name, "itemize");
            let inner: Vec<&ConTeXtNode> =
                content.iter().filter(|n| matches!(n, ConTeXtNode::StartStop { .. })).collect();
            assert_eq!(inner.len(), 1);
            let items = content.iter().filter(|n| matches!(n, ConTeXtNode::Command { .. })).count();
            assert_eq!(items, 1);
        }
        other => panic!("{:?}", other),
    }
    assert_eq!(text_of(&nodes[1]), " after");
}

#[test]
fn group_scoped_command_takes_rest_of_group() {
    let nodes = body("\\emph{\\bf bold text}");
    match &nodes[0] {
        ConTeXtNode::Command { arguments, .. } => {
            assert_eq!(arguments.len(), 1);
            match &arguments[0] {
                ConTeXtNode::Command { name, arg_style, arguments, span, .. } => {
                    assert_eq!(name, "bf");
                    assert_eq!(*arg_style, ArgumentStyle::GroupScoped);
                    assert_eq!(arguments.len(), 1);
                    assert_eq!(text_of(&arguments[0]), " bold text");
                    assert_eq!((span.start, span.end), (6, 19));
                }
                other => panic!("{:?}", other),
            }
        }
        other => panic!("{:?}", other),
    }
}

#[test]
fn options_bare_keys_and_last_write() {
    let nodes = body("\\framed[a=1, b ,a = 2,,]{x}");
    match &nodes[0] {
        ConTeXtNode::Command { options, .. } => {
            assert_eq!(*options, opts(&[("a", "2"), ("b", "true")]));
        }
        other => panic!("{:?}", other),
    }
}

#[test]
fn options_after_group() {
    let nodes = body("\\framed{x}[frame=off]");
    match &nodes[0] {
        ConTeXtNode::Command { options, arguments, span, .. } => {
            assert_eq!(*options, opts(&[("frame", "off")]));
            assert_eq!(arguments.len(), 1);
            assert_eq!(span.end, 21);
        }
        other => panic!("{:?}", other),
    }
}

#[test]
fn comment_is_trimmed() {
    let nodes = body("%  a note  \nrest");
    match &nodes[0] {
        ConTeXtNode::Comment { content, span } => {
            assert_eq!(content, "a note");
            assert_eq!((span.start, span.end), (0, 11));
        }
        other => panic!("{:?}", other),
    }
    assert_eq!(text_of(&nodes[1]), "\nrest");
}

#[test]
fn document_framing() {
    let doc = parse_document("\\setupbodyfont[11pt]\n\\starttext\nHello\n\\stoptext\n").expect("parses");
    match doc {
        ConTeXtNode::Document { preamble, body } => {
            assert_eq!(preamble.len(), 2);
            match &preamble[0] {
                ConTeXtNode::Command { name, options, .. } => {
                    assert_eq!(name, "setupbodyfont");
                    assert_eq!(*options, opts(&[("11pt", "true")]));
                }
                other => panic!("{:?}", other),
            }
            assert_eq!(body.len(), 1);
            assert_eq!(text_of(&body[0]), "\nHello\n");
        }
        other => panic!("{:?}", other),
    }
}

#[test]
fn startdocument_framing() {
    let doc = parse_document("\\startdocument Hi \\stopdocument").expect("parses");
    match doc {
        ConTeXtNode::Document { preamble, body } => {
            assert!(preamble.is_empty());
            assert_eq!(body.len(), 1);
            assert_eq!(text_of(&body[0]), " Hi ");
        }
        other => panic!("{:?}", other),
    }
}

#[test]
fn spans_carry_line_and_column() {
    let nodes = body("ab\n\\foo x");
    match &nodes[0] {
        ConTeXtNode::Text { span, .. } => {
            assert_eq!(*span, SourceSpan { start: 0, end: 3, start_line: 1, start_col: 1 });
        }
        other => panic!("{:?}", other),
    }
    match &nodes[1] {
        ConTeXtNode::Command { span, .. } => {
            assert_eq!(*span, SourceSpan { start: 3, end: 7, start_line: 2, start_col: 1 });
            assert_eq!(span.line_col(), (2, 1));
            assert_eq!(span.range(), 3..7);
            assert_eq!(span.len(), 4);
            assert!(!span.is_empty());
        }
        other => panic!("{:?}", other),
    }
}

fn check_nesting(n: &ConTeXtNode) {
    let parent = n.span().copied();
    let kids = n.children();
    let mut last_end = parent.map(|s| s.start).unwrap_or(0);
    for k in kids {
        let s = k.span().expect("child span");
        assert!(s.start < s.end);
        assert!(s.start >= last_end);
        if let Some(p) = parent {
            assert!(p.start <= s.start && s.end <= p.end);
        }
        last_end = s.end;
        check_nesting(k);
    }
}

#[test]
fn child_spans_nest_and_are_ordered() {
    let doc = parse_document(
        "% head\n\\setuppapersize[A4]\n\\starttext\n\\startitemize[packed]\n\\item One\n\\item \\emph{Two} x\n\\stopitemize\n\\framed[width=3cm]{\\bf in {box}}\n\\stoptext",
    );
    // `{box}` is a bare group, which is not a node.
    assert!(doc.is_err());
    let doc = parse_document(
        "% head\n\\setuppapersize[A4]\n\\starttext\n\\startitemize[packed]\n\\item One\n\\item \\emph{Two} x\n\\stopitemize\n\\framed[width=3cm]{\\bf in box}\n\\stoptext",
    )
    .expect("parses");
    check_nesting(&doc);
}

#[test]
fn unexpected_brace_is_an_error() {
    let err = parse_document("abc } def").unwrap_err();
    assert_eq!(err.kind, ParseErrorKind::UnexpectedChar);
    assert_eq!(err.position, 4);
}

#[test]
fn unclosed_group_is_an_error() {
    let err = parse_document("\\emph{abc").unwrap_err();
    assert_eq!(err.kind, ParseErrorKind::UnclosedGroup);
    assert_eq!(err.position, 5);
}

#[test]
fn unclosed_environment_is_an_error() {
    let err = parse_document("x \\startitemize abc").unwrap_err();
    assert_eq!(err.kind, ParseErrorKind::UnclosedEnvironment);
    assert_eq!(err.position, 2);
}

#[test]
fn missing_stoptext_is_an_error() {
    let err = parse_document("\\starttext abc").unwrap_err();
    assert_eq!(err.kind, ParseErrorKind::UnclosedEnvironment);
    assert_eq!(err.position, 0);
}

#[test]
fn backslash_without_letters_is_an_error() {
    let err = parse_document("a \\\\ b").unwrap_err();
    assert_eq!(err.kind, ParseErrorKind::UnexpectedChar);
    assert_eq!(err.position, 2);
}

#[test]
fn multibyte_text_keeps_byte_offsets() {
    let nodes = body("é\\emph{ü}");
    assert_eq!(text_of(&nodes[0]), "é");
    match &nodes[1] {
        ConTeXtNode::Command { span, arguments, .. } => {
            assert_eq!((span.start, span.end), (2, 11));
            assert_eq!(text_of(&arguments[0]), "ü");
        }
        other => panic!("{:?}", other),
    }
}

#[test]
fn text_without_braces_or_backslashes_parses() {
    let nodes = body("plain [text] % with a comment\nand = more, text");
    assert_eq!(nodes.len(), 3);
    assert_eq!(text_of(&nodes[0]), "plain [text] ");
    assert_eq!(text_of(&nodes[2]), "\nand = more, text");
    assert!(body("").is_empty());
}

#[test]
fn scoped_rest_left_open_points_at_the_group() {
    let err = parse_document("ab\\emph{\\bf x").unwrap_err();
    assert_eq!(err.kind, ParseErrorKind::UnclosedGroup);
    assert_eq!(err.position, 7);
}

#[test]
fn diagnose_walks_the_typed_tree() {
    let doc = parse_document("\\starttext\n\\unknowncommand \\startfoo \\bf x \\stopfoo \\startitemize \\stopitemize\n\\stoptext")
        .expect("parses");
    let ds = diagnose(&doc);
    let got: Vec<(usize, usize, DiagnosticSeverity, String)> =
        ds.iter().map(|d| (d.start, d.end, d.severity, d.message.clone())).collect();
    assert_eq!(
        got,
        vec![
            (11, 26, DiagnosticSeverity::Warning, "Unknown command: \\unknowncommand".to_string()),
            (27, 51, DiagnosticSeverity::Warning, "Unknown environment: foo".to_string()),
        ]
    );
    assert!(ds.iter().any(|d| d.severity == DiagnosticSeverity::Warning && d.message.contains("unknowncommand")));
}

#[test]
fn options_normalised_bare_key_and_last_duplicate() {
    let nodes = body("\\framed[frame,width=2cm,width=3cm]{X}");
    match &nodes[0] {
        ConTeXtNode::Command { name, style, options, arguments, .. } => {
            assert_eq!(name, "framed");
            assert_eq!(*style, CommandStyle::TexStyle);
            assert_eq!(*options, opts(&[("frame", "true"), ("width", "3cm")]));
            assert_eq!(arguments.len(), 1);
            assert_eq!(text_of(&arguments[0]), "X");
        }
        other => panic!("{:?}", other),
    }
}

#[test]
fn brace_after_two_option_groups_keeps_tex_style() {
    let nodes = body("\\framed[a][b=c]{X}");
    match &nodes[0] {
        ConTeXtNode::Command { name, style, options, arguments, span, .. } => {
            assert_eq!(name, "framed");
            assert_eq!(*style, CommandStyle::TexStyle);
            assert_eq!(*options, opts(&[("a", "true"), ("b", "c")]));
            assert_eq!(arguments.len(), 1);
            assert_eq!(text_of(&arguments[0]), "X");
            assert_eq!(span.end, 18);
        }
        other => panic!("{:?}", other),
    }
}

#[test]
fn unclosed_itemize_fails() {
    let err = parse_document("\\startitemize Hello").unwrap_err();
    assert_eq!(err.kind, ParseErrorKind::UnclosedEnvironment);
    assert_eq!(err.position, 0);
    assert_eq!(parse_document("\\emph{Hello").unwrap_err().kind, ParseErrorKind::UnclosedGroup);
}

#[test]
fn scoped_command_outside_a_group_takes_nothing() {
    let nodes = body("\\bf Hello");
    match &nodes[0] {
        ConTeXtNode::Command { name, arg_style, arguments, span, .. } => {
            assert_eq!(name, "bf");
            assert_eq!(*arg_style, ArgumentStyle::GroupScoped);
            assert!(arguments.is_empty());
            assert_eq!(span.end, 3);
        }
        other => panic!("{:?}", other),
    }
    assert_eq!(text_of(&nodes[1]), " Hello");
}
