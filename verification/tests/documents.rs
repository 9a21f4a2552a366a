use tsf::ast::syntax_tree_types::{Attribute, Document, Node, Value};
use tsf::errors::error_types::ParseError;
use tsf::lexer::lexer_types::TokenType;
use tsf::parser::parser_types::Parser;

fn parse_input(input: &str) -> Result<Document, ParseError> {
    Parser::new(input.as_bytes().to_vec()).parse()
}

fn leaf(name: &str) -> Node {
    Node { name: name.into(), attrs: vec![], content: None, children: vec![] }
}

#[test]
fn depth_may_drop_several_levels() {
    let doc = parse_input("0 a\n1 b\n2 c\n3 d\n1 e\n").unwrap();
    assert_eq!(doc.root.children.len(), 2);
    assert_eq!(doc.root.children[0].children[0].children[0].name, "d");
    assert_eq!(doc.root.children[1].name, "e");
}

#[test]
fn depth_jump_reports_open_lines() {
    let err = parse_input("0 a\n1 b\n3 c\n").unwrap_err();
    assert!(matches!(err, ParseError::DepthJump { current_depth: 2, target_depth: 3 }));
}

#[test]
fn second_root_is_refused() {
    match parse_input("0 a\n1 b\n0 c\n").unwrap_err() {
        ParseError::UnexpectedToken { expected, found } => {
            assert_eq!(expected, "depth > 0 (root already defined)");
            assert_eq!(found.token_t, TokenType::Depth);
            assert_eq!(found.value.as_deref(), Some("0"));
        }
        other => panic!("{other:?}"),
    }
}

#[test]
fn leading_zeros_in_depth() {
    let doc = parse_input("00 root\n01 child\n").unwrap();
    assert_eq!(doc.root.children[0].name, "child");
}

#[test]
fn unexpected_token_details() {
    match parse_input("0 =bad\n").unwrap_err() {
        ParseError::UnexpectedToken { expected, found } => {
            assert_eq!(expected, "identifier");
            assert_eq!(found.token_t, TokenType::Assign);
            assert!(found.value.is_none());
        }
        other => panic!("{other:?}"),
    }
    match parse_input("0 html").unwrap_err() {
        ParseError::UnexpectedToken { expected, found } => {
            assert_eq!(expected, "identifier");
            assert_eq!(found.token_t, TokenType::Eof);
        }
        other => panic!("{other:?}"),
    }
    match parse_input("0 div \"a\" \"b\"\n").unwrap_err() {
        ParseError::UnexpectedToken { expected, .. } => assert_eq!(expected, "newline"),
        other => panic!("{other:?}"),
    }
    match parse_input("0 div a=\n").unwrap_err() {
        ParseError::UnexpectedToken { expected, found } => {
            assert_eq!(expected, "attribute value (string, number, boolean, or null)");
            assert_eq!(found.token_t, TokenType::NewLine);
        }
        other => panic!("{other:?}"),
    }
    match parse_input("0 div a b\n").unwrap_err() {
        ParseError::UnexpectedToken { expected, found } => {
            assert_eq!(expected, "=");
            assert_eq!(found.token_t, TokenType::Identifier);
        }
        other => panic!("{other:?}"),
    }
}

#[test]
fn inputs_without_lines_are_empty() {
    assert!(matches!(parse_input("").unwrap_err(), ParseError::EmptyInput));
    assert!(matches!(parse_input("\n\n").unwrap_err(), ParseError::EmptyInput));
    assert!(matches!(parse_input("abc").unwrap_err(), ParseError::EmptyInput));
}

#[test]
fn io_error_converts() {
    let e: ParseError = std::io::Error::new(std::io::ErrorKind::Other, "boom").into();
    assert!(matches!(e, ParseError::IoError(_)));
    let src = e.source().unwrap();
    assert_eq!(src.kind(), std::io::ErrorKind::Other);
    assert_eq!(src.to_string(), "boom");
    assert!(ParseError::EmptyInput.source().is_none());
    assert!(parse_input("0 a\n2 b\n").unwrap_err().source().is_none());
}

#[test]
fn oversized_depth_is_refused_by_parse_checked() {
    let mut parser = Parser::new(b"99999999999 a\n".to_vec());
    assert!(parser.parse_checked().is_none());
    let mut parser = Parser::new(b"4294967295 a\n".to_vec());
    match parser.parse_checked() {
        Some(Err(ParseError::DepthJump { current_depth: 0, target_depth: 4294967295 })) => {}
        other => panic!("{other:?}"),
    }
}

#[test]
fn parser_keeps_its_place_after_an_error() {
    let mut parser = Parser::new(b"0 a\n0 b\n".to_vec());
    assert!(matches!(parser.parse().unwrap_err(), ParseError::UnexpectedToken { .. }));
    assert!(matches!(parser.parse().unwrap_err(), ParseError::EmptyInput));
}

#[test]
fn roundtrip_all_value_kinds() {
    let doc = Document {
        root: Node {
            name: "cfg".into(),
            attrs: vec![
                Attribute { key: "s".into(), value: Value::String("x y".into()) },
                Attribute { key: "i".into(), value: Value::Integer(-12) },
                Attribute { key: "f".into(), value: Value::Float("2.5e-3".into()) },
                Attribute { key: "t".into(), value: Value::Boolean(true) },
                Attribute { key: "u".into(), value: Value::Boolean(false) },
                Attribute { key: "z".into(), value: Value::Null },
            ],
            content: Some("".into()),
            children: vec![
                Node { children: vec![leaf("c"), leaf("d")], ..leaf("b") },
                leaf("e"),
            ],
        },
    };
    let text = doc.to_string();
    assert_eq!(
        text,
        "0 cfg s=\"x y\" i=-12 f=2.5e-3 t=true u=false z=null \"\"\n1 b\n2 c\n2 d\n1 e\n"
    );
    assert_eq!(parse_input(&text).unwrap(), doc);
}

#[test]
fn text_with_escapes_reads_back() {
    let doc = Document {
        root: Node {
            content: Some("say \"hi\"\tnow\\then\nend".into()),
            attrs: vec![Attribute { key: "k".into(), value: Value::String("a\"b\n".into()) }],
            ..leaf("q")
        },
    };
    let text = doc.to_string();
    assert_eq!(
        text,
        "0 q k=\"a\\\"b\\n\" \"say \\\"hi\\\"\\tnow\\\\then\\nend\"\n"
    );
    assert_eq!(parse_input(&text).unwrap(), doc);
}

#[test]
fn forward_roundtrip_canonical_input() {
    for input in [
        "0 a\n",
        "0 a k=1 \"t\"\n1 b\n2 c x=-1.5\n1 d\n",
        "0 log level=\"info\" n=null\n1 out \"stdout\"\n",
    ] {
        assert_eq!(parse_input(input).unwrap().to_string(), input);
    }
}

#[test]
fn non_canonical_spacing_is_normalized() {
    let doc = parse_input("0  a   k=1\n").unwrap();
    assert_eq!(doc.to_string(), "0 a k=1\n");
}

#[test]
fn error_messages() {
    assert_eq!(parse_input("").unwrap_err().to_string(), "empty input");
    assert_eq!(
        parse_input("0 a\n1 b\n3 c\n").unwrap_err().to_string(),
        "invalid depth jump: from 2 to 3"
    );
    assert_eq!(
        parse_input("0 n key=baz\n").unwrap_err().to_string(),
        "invalid attribute value: `baz`"
    );
    let e = parse_input("0 =bad\n").unwrap_err();
    assert_eq!(
        e.to_string(),
        "unexpected token: expected identifier, found Token { value: None, token_t: Assign }"
    );
    let e = parse_input("0 a \"x\" \"q\\\"\n").unwrap_err();
    match &e {
        ParseError::UnexpectedToken { expected, found } => {
            assert_eq!(e.to_string(), format!("unexpected token: expected {}, found {:?}", expected, found));
        }
        other => panic!("{other:?}"),
    }
    let io: ParseError = std::io::Error::new(std::io::ErrorKind::Other, "boom").into();
    assert_eq!(io.to_string(), "I/O error: boom");
}

#[test]
fn accepted_document_reads_to_end() {
    let mut parser = Parser::new(b"0 a\n1 b\n".to_vec());
    assert!(parser.parse().is_ok());
    assert!(matches!(parser.parse().unwrap_err(), ParseError::EmptyInput));
}

#[test]
fn distinct_trees_have_distinct_texts() {
    let a = Document { root: Node { children: vec![leaf("b"), leaf("c")], ..leaf("a") } };
    let b = Document {
        root: Node { children: vec![Node { children: vec![leaf("c")], ..leaf("b") }], ..leaf("a") },
    };
    assert_ne!(a.to_string(), b.to_string());
    assert_eq!(parse_input(&a.to_string()).unwrap(), a);
    assert_eq!(parse_input(&b.to_string()).unwrap(), b);
}

#[test]
fn clone_is_deep_and_equal() {
    let doc = parse_input("0 a k=1 \"t\"\n1 b x=\"y\"\n2 c\n").unwrap();
    let copy = doc.clone();
    assert_eq!(copy, doc);
    assert_eq!(copy.to_string(), doc.to_string());
}

#[test]
fn last_line_without_newline() {
    assert!(matches!(parse_input("0 a\n1 b").unwrap_err(), ParseError::UnexpectedToken { .. }));
    match parse_input("0 a\n1 b \"x\"").unwrap_err() {
        ParseError::UnexpectedToken { expected, found } => {
            assert_eq!(expected, "newline");
            assert_eq!(found.token_t, TokenType::Eof);
        }
        other => panic!("{other:?}"),
    }
    match parse_input("0 t \"x\"").unwrap_err() {
        ParseError::UnexpectedToken { expected, .. } => assert_eq!(expected, "newline"),
        other => panic!("{other:?}"),
    }
    match parse_input("0 t k=1 ").unwrap_err() {
        ParseError::UnexpectedToken { expected, .. } => {
            assert_eq!(expected, "attribute, content, or newline")
        }
        other => panic!("{other:?}"),
    }
}
