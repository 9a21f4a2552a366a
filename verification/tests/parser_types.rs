use tsf::ast::syntax_tree_types::{Attribute, Document, Node, Value};
use tsf::errors::error_types::ParseError;
use tsf::parser::parser_types::Parser;

fn parse_input(input: &str) -> Result<Document, ParseError> {
    let mut parser = Parser::new(input.as_bytes().to_vec());
    parser.parse()
}

#[test]
fn parse_root_only() {
    let doc = parse_input("0 html\n").unwrap();
    assert_eq!(doc.root.name, "html");
    assert!(doc.root.attrs.is_empty());
    assert!(doc.root.content.is_none());
    assert!(doc.root.children.is_empty());
}

#[test]
fn parse_nested_tree() {
    let input = "\
0 html
1 head
2 title \"My page\"
1 body
2 h1 \"Hello\"
2 div class=\"container\"
";
    let doc = parse_input(input).unwrap();
    assert_eq!(doc.root.name, "html");
    assert_eq!(doc.root.children.len(), 2);

    let head = &doc.root.children[0];
    assert_eq!(head.name, "head");
    assert_eq!(head.children.len(), 1);
    assert_eq!(head.children[0].name, "title");
    assert_eq!(head.children[0].content.as_deref(), Some("My page"));

    let body = &doc.root.children[1];
    assert_eq!(body.name, "body");
    assert_eq!(body.children.len(), 2);
    assert_eq!(body.children[0].name, "h1");
    assert_eq!(body.children[0].content.as_deref(), Some("Hello"));
    assert_eq!(body.children[1].name, "div");
    assert_eq!(body.children[1].attrs.len(), 1);
    assert_eq!(body.children[1].attrs[0].key, "class");
    assert_eq!(body.children[1].attrs[0].value, Value::String("container".into()));
}

#[test]
fn parse_attributes() {
    let input = "0 div class=\"main\" id=\"content\"\n";
    let doc = parse_input(input).unwrap();
    assert_eq!(doc.root.name, "div");
    assert_eq!(doc.root.attrs.len(), 2);
    assert_eq!(doc.root.attrs[0].key, "class");
    assert_eq!(doc.root.attrs[0].value, Value::String("main".into()));
    assert_eq!(doc.root.attrs[1].key, "id");
    assert_eq!(doc.root.attrs[1].value, Value::String("content".into()));
}

#[test]
fn parse_attributes_unquoted() {
    let input = "0 button disabled=true count=42 ratio=3.14\n";
    let doc = parse_input(input).unwrap();
    assert_eq!(doc.root.name, "button");
    assert_eq!(doc.root.attrs.len(), 3);
    assert_eq!(doc.root.attrs[0].value, Value::Boolean(true));
    assert_eq!(doc.root.attrs[1].value, Value::Integer(42));
    assert_eq!(doc.root.attrs[2].value, Value::Float("3.14".into()));
}

#[test]
fn parse_content() {
    let input = "0 title \"My Page\"\n";
    let doc = parse_input(input).unwrap();
    assert_eq!(doc.root.name, "title");
    assert_eq!(doc.root.content.as_deref(), Some("My Page"));
}

#[test]
fn parse_attrs_and_content() {
    let input = "0 div class=\"main\" \"hello\"\n";
    let doc = parse_input(input).unwrap();
    assert_eq!(doc.root.name, "div");
    assert_eq!(doc.root.attrs.len(), 1);
    assert_eq!(doc.root.attrs[0].value, Value::String("main".into()));
    assert_eq!(doc.root.content.as_deref(), Some("hello"));
}

#[test]
fn parse_negative_values() {
    let input = "0 m temp=-42 offset=-3.14\n";
    let doc = parse_input(input).unwrap();
    assert_eq!(doc.root.attrs[0].value, Value::Integer(-42));
    assert_eq!(doc.root.attrs[1].value, Value::Float("-3.14".into()));
}

#[test]
fn parse_null_value() {
    let input = "0 m value=null\n";
    let doc = parse_input(input).unwrap();
    assert_eq!(doc.root.attrs[0].value, Value::Null);
}

#[test]
fn roundtrip_forward_parse_serialize() {
    let input = "\
0 html
1 head
2 title \"My page\"
1 body
2 h1 \"Hello\"
2 div class=\"container\"
";
    println!("=== Forward roundtrip: parse → serialize ===");
    println!("Input TSF:");
    println!("{input}");

    let doc = parse_input(input).unwrap();
    println!("Parsed AST: {doc:#?}");

    let output = doc.to_string();
    println!("Serialized output:");
    println!("{output}");
    println!("Input == Output: {}", input == output);

    assert_eq!(output, input);
}

#[test]
fn roundtrip_reverse_serialize_parse() {
    let doc = Document {
        root: Node {
            name: "html".into(),
            attrs: vec![],
            content: None,
            children: vec![
                Node {
                    name: "head".into(),
                    attrs: vec![],
                    content: None,
                    children: vec![Node {
                        name: "title".into(),
                        attrs: vec![],
                        content: Some("My page".into()),
                        children: vec![],
                    }],
                },
                Node {
                    name: "body".into(),
                    attrs: vec![],
                    content: None,
                    children: vec![
                        Node {
                            name: "h1".into(),
                            attrs: vec![],
                            content: Some("Hello".into()),
                            children: vec![],
                        },
                        Node {
                            name: "div".into(),
                            attrs: vec![Attribute {
                                key: "class".into(),
                                value: Value::String("container".into()),
                            }],
                            content: None,
                            children: vec![],
                        },
                    ],
                },
            ],
        },
    };
    println!("=== Reverse roundtrip: serialize → parse ===");
    println!("Original AST (built programmatically):");
    println!("{doc:#?}");

    let serialized = doc.to_string();
    println!("Serialized TSF:");
    println!("{serialized}");

    let parsed = parse_input(&serialized).unwrap();
    println!("Parsed back to AST:");
    println!("{parsed:#?}");
    println!("Original == Parsed: {}", parsed == doc);

    assert_eq!(parsed, doc);
}

#[test]
fn parse_error_empty() {
    let err = parse_input("").unwrap_err();
    assert!(matches!(err, ParseError::EmptyInput));
}

#[test]
fn parse_error_depth_nonzero_root() {
    let err = parse_input("2 root\n").unwrap_err();
    assert!(matches!(err, ParseError::DepthJump { current_depth: 0, target_depth: 2 }));
}

#[test]
fn parse_error_depth_jump() {
    let err = parse_input("0 root\n2 child\n").unwrap_err();
    assert!(matches!(err, ParseError::DepthJump { .. }));
}

#[test]
fn parse_error_invalid_value() {
    let err = parse_input("0 n key=baz\n").unwrap_err();
    assert!(matches!(err, ParseError::InvalidValue { .. }));
}

#[test]
fn parse_error_unexpected_token() {
    let err = parse_input("0 =bad\n").unwrap_err();
    assert!(matches!(err, ParseError::UnexpectedToken { .. }));
}

#[test]
fn parse_error_multiple_roots() {
    let err = parse_input("0 a\n0 b\n").unwrap_err();
    assert!(matches!(err, ParseError::UnexpectedToken { .. }));
}

#[test]
fn parse_error_content_then_attr() {
    let err = parse_input("0 div \"text\" class=\"x\"\n").unwrap_err();
    assert!(matches!(err, ParseError::UnexpectedToken { .. }));
}
