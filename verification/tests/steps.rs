use tsf::ast::syntax_tree_types::{Document, Node, Value};
use tsf::errors::error_types::ParseError;
use tsf::lexer::lexer_types::{ByteLexer, Lexer, Token, TokenType};
use tsf::parser::parser_types::{Parser, TreeBuilder};

fn parser(input: &str) -> Parser {
    Parser::new(input.as_bytes().to_vec())
}

fn kind(p: &Parser) -> TokenType {
    p.peek().unwrap().token_t
}

#[test]
fn peek_takes_nothing() {
    let p = parser("0 a\n");
    assert_eq!(kind(&p), TokenType::Depth);
    assert_eq!(kind(&p), TokenType::Depth);
    assert_eq!(p.peek().unwrap().value.as_deref(), Some("0"));
}

#[test]
fn advance_takes_one_token_and_eof_stays() {
    let mut p = parser("0 a\n");
    assert_eq!(p.advance().token_t, TokenType::Depth);
    assert_eq!(kind(&p), TokenType::Identifier);
    assert_eq!(p.advance().value.as_deref(), Some("a"));
    assert_eq!(p.advance().token_t, TokenType::NewLine);
    for _ in 0..3 {
        assert_eq!(kind(&p), TokenType::Eof);
        assert_eq!(p.advance().token_t, TokenType::Eof);
    }
}

#[test]
fn expect_depth_takes_or_leaves() {
    let mut p = parser("12 a\n");
    assert_eq!(p.expect_depth().unwrap(), "12");
    assert_eq!(kind(&p), TokenType::Identifier);
    match p.expect_depth().unwrap_err() {
        ParseError::UnexpectedToken { expected, found } => {
            assert_eq!(expected, "depth value");
            assert_eq!(found.value.as_deref(), Some("a"));
        }
        other => panic!("{other:?}"),
    }
    assert_eq!(p.peek().unwrap().value.as_deref(), Some("a"));
}

#[test]
fn expect_identifier_takes_or_leaves() {
    let mut p = parser("0 name=1\n");
    match p.expect_identifier().unwrap_err() {
        ParseError::UnexpectedToken { expected, found } => {
            assert_eq!(expected, "identifier");
            assert_eq!(found.token_t, TokenType::Depth);
        }
        other => panic!("{other:?}"),
    }
    assert_eq!(p.expect_depth().unwrap(), "0");
    assert_eq!(p.expect_identifier().unwrap(), "name");
    assert_eq!(kind(&p), TokenType::Assign);
}

#[test]
fn expect_assign_takes_or_leaves() {
    let mut p = parser("0 k=v\n");
    assert!(p.expect_assign().is_err());
    assert_eq!(kind(&p), TokenType::Depth);
    p.advance();
    p.advance();
    assert!(p.expect_assign().is_ok());
    assert_eq!(p.peek().unwrap().value.as_deref(), Some("v"));
}

#[test]
fn parse_value_kinds() {
    let mut p = parser("0 \"s\" -4 2.5 true false null bad =");
    p.advance();
    assert_eq!(p.parse_value().unwrap(), Value::String("s".into()));
    assert_eq!(p.parse_value().unwrap(), Value::Integer(-4));
    assert_eq!(p.parse_value().unwrap(), Value::Float("2.5".into()));
    assert_eq!(p.parse_value().unwrap(), Value::Boolean(true));
    assert_eq!(p.parse_value().unwrap(), Value::Boolean(false));
    assert_eq!(p.parse_value().unwrap(), Value::Null);
    assert!(matches!(p.parse_value().unwrap_err(), ParseError::InvalidValue { raw } if raw == "bad"));
    match p.parse_value().unwrap_err() {
        ParseError::UnexpectedToken { found, .. } => assert_eq!(found.token_t, TokenType::Assign),
        other => panic!("{other:?}"),
    }
    assert_eq!(kind(&p), TokenType::Eof);
}

#[test]
fn parse_line_reads_one_line() {
    let mut p = parser("3 div id=7 \"x\"\n4 next\n");
    let (depth, node) = p.parse_line().unwrap().unwrap();
    assert_eq!(depth, 3);
    assert_eq!(node.name, "div");
    assert_eq!(node.attrs.len(), 1);
    assert_eq!(node.attrs[0].value, Value::Integer(7));
    assert_eq!(node.content.as_deref(), Some("x"));
    assert!(node.children.is_empty());
    assert_eq!(p.peek().unwrap().value.as_deref(), Some("4"));
    assert!(parser("0 t \"x\"").parse_line().unwrap().is_err());
    assert!(parser("99999999999 t\n").parse_line().is_none());
}

fn feed_all(input: &[u8]) -> Vec<Token> {
    let mut core = ByteLexer::new();
    let mut out = Vec::new();
    let mut i = 0;
    while i < input.len() {
        match core.feed(input[i]) {
            Some((tok, used)) => {
                out.push(tok);
                if used {
                    i += 1;
                }
            }
            None => i += 1,
        }
    }
    out.push(core.finish());
    out
}

fn scan_all(input: &[u8]) -> Vec<Token> {
    let mut lexer = Lexer::new(input.to_vec());
    let mut out = Vec::new();
    loop {
        let tok = lexer.scan();
        let end = tok.token_t == TokenType::Eof;
        out.push(tok);
        if end {
            return out;
        }
    }
}

#[test]
fn byte_lexer_matches_lexer() {
    for input in [
        &b"0 div class=\"main\" id=7 \"hi\\\"there\"\n1 p\n"[..],
        b"0 a k=v\n1 b \"x\\ny\"",
        b"",
        b"12 a b=c",
    ] {
        let fed = feed_all(input);
        let scanned = scan_all(input);
        assert_eq!(fed.len(), scanned.len());
        for (a, b) in fed.iter().zip(scanned.iter()) {
            assert_eq!(a.token_t, b.token_t);
            assert_eq!(a.value, b.value);
        }
    }
}

#[test]
fn byte_lexer_leaves_a_byte_that_ends_a_word() {
    let mut core = ByteLexer::new();
    assert!(core.feed(b'0').is_none());
    let (tok, used) = core.feed(b' ').unwrap();
    assert_eq!((tok.token_t, tok.value.as_deref(), used), (TokenType::Depth, Some("0"), true));
    assert!(core.feed(b'k').is_none());
    let (tok, used) = core.feed(b'=').unwrap();
    assert_eq!((tok.token_t, tok.value.as_deref(), used), (TokenType::Identifier, Some("k"), false));
    let (tok, used) = core.feed(b'=').unwrap();
    assert_eq!((tok.token_t, used), (TokenType::Assign, true));
}

fn leaf(name: &str) -> Node {
    Node { name: name.into(), attrs: vec![], content: None, children: vec![] }
}

#[test]
fn depth_rule_builds_preorder_tree() {
    let doc = parser("0 a\n1 b\n2 c\n2 d\n1 e\n2 f\n3 g\n1 h\n").parse().unwrap();
    let mut lines = Vec::new();
    fn walk(n: &Node, d: usize, out: &mut Vec<(usize, String)>) {
        out.push((d, n.name.clone()));
        for c in &n.children {
            walk(c, d + 1, out);
        }
    }
    walk(&doc.root, 0, &mut lines);
    let names: Vec<(usize, &str)> = lines.iter().map(|(d, n)| (*d, n.as_str())).collect();
    assert_eq!(
        names,
        vec![(0, "a"), (1, "b"), (2, "c"), (2, "d"), (1, "e"), (2, "f"), (3, "g"), (1, "h")]
    );
}

#[test]
fn depth_rule_errors_at_first_bad_line() {
    assert!(matches!(
        parser("2 a\n0 b\n").parse().unwrap_err(),
        ParseError::DepthJump { current_depth: 0, target_depth: 2 }
    ));
    assert!(matches!(
        parser("0 a\n1 b\n0 c\n5 d\n").parse().unwrap_err(),
        ParseError::UnexpectedToken { .. }
    ));
    assert!(matches!(
        parser("0 a\n1 b\n2 c\n4 d\n0 e\n").parse().unwrap_err(),
        ParseError::DepthJump { current_depth: 3, target_depth: 4 }
    ));
}

#[test]
fn serialized_depths_obey_the_rule() {
    let doc = Document {
        root: Node {
            children: vec![
                Node { children: vec![Node { children: vec![leaf("d")], ..leaf("c") }], ..leaf("b") },
                leaf("e"),
            ],
            ..leaf("a")
        },
    };
    let text = doc.to_string();
    let depths: Vec<u32> = text.lines().map(|l| l.split(' ').next().unwrap().parse().unwrap()).collect();
    assert_eq!(depths, vec![0, 1, 2, 3, 1]);
    assert_eq!(depths[0], 0);
    for w in depths.windows(2) {
        assert!(1 <= w[1] && w[1] <= w[0] + 1);
    }
}

#[test]
fn tree_builder_takes_lines_one_at_a_time() {
    let mut tree = TreeBuilder::new();
    tree.push_line(0, leaf("a")).unwrap();
    tree.push_line(1, leaf("b")).unwrap();
    tree.push_line(2, leaf("c")).unwrap();
    assert!(matches!(
        tree.push_line(4, leaf("x")).unwrap_err(),
        ParseError::DepthJump { current_depth: 3, target_depth: 4 }
    ));
    assert!(matches!(tree.push_line(0, leaf("y")).unwrap_err(), ParseError::UnexpectedToken { .. }));
    tree.push_line(1, leaf("d")).unwrap();
    let doc = tree.finish().unwrap();
    assert_eq!(doc.to_string(), "0 a\n1 b\n2 c\n1 d\n");
}

#[test]
fn tree_builder_empty_and_bad_root() {
    assert!(matches!(TreeBuilder::new().finish().unwrap_err(), ParseError::EmptyInput));
    let mut tree = TreeBuilder::new();
    assert!(matches!(
        tree.push_line(1, leaf("a")).unwrap_err(),
        ParseError::DepthJump { current_depth: 0, target_depth: 1 }
    ));
    assert!(matches!(tree.finish().unwrap_err(), ParseError::EmptyInput));
}

#[test]
fn lines_parsed_one_at_a_time_build_the_document() {
    let text = "0 a k=1\n1 b \"x\"\n2 c\n1 d\n";
    let mut tree = TreeBuilder::new();
    for line in text.split_inclusive('\n') {
        let (depth, node) = parser(line).parse_line().unwrap().unwrap();
        tree.push_line(depth, node).unwrap();
    }
    assert_eq!(tree.finish().unwrap(), parser(text).parse().unwrap());
}
