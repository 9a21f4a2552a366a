use tsf::ast::syntax_tree_types::{Document, Node, Value};
use tsf::errors::error_types::ParseError;
use tsf::parser::parser_types::Parser;

fn parse_input(input: &str) -> Result<Document, ParseError> {
    Parser::new(input.as_bytes().to_vec()).parse()
}

fn value_of(raw: &str) -> Result<Value, ParseError> {
    let doc = parse_input(&format!("0 n k={raw}\n"))?;
    Ok(doc.root.attrs[0].value.clone())
}

#[test]
fn integer_edges() {
    assert_eq!(value_of("+5").unwrap(), Value::Integer(5));
    assert_eq!(value_of("-0").unwrap(), Value::Integer(0));
    assert_eq!(value_of("007").unwrap(), Value::Integer(7));
    assert_eq!(value_of("9223372036854775807").unwrap(), Value::Integer(i64::MAX));
    assert_eq!(value_of("-9223372036854775808").unwrap(), Value::Integer(i64::MIN));
    assert_eq!(
        value_of("9223372036854775808").unwrap(),
        Value::Float("9223372036854775808".into())
    );
}

#[test]
fn float_forms() {
    for raw in ["1e5", "1E-3", "2.", ".5", "+.5", "-1.5e+10", "inf", "-Infinity", "NaN", "nan"] {
        assert_eq!(value_of(raw).unwrap(), Value::Float(raw.into()), "{raw}");
    }
}

#[test]
fn invalid_values() {
    for raw in [".", "e5", "1e", "1e+", "TRUE", "nul", "--1", "1.2.3", "infinit", "0x10"] {
        match value_of(raw) {
            Err(ParseError::InvalidValue { raw: r }) => assert_eq!(r, raw),
            other => panic!("{raw}: {other:?}"),
        }
    }
}

#[test]
fn float_grammar_matches_std() {
    let samples = [
        "0", "1", "-1", "+1", "1.", ".1", ".", "1.5", "-.5", "+.", "1e1", "1e", "e1", "1e-", "1e+5",
        "1E5", "1.5e3", "1.e3", ".e3", "inf", "INF", "Inf", "+inf", "-inf", "infinity", "INFINITY",
        "infinit", "infinityy", "nan", "NaN", "-nan", "+NAN", "nana", "1_0", "1 ", "0.0.0", "00.00",
        "1e1e1", "--1", "+-1", "1.5E-007", "12345678901234567890", "0e0", "5.e-1", "x", "true",
    ];
    for raw in samples {
        let expected = if raw.parse::<i64>().is_ok() {
            "int"
        } else if raw.parse::<f64>().is_ok() {
            "float"
        } else if raw == "true" || raw == "false" || raw == "null" {
            "keyword"
        } else {
            "invalid"
        };
        if raw.contains(' ') {
            continue;
        }
        let got = match value_of(raw) {
            Ok(Value::Integer(_)) => "int",
            Ok(Value::Float(_)) => "float",
            Ok(_) => "keyword",
            Err(_) => "invalid",
        };
        assert_eq!(got, expected, "{raw}");
    }
}

#[test]
fn value_text_forms() {
    assert_eq!(Value::Integer(i64::MIN).to_string(), "-9223372036854775808");
    assert_eq!(Value::Integer(-7).to_string(), "-7");
    assert_eq!(Value::Float("1e5".into()).to_string(), "1e5");
    assert_eq!(Value::String("a\\b\tc".into()).to_string(), "\"a\\\\b\\tc\"");
    assert_eq!(Value::String(String::new()).to_string(), "\"\"");
}

#[test]
fn quoted_value_is_not_classified() {
    assert_eq!(value_of("\"42\"").unwrap(), Value::String("42".into()));
    assert_eq!(value_of("\"true\"").unwrap(), Value::String("true".into()));
}

#[test]
fn deep_tree_depth_numerals() {
    let mut node = Node { name: "leaf".into(), attrs: vec![], content: None, children: vec![] };
    for i in (0..12).rev() {
        node = Node { name: format!("n{i}"), attrs: vec![], content: None, children: vec![node] };
    }
    let text = node.to_string();
    let last = text.lines().last().unwrap();
    assert_eq!(last, "12 leaf");
    let parsed = parse_input(&text).unwrap();
    assert_eq!(parsed.root, node);
}
