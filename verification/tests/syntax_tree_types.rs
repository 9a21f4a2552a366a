use tsf::ast::syntax_tree_types::{Attribute, Document, Node, Value};

#[test]
fn display_value_string() {
    assert_eq!(Value::String("hello".into()).to_string(), "\"hello\"");
}

#[test]
fn display_value_string_escapes() {
    assert_eq!(
        Value::String("hello\n\"world\"".into()).to_string(),
        "\"hello\\n\\\"world\\\"\""
    );
}

#[test]
fn display_value_integer() {
    assert_eq!(Value::Integer(42).to_string(), "42");
}

#[test]
fn display_value_float() {
    assert_eq!(Value::Float("3.14".into()).to_string(), "3.14");
}

#[test]
fn display_value_boolean() {
    assert_eq!(Value::Boolean(true).to_string(), "true");
    assert_eq!(Value::Boolean(false).to_string(), "false");
}

#[test]
fn display_value_null() {
    assert_eq!(Value::Null.to_string(), "null");
}

#[test]
fn display_attribute() {
    let attr = Attribute {
        key: "class".into(),
        value: Value::String("container".into()),
    };
    assert_eq!(attr.to_string(), "class=\"container\"");
}

#[test]
fn display_node_simple() {
    let node = Node {
        name: "html".into(),
        attrs: vec![],
        content: None,
        children: vec![],
    };
    assert_eq!(node.to_string(), "0 html\n");
}

#[test]
fn display_node_with_attrs_and_content() {
    let node = Node {
        name: "div".into(),
        attrs: vec![Attribute {
            key: "class".into(),
            value: Value::String("main".into()),
        }],
        content: Some("hello".into()),
        children: vec![],
    };
    assert_eq!(node.to_string(), "0 div class=\"main\" \"hello\"\n");
}

#[test]
fn display_nested_tree() {
    let tree = Document {
        root: Node {
            name: "html".into(),
            attrs: vec![],
            content: None,
            children: vec![
                Node {
                    name: "head".into(),
                    attrs: vec![],
                    content: None,
                    children: vec![Node {
                        name: "title".into(),
                        attrs: vec![],
                        content: Some("My page".into()),
                        children: vec![],
                    }],
                },
                Node {
                    name: "body".into(),
                    attrs: vec![],
                    content: None,
                    children: vec![
                        Node {
                            name: "h1".into(),
                            attrs: vec![],
                            content: Some("Hello".into()),
                            children: vec![],
                        },
                        Node {
                            name: "div".into(),
                            attrs: vec![Attribute {
                                key: "class".into(),
                                value: Value::String("container".into()),
                            }],
                            content: None,
                            children: vec![],
                        },
                    ],
                },
            ],
        },
    };
    let expected = "\
0 html
1 head
2 title \"My page\"
1 body
2 h1 \"Hello\"
2 div class=\"container\"
";
    assert_eq!(tree.to_string(), expected);
}
