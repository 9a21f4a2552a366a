use tsf::lexer::lexer_types::{Lexer, Token, TokenType};

fn kinds_and_values(input: &str, n: usize) -> Vec<(TokenType, Option<String>)> {
    let mut lexer = Lexer::new(input.as_bytes().to_vec());
    let mut out = Vec::new();
    for _ in 0..n {
        let Token { value, token_t } = lexer.scan();
        out.push((token_t, value));
    }
    out
}

fn v(s: &str) -> Option<String> {
    Some(s.to_string())
}

#[test]
fn lexer_line_tokens() {
    let toks = kinds_and_values("0 div class=\"main\" id=7 \"hi there\"\n", 10);
    assert_eq!(
        toks,
        vec![
            (TokenType::Depth, v("0")),
            (TokenType::Identifier, v("div")),
            (TokenType::Identifier, v("class")),
            (TokenType::Assign, None),
            (TokenType::Text, v("main")),
            (TokenType::Identifier, v("id")),
            (TokenType::Assign, None),
            (TokenType::Identifier, v("7")),
            (TokenType::Text, v("hi there")),
            (TokenType::NewLine, None),
        ]
    );
}

#[test]
fn lexer_eof_repeats() {
    let toks = kinds_and_values("0 a\n", 6);
    assert_eq!(toks[2], (TokenType::NewLine, None));
    for t in &toks[3..] {
        assert_eq!(*t, (TokenType::Eof, None));
    }
}

#[test]
fn lexer_skips_non_digits_at_line_start() {
    let toks = kinds_and_values("x1y2 a\n", 2);
    assert_eq!(toks[0], (TokenType::Depth, v("12")));
    assert_eq!(toks[1], (TokenType::Identifier, v("a")));
}

#[test]
fn lexer_empty_depth() {
    let toks = kinds_and_values(" a\n", 2);
    assert_eq!(toks[0], (TokenType::Depth, v("")));
}

#[test]
fn lexer_word_runs_into_quote() {
    let toks = kinds_and_values("0 ab\"cd\"\n", 4);
    assert_eq!(toks[1], (TokenType::Text, v("abcd")));
    assert_eq!(toks[2], (TokenType::NewLine, None));
}

#[test]
fn lexer_drops_unfinished_word_at_end() {
    let toks = kinds_and_values("0 html", 3);
    assert_eq!(toks[0], (TokenType::Depth, v("0")));
    assert_eq!(toks[1], (TokenType::Eof, None));
}

#[test]
fn lexer_drops_unterminated_string() {
    let toks = kinds_and_values("0 a \"open", 4);
    assert_eq!(toks[1], (TokenType::Identifier, v("a")));
    assert_eq!(toks[2], (TokenType::Eof, None));
}

#[test]
fn lexer_bytes_become_characters_one_by_one() {
    let toks = kinds_and_values("0 caf\u{e9}\n", 2);
    assert_eq!(toks[1], (TokenType::Identifier, Some("caf\u{c3}\u{a9}".to_string())));
}

#[test]
fn lexer_assign_splits_word() {
    let toks = kinds_and_values("0 a=b\n", 6);
    assert_eq!(toks[1], (TokenType::Identifier, v("a")));
    assert_eq!(toks[2], (TokenType::Assign, None));
    assert_eq!(toks[3], (TokenType::Identifier, v("b")));
    assert_eq!(toks[4], (TokenType::NewLine, None));
}

#[test]
fn lexer_decodes_escapes_in_text() {
    let toks = kinds_and_values("0 text \"hello\\nworld\"\n", 4);
    assert_eq!(toks[2], (TokenType::Text, v("hello\nworld")));
    let toks = kinds_and_values("0 t \"a\\\"b\\\\c\\td\"\n", 4);
    assert_eq!(toks[2], (TokenType::Text, v("a\"b\\c\td")));
    assert_eq!(toks[3], (TokenType::NewLine, None));
}

#[test]
fn lexer_keeps_unknown_escape() {
    let toks = kinds_and_values("0 t \"a\\qb\"\n", 3);
    assert_eq!(toks[2], (TokenType::Text, v("a\\qb")));
}

#[test]
fn lexer_unclosed_escape_ends_in_eof() {
    let toks = kinds_and_values("0 t \"ab\\", 4);
    assert_eq!(toks[2], (TokenType::Eof, None));
    assert_eq!(toks[3], (TokenType::Eof, None));
}
