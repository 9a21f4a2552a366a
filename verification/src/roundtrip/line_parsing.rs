//! How the parser reads the tokens of canonical lines.

use vstd::prelude::*;
use crate::ast::syntax_tree_types::{
    AttributeView, NodeView, ValueView, bool_text, line_node, null_text, value_text,
};
use crate::lexer::lexer_types::{TokenType, TokenView, bare_token, stream_first, stream_rest};
use crate::parser::parser_types::{
    Outcome, attribute_spec, classify, expect_spec, line_after_name, line_items, msg_assign,
    msg_depth, msg_identifier, parse_line_spec, parse_value_spec,
};
use crate::roundtrip::{attribute_ok, line_ok, value_ok};
use crate::roundtrip::text_tokens::{attrs_tokens, content_tokens, line_tokens, value_token, word_token};
use crate::text::{
    all_digits, decimal, is_digit, is_exp_mark, is_float_literal, is_mantissa, is_number,
    lemma_parse_decimal_u32, lemma_parse_signed_decimal, sign_len, spec_parse_i64,
};

verus! {

pub proof fn lemma_stream_cons(t: TokenView, r: Seq<TokenView>)
    requires
        r.len() >= 1,
    ensures
        stream_first(seq![t] + r) == t,
        stream_rest(seq![t] + r) == r,
{
    assert((seq![t] + r).subrange(1, (seq![t] + r).len() as int) =~= r);
}

proof fn lemma_mantissa_chars(m: Seq<char>)
    requires
        is_mantissa(m),
    ensures
        forall|i: int| 0 <= i < m.len() ==> is_digit(#[trigger] m[i]) || m[i] == '.',
{
    if !(m.len() > 0 && all_digits(m)) {
        let k = choose|k: int|
            0 <= k < m.len() && #[trigger] m[k] == '.' && all_digits(m.take(k)) && all_digits(
                m.skip(k + 1),
            ) && m.len() > 1;
        assert forall|i: int| 0 <= i < m.len() implies is_digit(#[trigger] m[i]) || m[i] == '.' by {
            if i < k {
                assert(m[i] == m.take(k)[i]);
            } else if i > k {
                assert(m[i] == m.skip(k + 1)[i - k - 1]);
            }
        }
    }
}

/// A word of letters other than the float grammar's is no float literal.
proof fn lemma_keyword_not_float(t: Seq<char>)
    requires
        t.len() == 4 || t.len() == 5,
        t[0] == 't' || t[0] == 'f' || t[0] == 'n',
        forall|i: int| 0 <= i < t.len() ==> !is_digit(#[trigger] t[i]) && t[i] != '.',
    ensures
        !is_float_literal(t),
        spec_parse_i64(t) is None,
{
    assert(sign_len(t) == 0);
    assert(t.skip(0) =~= t);
    assert(t.subrange(0, t.len() as int) =~= t);
    assert(!is_digit(t[0]));
    if is_mantissa(t) {
        lemma_mantissa_chars(t);
        assert(is_digit(t[0]) || t[0] == '.');
    }
    if exists|k: int|
        0 <= k < t.len() && is_exp_mark(#[trigger] t[k]) && is_mantissa(t.take(k)) && crate::text::is_exp_tail(
            t.skip(k + 1),
        ) {
        let k = choose|k: int|
            0 <= k < t.len() && is_exp_mark(#[trigger] t[k]) && is_mantissa(t.take(k))
                && crate::text::is_exp_tail(t.skip(k + 1));
        lemma_mantissa_chars(t.take(k));
        assert(k > 0);
        assert(t.take(k)[0] == t[0]);
    }
    assert(!is_number(t));
}

/// An unquoted value in canonical text classifies as the same value.
pub proof fn lemma_classify_text(v: ValueView)
    requires
        value_ok(v),
        !(v is String),
    ensures
        classify(value_text(v)) == Ok::<ValueView, crate::errors::error_types::ParseErrorView>(v),
{
    match v {
        ValueView::Integer(n) => {
            lemma_parse_signed_decimal(n);
        },
        ValueView::Float(t) => {},
        ValueView::Boolean(b) => {
            let t = bool_text(b);
            lemma_keyword_not_float(t);
            if !b {
                assert(t != bool_text(true));
            }
        },
        ValueView::Null => {
            let t = null_text();
            lemma_keyword_not_float(t);
            assert(t != bool_text(true));
            assert(t != bool_text(false));
        },
        _ => {},
    }
}

pub proof fn lemma_parse_attribute(a: AttributeView, r: Seq<TokenView>)
    requires
        attribute_ok(a),
        r.len() >= 1,
    ensures
        attribute_spec(
            seq![word_token(a.key), bare_token(TokenType::Assign), value_token(a.value)] + r,
        ) == Outcome::Done(a, r),
{
    let s = seq![word_token(a.key), bare_token(TokenType::Assign), value_token(a.value)] + r;
    let s1 = seq![bare_token(TokenType::Assign), value_token(a.value)] + r;
    let s2 = seq![value_token(a.value)] + r;
    assert(s =~= seq![word_token(a.key)] + s1);
    assert(s1 =~= seq![bare_token(TokenType::Assign)] + s2);
    lemma_stream_cons(word_token(a.key), s1);
    lemma_stream_cons(bare_token(TokenType::Assign), s2);
    lemma_stream_cons(value_token(a.value), r);
    match a.value {
        ValueView::String(_) => {},
        _ => {
            lemma_classify_text(a.value);
        },
    }
    assert(expect_spec(s, TokenType::Identifier, msg_identifier()) == Outcome::Done(a.key, s1));
    assert(expect_spec(s1, TokenType::Assign, msg_assign()) == Outcome::Done(Seq::<char>::empty(), s2));
    assert(parse_value_spec(s2) == Outcome::Done(a.value, r));
}

pub proof fn lemma_line_items(
    attrs: Seq<AttributeView>,
    content: Option<Seq<char>>,
    acc: Seq<AttributeView>,
    r: Seq<TokenView>,
)
    requires
        forall|i: int| 0 <= i < attrs.len() ==> attribute_ok(#[trigger] attrs[i]),
        r.len() >= 1,
    ensures
        line_items(
            attrs_tokens(attrs) + content_tokens(content) + seq![bare_token(TokenType::NewLine)] + r,
            acc,
            None,
        ) == Outcome::Done((acc + attrs, content), r),
    decreases attrs.len(),
{
    let nl = bare_token(TokenType::NewLine);
    if attrs.len() == 0 {
        assert(acc + attrs =~= acc);
        assert(attrs_tokens(attrs) =~= Seq::<TokenView>::empty());
        lemma_stream_cons(nl, r);
        match content {
            Some(c) => {
                let t = TokenView { value: Some(c), token_t: TokenType::Text };
                let s = attrs_tokens(attrs) + content_tokens(content) + seq![nl] + r;
                assert(s =~= seq![t] + (seq![nl] + r));
                lemma_stream_cons(t, seq![nl] + r);
                assert(line_items(seq![nl] + r, acc, Some(c)) == Outcome::Done((acc, Some(c)), r));
            },
            None => {
                let s = attrs_tokens(attrs) + content_tokens(content) + seq![nl] + r;
                assert(s =~= seq![nl] + r);
            },
        }
    } else {
        let a = attrs[0];
        let rest = attrs.skip(1);
        assert(attribute_ok(a));
        assert forall|i: int| 0 <= i < rest.len() implies attribute_ok(#[trigger] rest[i]) by {
            assert(rest[i] == attrs[i + 1]);
        }
        let tail = attrs_tokens(rest) + content_tokens(content) + seq![nl] + r;
        let s = attrs_tokens(attrs) + content_tokens(content) + seq![nl] + r;
        assert(s =~= seq![word_token(a.key), bare_token(TokenType::Assign), value_token(a.value)]
            + tail);
        lemma_parse_attribute(a, tail);
        lemma_stream_cons(word_token(a.key), seq![bare_token(TokenType::Assign), value_token(a.value)] + tail);
        lemma_line_items(rest, content, acc.push(a), r);
        assert(acc.push(a) + rest =~= acc + attrs);
    }
}

/// The tokens of a canonical line read back as its depth and its node
/// without children.
pub proof fn lemma_parse_line(depth: nat, n: NodeView, r: Seq<TokenView>)
    requires
        line_ok(n),
        depth <= u32::MAX,
        r.len() >= 1,
    ensures
        parse_line_spec(line_tokens(depth, n) + r) == Outcome::Done((depth as u32, line_node(n)), r),
{
    let dt = TokenView { value: Some(decimal(depth)), token_t: TokenType::Depth };
    let s2 = attrs_tokens(n.attrs) + content_tokens(n.content) + seq![bare_token(TokenType::NewLine)]
        + r;
    let s1 = seq![word_token(n.name)] + s2;
    let s = line_tokens(depth, n) + r;
    assert(s =~= seq![dt] + s1);
    lemma_stream_cons(dt, s1);
    lemma_stream_cons(word_token(n.name), s2);
    lemma_parse_decimal_u32(depth as u32);
    assert(expect_spec(s, TokenType::Depth, msg_depth()) == Outcome::Done(decimal(depth), s1));
    assert(expect_spec(s1, TokenType::Identifier, msg_identifier()) == Outcome::Done(n.name, s2));
    lemma_line_items(n.attrs, n.content, Seq::empty(), r);
    assert(Seq::<AttributeView>::empty() + n.attrs =~= n.attrs);
    assert(line_after_name(depth as u32, n.name, s2) == Outcome::Done((depth as u32, line_node(n)), r));
}

} // verus!
