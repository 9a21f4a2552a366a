//! What holds of every parse: the rules on depths (the first line is the
//! root at depth 0; each later line stays at the depth of the line before
//! it, goes one level deeper, or goes back any number of levels, but never to
//! depth 0 again), when input counts as empty, that a document is read to the
//! end, and how deep a parsed tree can be.

use vstd::prelude::*;
use crate::ast::syntax_tree_types::{NodeView, height, max_height, with_child};
use crate::errors::error_types::ParseErrorView;
use crate::lexer::lexer_types::{TokenType, TokenView, stream_first};
use crate::ast::syntax_tree_types::AttributeView;
use crate::parser::parser_types::{
    Outcome, attribute_spec, collapse, collapse_one, lemma_collapse_len, depth_zero_token, lemma_attribute_measure,
    lemma_rest_measure, lemma_line_measure, line_items, msg_second_root, parse_from,
    parse_line_spec, parse_stream, push_line_spec, stream_measure, token_chars,
};
use crate::lexer::lexer_types::stream_rest;
use crate::ast::syntax_tree_types::ValueView;
use crate::parser::parser_types::parse_value_spec;
use crate::text::{is_float_literal, spec_parse_i64};

verus! {

/// A first line at a depth other than 0 is refused: the depth jumps from 0.
pub proof fn theorem_first_line_at_root(s: Seq<TokenView>)
    requires
        parse_line_spec(s) matches Outcome::Done((d, _), _) && d != 0,
    ensures
        parse_line_spec(s) matches Outcome::Done((d, _), s2) && parse_stream(s) == Outcome::Fail::<
            NodeView,
        >(ParseErrorView::DepthJump { current_depth: 0, target_depth: d }, s2),
{
}

/// With `open` lines open (the depth of the last line plus one), a line at
/// depth `d` is accepted exactly when `1 <= d <= open`; it then closes the
/// lines at depth `d` and deeper and leaves `d + 1` lines open. A line at
/// depth 0 is refused as a second root, and a deeper one as a jump.
pub proof fn theorem_next_line_depth(stack: Seq<NodeView>, d: u32, node: NodeView)
    requires
        1 <= stack.len() <= u32::MAX,
    ensures
        push_line_spec(stack, d, node) is Ok <==> 1 <= d <= stack.len(),
        push_line_spec(stack, d, node) matches Ok(next) ==> next == collapse(stack, d as nat).push(
            node,
        ) && next.len() == d + 1,
        d == 0 ==> push_line_spec(stack, d, node) == Err::<Seq<NodeView>, ParseErrorView>(
            ParseErrorView::UnexpectedToken { expected: msg_second_root(), found: depth_zero_token() },
        ),
        d > stack.len() ==> push_line_spec(stack, d, node) == Err::<Seq<NodeView>, ParseErrorView>(
            ParseErrorView::DepthJump { current_depth: stack.len() as u32, target_depth: d },
        ),
{
    lemma_collapse_len(stack, d as nat);
}

proof fn lemma_collapse_nonempty(x: Seq<NodeView>, d: nat)
    requires
        x.len() > 0,
        d >= 1,
    ensures
        collapse(x, d).len() > 0,
{
    lemma_collapse_len(x, d);
}

proof fn lemma_items_errors(
    s: Seq<TokenView>,
    attrs: Seq<AttributeView>,
    content: Option<Seq<char>>,
)
    ensures
        !(line_items(s, attrs, content) matches Outcome::Fail(ParseErrorView::EmptyInput, _)),
    decreases stream_measure(s),
{
    let t = stream_first(s);
    lemma_rest_measure(s);
    if t.token_t == TokenType::Identifier && content is None {
        lemma_attribute_measure(s);
        if let Outcome::Done(a, s3) = attribute_spec(s) {
            lemma_items_errors(s3, attrs.push(a), content);
        }
    } else if t.token_t == TokenType::Text && content is None {
        lemma_items_errors(stream_rest(s), attrs, Some(token_chars(t)));
    }
}

proof fn lemma_line_errors(s: Seq<TokenView>)
    ensures
        !(parse_line_spec(s) matches Outcome::Fail(ParseErrorView::EmptyInput, _)),
{
    lemma_rest_measure(s);
    lemma_rest_measure(stream_rest(s));
    lemma_items_errors(stream_rest(stream_rest(s)), Seq::empty(), None);
}

proof fn lemma_open_never_empty(s: Seq<TokenView>, stack: Seq<NodeView>)
    requires
        stack.len() > 0,
    ensures
        !(parse_from(s, stack) matches Outcome::Fail(ParseErrorView::EmptyInput, _)),
    decreases stream_measure(s),
{
    lemma_line_errors(s);
    if stream_first(s).token_t == TokenType::Eof {
        lemma_collapse_nonempty(stack, 1);
    } else if let Outcome::Done((d, m), s2) = parse_line_spec(s) {
        if let Ok(next) = push_line_spec(stack, d, m) {
            lemma_line_measure(s);
            lemma_open_never_empty(s2, next);
        }
    }
}

/// A document is refused as empty exactly when its input holds no token
/// before the end.
pub proof fn theorem_empty_input(s: Seq<TokenView>)
    ensures
        (parse_stream(s) matches Outcome::Fail(ParseErrorView::EmptyInput, _)) <==> stream_first(
            s,
        ).token_t == TokenType::Eof,
{
    if stream_first(s).token_t == TokenType::Eof {
        assert(collapse(Seq::<NodeView>::empty(), 1) == Seq::<NodeView>::empty());
    } else {
        lemma_line_errors(s);
    }
    if stream_first(s).token_t != TokenType::Eof {
        if let Outcome::Done((d, m), s2) = parse_line_spec(s) {
            if let Ok(next) = push_line_spec(Seq::empty(), d, m) {
                lemma_line_measure(s);
                lemma_open_never_empty(s2, next);
            }
        }
    }
}


/// Each open line at depth `i` holds a tree that reaches at most depth
/// `u32::MAX`, and no more lines are open than depths can name.
pub open spec fn open_lines_bounded(stack: Seq<NodeView>) -> bool {
    &&& stack.len() <= u32::MAX + 1
    &&& forall|i: int| 0 <= i < stack.len() ==> i + height(#[trigger] stack[i]) <= u32::MAX
}

pub proof fn lemma_height_with_child(p: NodeView, c: NodeView)
    ensures
        height(with_child(p, c)) == if height(p) < height(c) + 1 {
            height(c) + 1
        } else {
            height(p)
        },
{
    let n = with_child(p, c);
    let cs = n.children;
    assert(cs.subrange(0, cs.len() - 1) =~= p.children);
    assert(cs[cs.len() - 1] == c);
    if p.children.len() == 0 {
        assert(max_height(p.children) == 0);
    }
}

proof fn lemma_collapse_bounded(x: Seq<NodeView>, d: nat)
    requires
        open_lines_bounded(x),
    ensures
        open_lines_bounded(collapse(x, d)),
    decreases x.len(),
{
    if x.len() > d {
        let y = collapse_one(x);
        let rest = x.drop_last();
        if rest.len() > 0 {
            let i = rest.len() - 1;
            lemma_height_with_child(rest.last(), x.last());
            assert(i + height(x[i]) <= u32::MAX);
            assert(i + 1 + height(x[i + 1]) <= u32::MAX);
            assert forall|j: int| 0 <= j < y.len() implies j + height(#[trigger] y[j]) <= u32::MAX by {
                if j < i {
                    assert(y[j] == x[j]);
                }
            }
        }
        lemma_collapse_bounded(y, d);
    }
}

/// A parsed tree is at most `u32::MAX` levels deep.
pub proof fn lemma_parsed_height(s: Seq<TokenView>, stack: Seq<NodeView>)
    requires
        open_lines_bounded(stack),
    ensures
        parse_from(s, stack) matches Outcome::Done(root, _) ==> height(root) <= u32::MAX,
    decreases stream_measure(s),
{
    if stream_first(s).token_t == TokenType::Eof {
        lemma_collapse_bounded(stack, 1);
    } else if let Outcome::Done((d, m), s2) = parse_line_spec(s) {
        if let Ok(next) = push_line_spec(stack, d, m) {
            lemma_line_measure(s);
            lemma_collapse_bounded(stack, d as nat);
            lemma_collapse_len(stack, d as nat);
            let c = collapse(stack, d as nat);
            assert(m.children.len() == 0);
            assert(height(m) == 0);
            assert forall|j: int| 0 <= j < next.len() implies j + height(#[trigger] next[j])
                <= u32::MAX by {
                if j < c.len() {
                    assert(next[j] == c[j]);
                }
            }
            lemma_parsed_height(s2, next);
        }
    }
}


/// A document is only ever accepted at the end of its input.
pub proof fn theorem_accepted_at_end(s: Seq<TokenView>, stack: Seq<NodeView>)
    ensures
        parse_from(s, stack) matches Outcome::Done(_, rest) ==> stream_first(rest).token_t
            == TokenType::Eof,
    decreases stream_measure(s),
{
    if stream_first(s).token_t != TokenType::Eof {
        if let Outcome::Done((d, m), s2) = parse_line_spec(s) {
            if let Ok(next) = push_line_spec(stack, d, m) {
                lemma_line_measure(s);
                theorem_accepted_at_end(s2, next);
            }
        }
    }
}

/// Every line ends with its newline: where the tokens of a line run into the
/// end of input before a newline, the line is refused, the `Eof` reported as
/// the token found.
pub proof fn theorem_line_needs_newline(
    s: Seq<TokenView>,
    attrs: Seq<AttributeView>,
    content: Option<Seq<char>>,
)
    requires
        stream_first(s).token_t == TokenType::Eof,
    ensures
        line_items(s, attrs, content) matches Outcome::Fail(
            ParseErrorView::UnexpectedToken { found, .. },
            _,
        ) && found.token_t == TokenType::Eof,
{
}

/// How an unquoted attribute value is read: an integer only where its text
/// reads as an `i64`, a float only where it is a float literal, a boolean
/// only for the exact lowercase words `true` and `false`, null only for
/// `null`; any other text is refused as an invalid value that carries the
/// text. One token is taken either way.
pub proof fn theorem_unquoted_value(s: Seq<TokenView>)
    requires
        stream_first(s).token_t == TokenType::Identifier,
    ensures
        ({
            let t = token_chars(stream_first(s));
            let v = parse_value_spec(s);
            &&& v matches Outcome::Done(ValueView::Integer(n), _) ==> spec_parse_i64(t) == Some(n)
            &&& v matches Outcome::Done(ValueView::Float(x), _) ==> x == t && is_float_literal(t)
                && spec_parse_i64(t) is None
            &&& v matches Outcome::Done(ValueView::Boolean(b), _) ==> t == (if b {
                seq!['t', 'r', 'u', 'e']
            } else {
                seq!['f', 'a', 'l', 's', 'e']
            })
            &&& v matches Outcome::Done(ValueView::Null, _) ==> t == seq!['n', 'u', 'l', 'l']
            &&& !(v matches Outcome::Done(ValueView::String(_), _))
            &&& (spec_parse_i64(t) is None && !is_float_literal(t) && t != seq!['t', 'r', 'u', 'e']
                && t != seq!['f', 'a', 'l', 's', 'e'] && t != seq!['n', 'u', 'l', 'l']) ==> (
            v matches Outcome::Fail(ParseErrorView::InvalidValue { raw }, _) && raw == t)
            &&& (v matches Outcome::Done(_, rest) ==> rest == stream_rest(s))
            &&& (v matches Outcome::Fail(_, rest) ==> rest == stream_rest(s))
        }),
{
    let t = token_chars(stream_first(s));
    assert(seq!['t', 'r', 'u', 'e'] =~= crate::ast::syntax_tree_types::bool_text(true));
    assert(seq!['f', 'a', 'l', 's', 'e'] =~= crate::ast::syntax_tree_types::bool_text(false));
    assert(seq!['n', 'u', 'l', 'l'] =~= crate::ast::syntax_tree_types::null_text());
}

/// A quoted text as an attribute value is a string of its characters, and
/// any token other than a text or an identifier is refused as unexpected,
/// that token reported; one token is taken either way.
pub proof fn theorem_value_token_kinds(s: Seq<TokenView>)
    ensures
        stream_first(s).token_t == TokenType::Text ==> parse_value_spec(s) == Outcome::Done(
            ValueView::String(token_chars(stream_first(s))),
            stream_rest(s),
        ),
        stream_first(s).token_t != TokenType::Text && stream_first(s).token_t
            != TokenType::Identifier ==> (parse_value_spec(s) matches Outcome::Fail(
            ParseErrorView::UnexpectedToken { found, .. },
            rest,
        ) && found == stream_first(s) && rest == stream_rest(s)),
{
}

} // verus!
