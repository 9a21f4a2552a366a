//! The tokens of canonical text.

use vstd::prelude::*;
use crate::ast::syntax_tree_types::{
    AttributeView, NodeView, ValueView, attribute_text, attrs_text, bool_text, content_text,
    escape, escape_char, line_text, lines_text, lemma_lines_text_append, null_text, quoted,
    value_text,
};
use crate::lexer::lexer_types::{LexerState, TokenType, TokenView, bare_token, eof_token, text_token};
use crate::roundtrip::{
    ascii_bytes, ascii_text, attribute_ok, is_word, line_ok, value_ok, word_char,
};
use crate::roundtrip::lexing::{
    digit_bytes, lemma_toks_assign, lemma_toks_depth, lemma_toks_end, lemma_toks_newline,
    lemma_toks_quoted, lemma_toks_space, lemma_toks_word, toks, word_bytes,
};
use crate::text::{all_digits, decimal, is_digit, latin1, lemma_decimal, signed_decimal};

verus! {

pub open spec fn word_token(w: Seq<char>) -> TokenView {
    TokenView { value: Some(w), token_t: TokenType::Identifier }
}

pub open spec fn value_token(v: ValueView) -> TokenView {
    match v {
        ValueView::String(s) => TokenView { value: Some(s), token_t: TokenType::Text },
        _ => word_token(value_text(v)),
    }
}

/// The tokens of attributes: key, `=`, value, for each in turn.
pub open spec fn attrs_tokens(attrs: Seq<AttributeView>) -> Seq<TokenView>
    decreases attrs.len(),
{
    if attrs.len() == 0 {
        Seq::empty()
    } else {
        seq![word_token(attrs[0].key), bare_token(TokenType::Assign), value_token(attrs[0].value)]
            + attrs_tokens(attrs.skip(1))
    }
}

pub open spec fn content_tokens(content: Option<Seq<char>>) -> Seq<TokenView> {
    match content {
        Some(s) => seq![TokenView { value: Some(s), token_t: TokenType::Text }],
        None => Seq::empty(),
    }
}

/// The tokens of the line of `n` at `depth`.
pub open spec fn line_tokens(depth: nat, n: NodeView) -> Seq<TokenView> {
    seq![TokenView { value: Some(decimal(depth)), token_t: TokenType::Depth }, word_token(n.name)]
        + attrs_tokens(n.attrs) + content_tokens(n.content) + seq![bare_token(TokenType::NewLine)]
}

/// The tokens of lines, one line after the other.
pub open spec fn lines_tokens(lines: Seq<(nat, NodeView)>) -> Seq<TokenView>
    decreases lines.len(),
{
    if lines.len() == 0 {
        Seq::empty()
    } else {
        line_tokens(lines[0].0, lines[0].1) + lines_tokens(lines.skip(1))
    }
}

pub proof fn lemma_ascii_bytes_add(a: Seq<char>, b: Seq<char>)
    ensures
        ascii_bytes(a + b) == ascii_bytes(a) + ascii_bytes(b),
{
    assert(ascii_bytes(a + b) =~= ascii_bytes(a) + ascii_bytes(b));
}

pub proof fn lemma_ascii_char(c: char)
    requires
        (c as int) < 128,
    ensures
        ((c as u8) as char) == c,
{
}

pub proof fn lemma_latin1_ascii(t: Seq<char>)
    requires
        forall|i: int| 0 <= i < t.len() ==> (#[trigger] t[i] as int) < 128,
    ensures
        latin1(ascii_bytes(t)) == t,
{
    assert forall|i: int| 0 <= i < t.len() implies #[trigger] latin1(ascii_bytes(t))[i] == t[i] by {
        let c = t[i];
        assert((c as int) < 128);
        assert(ascii_bytes(t)[i] == c as u8);
        assert(latin1(ascii_bytes(t))[i] == (ascii_bytes(t)[i]) as char);
        lemma_ascii_char(c);
    }
    assert(latin1(ascii_bytes(t)) =~= t);
}

proof fn lemma_word(w: Seq<char>)
    requires
        is_word(w),
    ensures
        word_bytes(ascii_bytes(w)),
        ascii_bytes(w).len() > 0,
        latin1(ascii_bytes(w)) == w,
{
    lemma_latin1_ascii(w);
    assert forall|i: int| 0 <= i < ascii_bytes(w).len() implies crate::roundtrip::lexing::word_byte(
        #[trigger] ascii_bytes(w)[i],
    ) by {
        assert(word_char(w[i]));
    }
}

proof fn lemma_plain_text(s: Seq<char>)
    requires
        ascii_text(s),
    ensures
        latin1(ascii_bytes(s)) == s,
        ascii_text(escape(s)),
    decreases s.len(),
{
    lemma_latin1_ascii(s);
    if s.len() > 0 {
        let p = s.drop_last();
        assert forall|i: int| 0 <= i < p.len() implies (#[trigger] p[i] as int) < 128 by {
            assert(p[i] == s[i]);
        }
        lemma_plain_text(p);
        assert((s.last() as int) < 128);
        assert(ascii_text(escape_char(s.last())));
        lemma_ascii_add(escape(p), escape_char(s.last()));
    }
}

proof fn lemma_digits_word(t: Seq<char>)
    requires
        all_digits(t),
    ensures
        digit_bytes(ascii_bytes(t)),
        latin1(ascii_bytes(t)) == t,
        forall|i: int| 0 <= i < t.len() ==> word_char(#[trigger] t[i]),
{
    assert forall|i: int| 0 <= i < t.len() implies word_char(#[trigger] t[i]) by {
        assert(is_digit(t[i]));
    }
    lemma_latin1_ascii(t);
    assert forall|i: int| 0 <= i < ascii_bytes(t).len() implies 48 <= #[trigger] ascii_bytes(t)[i]
        <= 57 by {
        assert(is_digit(t[i]));
    }
}

/// The text of a value other than a string is a word.
proof fn lemma_value_word(v: ValueView)
    requires
        value_ok(v),
        !(v is String),
    ensures
        is_word(value_text(v)),
{
    match v {
        ValueView::Integer(n) => {
            let t = signed_decimal(n as int);
            if n < 0 {
                let m = (-(n as int)) as nat;
                lemma_decimal(m);
                lemma_digits_word(decimal(m));
                assert forall|i: int| 0 <= i < t.len() implies word_char(#[trigger] t[i]) by {
                    if i > 0 {
                        assert(t[i] == decimal(m)[i - 1]);
                    }
                }
            } else {
                lemma_decimal(n as nat);
                lemma_digits_word(decimal(n as nat));
            }
        },
        ValueView::Boolean(b) => {
            let t = bool_text(b);
            assert(forall|i: int| 0 <= i < t.len() ==> word_char(#[trigger] t[i]));
        },
        ValueView::Null => {
            let t = null_text();
            assert(forall|i: int| 0 <= i < t.len() ==> word_char(#[trigger] t[i]));
        },
        ValueView::Float(t) => {
            crate::roundtrip::lemma_float_word(t);
        },
        _ => {},
    }
}

pub proof fn lemma_attrs_text_front(attrs: Seq<AttributeView>)
    requires
        attrs.len() > 0,
    ensures
        attrs_text(attrs) == seq![' '] + attribute_text(attrs[0]) + attrs_text(attrs.skip(1)),
    decreases attrs.len(),
{
    if attrs.len() == 1 {
        assert(attrs.drop_last() =~= Seq::<AttributeView>::empty());
        assert(attrs.skip(1) =~= Seq::<AttributeView>::empty());
        assert(attrs_text(attrs) =~= seq![' '] + attribute_text(attrs[0]) + attrs_text(
            attrs.skip(1),
        ));
    } else {
        lemma_attrs_text_front(attrs.drop_last());
        assert(attrs.drop_last().skip(1) =~= attrs.skip(1).drop_last());
        assert(attrs.skip(1).last() == attrs.last());
        assert(attrs_text(attrs) =~= seq![' '] + attribute_text(attrs[0]) + attrs_text(
            attrs.skip(1),
        ));
    }
}

/// What follows a name or an unquoted value on a line starts with a space or
/// the newline.
proof fn lemma_items_first(attrs: Seq<AttributeView>, content: Option<Seq<char>>)
    ensures
        ({
            let t = attrs_text(attrs) + content_text(content) + seq!['\n'];
            t.len() > 0 && (t[0] == ' ' || t[0] == '\n')
        }),
{
    if attrs.len() > 0 {
        lemma_attrs_text_front(attrs);
    }
}

/// Lexing a word followed by the rest of its line.
proof fn lemma_toks_word_then(w: Seq<char>, after: Seq<char>, r: Seq<u8>)
    requires
        is_word(w),
        after.len() > 0,
        after[0] == ' ' || after[0] == '\n' || after[0] == '=',
    ensures
        toks(ascii_bytes(w + after) + r, LexerState::Normal) == seq![word_token(w)] + toks(
            ascii_bytes(after) + r,
            LexerState::Normal,
        ),
{
    lemma_word(w);
    lemma_ascii_bytes_add(w, after);
    let d = ascii_bytes(after)[0];
    let tail = ascii_bytes(after).skip(1) + r;
    assert(ascii_bytes(after) + r =~= seq![d] + tail);
    assert(ascii_bytes(w + after) + r =~= ascii_bytes(w) + seq![d] + tail);
    lemma_toks_word(ascii_bytes(w), d, tail);
}

#[verifier::rlimit(40)]
proof fn lemma_toks_items(attrs: Seq<AttributeView>, content: Option<Seq<char>>, r: Seq<u8>)
    requires
        forall|i: int| 0 <= i < attrs.len() ==> attribute_ok(#[trigger] attrs[i]),
        match content {
            Some(s) => ascii_text(s),
            None => true,
        },
    ensures
        toks(
            ascii_bytes(attrs_text(attrs) + content_text(content) + seq!['\n']) + r,
            LexerState::Normal,
        ) == attrs_tokens(attrs) + content_tokens(content) + seq![bare_token(TokenType::NewLine)]
            + toks(r, LexerState::StartOfLine),
    decreases attrs.len(),
{
    let nl = seq!['\n'];
    if attrs.len() == 0 {
        assert(attrs_text(attrs) =~= Seq::<char>::empty());
        assert(attrs_tokens(attrs) =~= Seq::<TokenView>::empty());
        match content {
            Some(s) => {
                lemma_plain_text(s);
                let text = attrs_text(attrs) + content_text(content) + nl;
                assert(ascii_bytes(text) + r =~= seq![32u8] + (seq![34u8] + ascii_bytes(
                    escape(s),
                ) + seq![34u8] + (seq![10u8] + r)));
                lemma_toks_space(
                    seq![34u8] + ascii_bytes(escape(s)) + seq![34u8] + (seq![10u8] + r),
                );
                lemma_toks_quoted(s, seq![10u8] + r);
                lemma_toks_newline(r);
                assert(attrs_tokens(attrs) + content_tokens(content) + seq![
                    bare_token(TokenType::NewLine),
                ] + toks(r, LexerState::StartOfLine) =~= seq![text_token(
                    TokenType::Text,
                    ascii_bytes(s),
                )] + (seq![bare_token(TokenType::NewLine)] + toks(r, LexerState::StartOfLine)));
            },
            None => {
                let text = attrs_text(attrs) + content_text(content) + nl;
                assert(ascii_bytes(text) + r =~= seq![10u8] + r);
                lemma_toks_newline(r);
                assert(attrs_tokens(attrs) + content_tokens(content) + seq![
                    bare_token(TokenType::NewLine),
                ] =~= seq![bare_token(TokenType::NewLine)]);
            },
        }
    } else {
        let a = attrs[0];
        let rest_attrs = attrs.skip(1);
        assert(attribute_ok(a));
        assert forall|i: int| 0 <= i < rest_attrs.len() implies attribute_ok(
            #[trigger] rest_attrs[i],
        ) by {
            assert(rest_attrs[i] == attrs[i + 1]);
        }
        lemma_attrs_text_front(attrs);
        let rest_text = attrs_text(rest_attrs) + content_text(content) + nl;
        let vt = value_text(a.value);
        let text = attrs_text(attrs) + content_text(content) + nl;
        assert(text =~= seq![' '] + (a.key + (seq!['='] + (vt + rest_text))));
        lemma_ascii_bytes_add(seq![' '], a.key + (seq!['='] + (vt + rest_text)));
        assert(ascii_bytes(seq![' ']) =~= seq![32u8]);
        assert(ascii_bytes(text) + r =~= seq![32u8] + (ascii_bytes(
            a.key + (seq!['='] + (vt + rest_text)),
        ) + r));
        lemma_toks_space(ascii_bytes(a.key + (seq!['='] + (vt + rest_text))) + r);
        lemma_toks_word_then(a.key, seq!['='] + (vt + rest_text), r);
        lemma_ascii_bytes_add(seq!['='], vt + rest_text);
        assert(ascii_bytes(seq!['=']) =~= seq![61u8]);
        assert(ascii_bytes(seq!['='] + (vt + rest_text)) + r =~= seq![61u8] + (ascii_bytes(
            vt + rest_text,
        ) + r));
        lemma_toks_assign(ascii_bytes(vt + rest_text) + r);
        lemma_items_first(rest_attrs, content);
        lemma_toks_items(rest_attrs, content, r);
        match a.value {
            ValueView::String(s) => {
                lemma_plain_text(s);
                lemma_ascii_bytes_add(vt, rest_text);
                lemma_ascii_bytes_add(seq!['"'] + escape(s), seq!['"']);
                lemma_ascii_bytes_add(seq!['"'], escape(s));
                assert(ascii_bytes(seq!['"']) =~= seq![34u8]);
                assert(ascii_bytes(vt + rest_text) + r =~= seq![34u8] + ascii_bytes(escape(s))
                    + seq![34u8] + (ascii_bytes(rest_text) + r));
                lemma_toks_quoted(s, ascii_bytes(rest_text) + r);
            },
            _ => {
                lemma_value_word(a.value);
                lemma_toks_word_then(vt, rest_text, r);
            },
        }
        assert(attrs_tokens(attrs) =~= seq![
            word_token(a.key),
            bare_token(TokenType::Assign),
            value_token(a.value),
        ] + attrs_tokens(rest_attrs));
        assert(toks(ascii_bytes(text) + r, LexerState::Normal) =~= attrs_tokens(attrs)
            + content_tokens(content) + seq![bare_token(TokenType::NewLine)] + toks(
            r,
            LexerState::StartOfLine,
        ));
    }
}

/// Lexing one canonical line followed by more input.
pub proof fn lemma_toks_line(depth: nat, n: NodeView, r: Seq<u8>)
    requires
        line_ok(n),
    ensures
        toks(ascii_bytes(line_text(depth, n)) + r, LexerState::StartOfLine) == line_tokens(depth, n)
            + toks(r, LexerState::StartOfLine),
{
    let ds = decimal(depth);
    lemma_decimal(depth);
    lemma_digits_word(ds);
    let items = attrs_text(n.attrs) + content_text(n.content) + seq!['\n'];
    let text = line_text(depth, n);
    assert(text =~= ds + (seq![' '] + (n.name + items)));
    lemma_ascii_bytes_add(ds, seq![' '] + (n.name + items));
    lemma_ascii_bytes_add(seq![' '], n.name + items);
    assert(ascii_bytes(seq![' ']) =~= seq![32u8]);
    assert(ascii_bytes(text) + r =~= ascii_bytes(ds) + seq![32u8] + (ascii_bytes(n.name + items)
        + r));
    lemma_toks_depth(ascii_bytes(ds), ascii_bytes(n.name + items) + r);
    lemma_items_first(n.attrs, n.content);
    lemma_toks_word_then(n.name, items, r);
    lemma_toks_items(n.attrs, n.content, r);
    assert(toks(ascii_bytes(text) + r, LexerState::StartOfLine) =~= line_tokens(depth, n) + toks(
        r,
        LexerState::StartOfLine,
    ));
}

pub proof fn lemma_lines_text_front(lines: Seq<(nat, NodeView)>)
    requires
        lines.len() > 0,
    ensures
        lines_text(lines) == line_text(lines[0].0, lines[0].1) + lines_text(lines.skip(1)),
{
    let first = seq![lines[0]];
    assert(lines =~= first + lines.skip(1));
    lemma_lines_text_append(first, lines.skip(1));
    assert(first.drop_last() =~= Seq::<(nat, NodeView)>::empty());
    assert(first.last() == lines[0]);
    assert(lines_text(first.drop_last()) =~= Seq::<char>::empty());
    assert(lines_text(first) =~= line_text(lines[0].0, lines[0].1));
}

/// Lexing canonical lines gives their tokens, then `Eof`.
pub proof fn lemma_toks_lines(lines: Seq<(nat, NodeView)>)
    requires
        forall|i: int| 0 <= i < lines.len() ==> line_ok(#[trigger] lines[i].1),
    ensures
        toks(ascii_bytes(lines_text(lines)), LexerState::StartOfLine) == lines_tokens(lines)
            + seq![eof_token()],
    decreases lines.len(),
{
    if lines.len() == 0 {
        assert(ascii_bytes(lines_text(lines)) =~= Seq::<u8>::empty());
        lemma_toks_end(LexerState::StartOfLine);
        assert(lines_tokens(lines) + seq![eof_token()] =~= seq![eof_token()]);
    } else {
        let rest = lines.skip(1);
        assert forall|i: int| 0 <= i < rest.len() implies line_ok(#[trigger] rest[i].1) by {
            assert(rest[i] == lines[i + 1]);
        }
        assert(line_ok(lines[0].1));
        lemma_lines_text_front(lines);
        lemma_ascii_bytes_add(line_text(lines[0].0, lines[0].1), lines_text(rest));
        lemma_toks_line(lines[0].0, lines[0].1, ascii_bytes(lines_text(rest)));
        lemma_toks_lines(rest);
        assert(lines_tokens(lines) + seq![eof_token()] =~= line_tokens(lines[0].0, lines[0].1) + (
        lines_tokens(rest) + seq![eof_token()]));
    }
}

pub proof fn lemma_ascii_add(a: Seq<char>, b: Seq<char>)
    requires
        ascii_text(a),
        ascii_text(b),
    ensures
        ascii_text(a + b),
{
    assert forall|i: int| 0 <= i < (a + b).len() implies (#[trigger] (a + b)[i] as int) < 128 by {
        if i < a.len() {
            assert((a + b)[i] == a[i]);
        } else {
            assert((a + b)[i] == b[i - a.len()]);
        }
    }
}

proof fn lemma_word_ascii(w: Seq<char>)
    requires
        is_word(w),
    ensures
        ascii_text(w),
{
    assert forall|i: int| 0 <= i < w.len() implies (#[trigger] w[i] as int) < 128 by {
        assert(word_char(w[i]));
    }
}

proof fn lemma_quoted_ascii(s: Seq<char>)
    requires
        ascii_text(s),
    ensures
        ascii_text(quoted(s)),
{
    lemma_plain_text(s);
    lemma_ascii_add(seq!['"'], escape(s));
    lemma_ascii_add(seq!['"'] + escape(s), seq!['"']);
}

proof fn lemma_attrs_ascii(attrs: Seq<AttributeView>)
    requires
        forall|i: int| 0 <= i < attrs.len() ==> attribute_ok(#[trigger] attrs[i]),
    ensures
        ascii_text(attrs_text(attrs)),
    decreases attrs.len(),
{
    if attrs.len() > 0 {
        let prev = attrs.drop_last();
        let a = attrs.last();
        assert forall|i: int| 0 <= i < prev.len() implies attribute_ok(#[trigger] prev[i]) by {
            assert(prev[i] == attrs[i]);
        }
        lemma_attrs_ascii(prev);
        assert(attribute_ok(a));
        lemma_word_ascii(a.key);
        match a.value {
            ValueView::String(s) => lemma_quoted_ascii(s),
            _ => {
                lemma_value_word(a.value);
                lemma_word_ascii(value_text(a.value));
            },
        }
        lemma_ascii_add(a.key, seq!['=']);
        lemma_ascii_add(a.key + seq!['='], value_text(a.value));
        lemma_ascii_add(attrs_text(prev), seq![' ']);
        lemma_ascii_add(attrs_text(prev) + seq![' '], attribute_text(a));
    }
}

pub proof fn lemma_line_ascii(depth: nat, n: NodeView)
    requires
        line_ok(n),
    ensures
        ascii_text(line_text(depth, n)),
{
    lemma_decimal(depth);
    lemma_digits_word(decimal(depth));
    lemma_word_ascii(n.name);
    lemma_attrs_ascii(n.attrs);
    match n.content {
        Some(s) => {
            lemma_quoted_ascii(s);
            lemma_ascii_add(seq![' '], quoted(s));
        },
        None => {},
    }
    assert(ascii_text(decimal(depth)));
    lemma_ascii_add(decimal(depth), seq![' ']);
    lemma_ascii_add(decimal(depth) + seq![' '], n.name);
    lemma_ascii_add(decimal(depth) + seq![' '] + n.name, attrs_text(n.attrs));
    lemma_ascii_add(
        decimal(depth) + seq![' '] + n.name + attrs_text(n.attrs),
        content_text(n.content),
    );
    lemma_ascii_add(
        decimal(depth) + seq![' '] + n.name + attrs_text(n.attrs) + content_text(n.content),
        seq!['\n'],
    );
}

pub proof fn lemma_lines_ascii(lines: Seq<(nat, NodeView)>)
    requires
        forall|i: int| 0 <= i < lines.len() ==> line_ok(#[trigger] lines[i].1),
    ensures
        ascii_text(lines_text(lines)),
    decreases lines.len(),
{
    if lines.len() > 0 {
        let prev = lines.drop_last();
        assert forall|i: int| 0 <= i < prev.len() implies line_ok(#[trigger] prev[i].1) by {
            assert(prev[i] == lines[i]);
        }
        lemma_lines_ascii(prev);
        assert(line_ok(lines.last().1));
        lemma_line_ascii(lines.last().0, lines.last().1);
        lemma_ascii_add(lines_text(prev), line_text(lines.last().0, lines.last().1));
    }
}

} // verus!
