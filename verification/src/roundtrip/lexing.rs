//! How the lexer cuts the pieces of canonical text into tokens.

use vstd::prelude::*;
use crate::ast::syntax_tree_types::{escape, escape_char};
use crate::lexer::lexer_types::{
    LexerState, LexStep, TokenType, TokenView, bare_token, eof_token, lex_step, lemma_scan_progress,
    scan_from, text_token, tokens_from, unescape,
};
use crate::roundtrip::{ascii_bytes, ascii_text};

verus! {

/// The tokens of `s` from its start in `state`.
pub open spec fn toks(s: Seq<u8>, state: LexerState) -> Seq<TokenView> {
    tokens_from(s, 0, state)
}

/// Bytes that end no word: not a newline, space, `=` or `"`.
pub open spec fn word_byte(b: u8) -> bool {
    b != 10 && b != 32 && b != 61 && b != 34
}

pub open spec fn word_bytes(w: Seq<u8>) -> bool {
    forall|i: int| 0 <= i < w.len() ==> word_byte(#[trigger] w[i])
}

pub open spec fn digit_bytes(w: Seq<u8>) -> bool {
    forall|i: int| 0 <= i < w.len() ==> 48 <= #[trigger] w[i] <= 57
}

pub open spec fn shift(r: (TokenView, int, LexerState), by: int) -> (TokenView, int, LexerState) {
    (r.0, r.1 + by, r.2)
}

pub proof fn lemma_scan_shift(input: Seq<u8>, pos: int, state: LexerState, acc: Seq<u8>)
    requires
        0 <= pos <= input.len(),
    ensures
        scan_from(input, pos, state, acc) == shift(
            scan_from(input.skip(pos), 0, state, acc),
            pos,
        ),
    decreases input.len() - pos,
{
    let tail = input.skip(pos);
    if pos < input.len() {
        assert(tail[0] == input[pos]);
    }
    match lex_step(input, pos, state, acc) {
        LexStep::Continue(s, a) => {
            lemma_scan_shift(input, pos + 1, s, a);
            lemma_scan_shift(tail, 1, s, a);
            assert(tail.skip(1) =~= input.skip(pos + 1));
        },
        _ => {},
    }
}

pub proof fn lemma_tokens_shift(input: Seq<u8>, pos: int, state: LexerState)
    requires
        0 <= pos <= input.len(),
    ensures
        tokens_from(input, pos, state) == toks(input.skip(pos), state),
    decreases input.len() - pos,
{
    let tail = input.skip(pos);
    lemma_scan_shift(input, pos, state, Seq::empty());
    lemma_scan_progress(input, pos, state, Seq::empty());
    lemma_scan_progress(tail, 0, state, Seq::empty());
    let (t, p, s) = scan_from(tail, 0, state, Seq::empty());
    if t.token_t != TokenType::Eof {
        lemma_tokens_shift(input, p + pos, s);
        lemma_tokens_shift(tail, p, s);
        assert(tail.skip(p) =~= input.skip(p + pos));
    }
}

/// The token stream from a scan that gives `(t, p, s)`, in terms of the
/// rest of the input.
pub proof fn lemma_toks_after(input: Seq<u8>, state: LexerState)
    ensures
        ({
            let (t, p, s) = scan_from(input, 0, state, Seq::empty());
            &&& 0 <= p <= input.len()
            &&& toks(input, state) == if t.token_t == TokenType::Eof {
                seq![t]
            } else {
                seq![t] + toks(input.skip(p), s)
            }
        }),
{
    lemma_scan_progress(input, 0, state, Seq::empty());
    let (t, p, s) = scan_from(input, 0, state, Seq::empty());
    if t.token_t != TokenType::Eof {
        lemma_tokens_shift(input, p, s);
    }
}

pub proof fn lemma_toks_end(state: LexerState)
    ensures
        toks(Seq::empty(), state) == seq![eof_token()],
{
}

pub proof fn lemma_toks_space(r: Seq<u8>)
    ensures
        toks(seq![32u8] + r, LexerState::Normal) == toks(r, LexerState::Normal),
{
    let x = seq![32u8] + r;
    assert(x.skip(1) =~= r);
    lemma_scan_shift(x, 1, LexerState::Normal, Seq::empty());
    lemma_toks_after(x, LexerState::Normal);
    lemma_toks_after(r, LexerState::Normal);
    let (t, p, s) = scan_from(r, 0, LexerState::Normal, Seq::empty());
    if t.token_t != TokenType::Eof {
        assert(x.skip(p + 1) =~= r.skip(p));
    }
}

pub proof fn lemma_toks_newline(r: Seq<u8>)
    ensures
        toks(seq![10u8] + r, LexerState::Normal) == seq![bare_token(TokenType::NewLine)] + toks(
            r,
            LexerState::StartOfLine,
        ),
{
    let x = seq![10u8] + r;
    assert(x.skip(1) =~= r);
    lemma_toks_after(x, LexerState::Normal);
}

pub proof fn lemma_toks_assign(r: Seq<u8>)
    ensures
        toks(seq![61u8] + r, LexerState::Normal) == seq![bare_token(TokenType::Assign)] + toks(
            r,
            LexerState::Normal,
        ),
{
    let x = seq![61u8] + r;
    assert(x.skip(1) =~= r);
    lemma_toks_after(x, LexerState::Normal);
}

proof fn lemma_scan_word(w: Seq<u8>, d: u8, r: Seq<u8>, acc: Seq<u8>)
    requires
        word_bytes(w),
        acc.len() + w.len() > 0,
        d == 10 || d == 32 || d == 61,
    ensures
        scan_from(w + seq![d] + r, 0, LexerState::Normal, acc) == (
            text_token(TokenType::Identifier, acc + w),
            w.len() + if d == 32 {
                1int
            } else {
                0int
            },
            LexerState::Normal,
        ),
    decreases w.len(),
{
    let x = w + seq![d] + r;
    if w.len() == 0 {
        assert(x[0] == d);
        assert(acc + w =~= acc);
    } else {
        assert(x[0] == w[0]);
        assert(word_byte(w[0]));
        lemma_scan_shift(x, 1, LexerState::Normal, acc.push(w[0]));
        assert(x.skip(1) =~= w.skip(1) + seq![d] + r);
        lemma_scan_word(w.skip(1), d, r, acc.push(w[0]));
        assert(acc.push(w[0]) + w.skip(1) =~= acc + w);
    }
}

pub proof fn lemma_toks_word(w: Seq<u8>, d: u8, r: Seq<u8>)
    requires
        word_bytes(w),
        w.len() > 0,
        d == 10 || d == 32 || d == 61,
    ensures
        toks(w + seq![d] + r, LexerState::Normal) == seq![
            text_token(TokenType::Identifier, w),
        ] + toks(seq![d] + r, LexerState::Normal),
{
    let x = w + seq![d] + r;
    lemma_scan_word(w, d, r, Seq::empty());
    assert(Seq::<u8>::empty() + w =~= w);
    lemma_toks_after(x, LexerState::Normal);
    if d == 32 {
        assert(x.skip(w.len() + 1int) =~= r);
        lemma_toks_space(r);
    } else {
        assert(x.skip(w.len() as int) =~= seq![d] + r);
    }
}

/// Escaping from the front: the first character's escape, then the rest.
pub proof fn lemma_escape_front(s: Seq<char>)
    requires
        s.len() > 0,
    ensures
        escape(s) == escape_char(s[0]) + escape(s.skip(1)),
    decreases s.len(),
{
    if s.len() == 1 {
        assert(s.drop_last() =~= Seq::<char>::empty());
        assert(s.skip(1) =~= Seq::<char>::empty());
        assert(escape(s) =~= escape_char(s[0]) + escape(s.skip(1)));
    } else {
        let p = s.drop_last();
        let t = s.skip(1);
        lemma_escape_front(p);
        assert(p.skip(1) =~= t.drop_last());
        assert(t.last() == s.last());
        assert(escape(s) =~= escape_char(s[0]) + escape(t));
    }
}

/// The byte of an ASCII character is its code point.
proof fn lemma_ascii_byte(c: char)
    requires
        (c as int) < 128,
    ensures
        (c as u8) as int == c as int,
        c == '"' <==> (c as u8) == 34,
        c == '\\' <==> (c as u8) == 92,
{
}

/// Within a quoted text, the escaped bytes of ASCII characters up to the
/// closing quote read back as those characters.
proof fn lemma_scan_in_string(s: Seq<char>, r: Seq<u8>, acc: Seq<u8>)
    requires
        ascii_text(s),
    ensures
        scan_from(ascii_bytes(escape(s)) + seq![34u8] + r, 0, LexerState::InString, acc) == (
            text_token(TokenType::Text, acc + ascii_bytes(s)),
            escape(s).len() + 1int,
            LexerState::Normal,
        ),
    decreases s.len(),
{
    let x = ascii_bytes(escape(s)) + seq![34u8] + r;
    if s.len() == 0 {
        assert(escape(s) =~= Seq::<char>::empty());
        assert(x[0] == 34);
        assert(acc + ascii_bytes(s) =~= acc);
    } else {
        let c = s[0];
        let t = s.skip(1);
        lemma_escape_front(s);
        let e = escape_char(c);
        assert((c as int) < 128);
        let b = c as u8;
        assert forall|i: int| 0 <= i < t.len() implies (#[trigger] t[i] as int) < 128 by {
            assert(t[i] == s[i + 1]);
        }
        let acc2 = acc.push(b);
        lemma_scan_in_string(t, r, acc2);
        assert(ascii_bytes(escape(s)) =~= ascii_bytes(e) + ascii_bytes(escape(t)));
        let n = e.len() as int;
        assert(x.skip(n) =~= ascii_bytes(escape(t)) + seq![34u8] + r);
        lemma_scan_shift(x, n, LexerState::InString, acc2);
        if c == '"' || c == '\\' || c == '\n' || c == '\t' {
            assert(n == 2);
            assert(x[0] == 92);
            assert(x[1] == e[1] as u8);
            assert(lex_step(x, 0, LexerState::InString, acc) == LexStep::Continue(
                LexerState::Escape,
                acc,
            ));
            if c == '"' {
                assert(x[1] == 34);
            } else if c == '\\' {
                assert(x[1] == 92);
            } else if c == '\n' {
                assert(x[1] == 110);
            } else {
                assert(x[1] == 116);
            }
            assert(acc + unescape(x[1]) =~= acc2);
            assert(scan_from(x, 1, LexerState::Escape, acc) == scan_from(
                x,
                2,
                LexerState::InString,
                acc2,
            ));
        } else {
            assert(n == 1);
            assert(x[0] == b);
            lemma_ascii_byte(c);
            assert(b != 34 && b != 92);
        }
        assert(acc2 + ascii_bytes(t) =~= acc + ascii_bytes(s));
    }
}

/// A quoted text of ASCII characters, escaped as the serializer writes it,
/// is one text token that carries those characters.
pub proof fn lemma_toks_quoted(s: Seq<char>, r: Seq<u8>)
    requires
        ascii_text(s),
    ensures
        toks(seq![34u8] + ascii_bytes(escape(s)) + seq![34u8] + r, LexerState::Normal) == seq![
            text_token(TokenType::Text, ascii_bytes(s)),
        ] + toks(r, LexerState::Normal),
{
    let x = seq![34u8] + ascii_bytes(escape(s)) + seq![34u8] + r;
    assert(x.skip(1) =~= ascii_bytes(escape(s)) + seq![34u8] + r);
    lemma_scan_shift(x, 1, LexerState::InString, Seq::empty());
    lemma_scan_in_string(s, r, Seq::empty());
    assert(Seq::<u8>::empty() + ascii_bytes(s) =~= ascii_bytes(s));
    lemma_toks_after(x, LexerState::Normal);
    assert(x.skip(escape(s).len() + 2int) =~= r);
}

proof fn lemma_scan_depth(ds: Seq<u8>, r: Seq<u8>, acc: Seq<u8>)
    requires
        digit_bytes(ds),
    ensures
        scan_from(ds + seq![32u8] + r, 0, LexerState::StartOfLine, acc) == (
            text_token(TokenType::Depth, acc + ds),
            ds.len() + 1int,
            LexerState::Normal,
        ),
    decreases ds.len(),
{
    let x = ds + seq![32u8] + r;
    if ds.len() == 0 {
        assert(x[0] == 32);
        assert(acc + ds =~= acc);
    } else {
        assert(x[0] == ds[0]);
        lemma_scan_shift(x, 1, LexerState::StartOfLine, acc.push(ds[0]));
        assert(x.skip(1) =~= ds.skip(1) + seq![32u8] + r);
        lemma_scan_depth(ds.skip(1), r, acc.push(ds[0]));
        assert(acc.push(ds[0]) + ds.skip(1) =~= acc + ds);
    }
}

pub proof fn lemma_toks_depth(ds: Seq<u8>, r: Seq<u8>)
    requires
        digit_bytes(ds),
    ensures
        toks(ds + seq![32u8] + r, LexerState::StartOfLine) == seq![
            text_token(TokenType::Depth, ds),
        ] + toks(r, LexerState::Normal),
{
    let x = ds + seq![32u8] + r;
    lemma_scan_depth(ds, r, Seq::empty());
    assert(Seq::<u8>::empty() + ds =~= ds);
    lemma_toks_after(x, LexerState::StartOfLine);
    assert(x.skip(ds.len() + 1int) =~= r);
}

} // verus!
