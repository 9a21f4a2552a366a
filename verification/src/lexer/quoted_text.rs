//! What the lexer makes of a quoted text: each byte as the character with
//! its code point, whatever the byte, and only `\"`, `\\`, `\n` and `\t` as
//! escapes.

use vstd::prelude::*;
use crate::lexer::lexer_types::{LexerState, TokenType, TokenView, scan_from, text_token, tokens_from, unescape};
use crate::roundtrip::lexing::{lemma_scan_shift, lemma_toks_after, shift, toks};
use crate::text::latin1;

verus! {

/// Bytes that neither close a quoted text nor start an escape.
pub open spec fn plain_bytes(w: Seq<u8>) -> bool {
    forall|i: int| 0 <= i < w.len() ==> #[trigger] w[i] != 34 && w[i] != 92
}

/// A text token that carries `v`.
pub open spec fn text_of(v: Seq<char>) -> TokenView {
    TokenView { value: Some(v), token_t: TokenType::Text }
}

/// What a backslash and the byte `b` stand for in a quoted text, as the
/// format lists them: `n` a newline, `t` a tab, `"` a quote, `\` a
/// backslash; before any other byte the backslash is kept, and the byte.
pub open spec fn escape_meaning(b: u8) -> Seq<char> {
    if b == 110 {
        seq!['\n']
    } else if b == 116 {
        seq!['\t']
    } else if b == 34 {
        seq!['"']
    } else if b == 92 {
        seq!['\\']
    } else {
        seq!['\\', b as char]
    }
}

proof fn lemma_scan_plain(w: Seq<u8>, tail: Seq<u8>, acc: Seq<u8>)
    requires
        plain_bytes(w),
    ensures
        scan_from(w + tail, 0, LexerState::InString, acc) == shift(
            scan_from(tail, 0, LexerState::InString, acc + w),
            w.len() as int,
        ),
    decreases w.len(),
{
    let x = w + tail;
    if w.len() == 0 {
        assert(x =~= tail);
        assert(acc + w =~= acc);
        let r = scan_from(tail, 0, LexerState::InString, acc);
        assert(shift(r, 0) == r);
    } else {
        assert(x[0] == w[0]);
        lemma_scan_shift(x, 1, LexerState::InString, acc.push(w[0]));
        assert(x.skip(1) =~= w.skip(1) + tail);
        lemma_scan_plain(w.skip(1), tail, acc.push(w[0]));
        assert(acc.push(w[0]) + w.skip(1) =~= acc + w);
    }
}

proof fn lemma_scan_escape(b: u8, tail: Seq<u8>, acc: Seq<u8>)
    ensures
        scan_from(seq![92u8, b] + tail, 0, LexerState::InString, acc) == shift(
            scan_from(tail, 0, LexerState::InString, acc + unescape(b)),
            2,
        ),
{
    let x = seq![92u8, b] + tail;
    assert(x[0] == 92 && x[1] == b);
    assert(scan_from(x, 1, LexerState::Escape, acc) == scan_from(
        x,
        2,
        LexerState::InString,
        acc + unescape(b),
    ));
    lemma_scan_shift(x, 2, LexerState::InString, acc + unescape(b));
    assert(x.skip(2) =~= tail);
}

proof fn lemma_scan_close(r: Seq<u8>, acc: Seq<u8>)
    ensures
        scan_from(seq![34u8] + r, 0, LexerState::InString, acc) == (
            text_token(TokenType::Text, acc),
            1int,
            LexerState::Normal,
        ),
{
    assert((seq![34u8] + r)[0] == 34);
}

proof fn lemma_escape_chars(b: u8)
    ensures
        latin1(unescape(b)) == escape_meaning(b),
{
    assert((10u8 as char) == '\n');
    assert((9u8 as char) == '\t');
    assert((34u8 as char) == '"');
    assert((92u8 as char) == '\\');
    assert(latin1(unescape(b)) =~= escape_meaning(b));
}

/// Within quotes, every byte other than `"` and `\` is kept as the
/// character with its code point, whatever its value (a tab, a byte of 128
/// or more): a quoted text of such bytes is one text token of those
/// characters, and the lexer goes on after the closing quote.
pub proof fn theorem_quoted_bytes(w: Seq<u8>, r: Seq<u8>)
    requires
        plain_bytes(w),
    ensures
        tokens_from(seq![34u8] + w + seq![34u8] + r, 0, LexerState::Normal) == seq![
            text_of(latin1(w)),
        ] + tokens_from(r, 0, LexerState::Normal),
        latin1(w).len() == w.len(),
        forall|i: int| 0 <= i < w.len() ==> (#[trigger] latin1(w)[i]) as int == w[i] as int,
{
    let x = seq![34u8] + w + seq![34u8] + r;
    assert(x[0] == 34);
    lemma_scan_shift(x, 1, LexerState::InString, Seq::empty());
    assert(x.skip(1) =~= w + (seq![34u8] + r));
    lemma_scan_plain(w, seq![34u8] + r, Seq::empty());
    lemma_scan_close(r, Seq::<u8>::empty() + w);
    assert(Seq::<u8>::empty() + w =~= w);
    lemma_toks_after(x, LexerState::Normal);
    assert(x.skip(w.len() + 2int) =~= r);
    assert forall|i: int| 0 <= i < w.len() implies (#[trigger] latin1(w)[i]) as int == w[i] as int by {
        assert(latin1(w)[i] == (w[i] as char));
    }
}

/// Within quotes, a backslash and the byte after it stand for what the
/// format lists (`\n`, `\t`, `\"`, `\\`), and before any other byte both
/// are kept; the bytes around them are kept as they are.
pub proof fn theorem_quoted_escape(u: Seq<u8>, b: u8, v: Seq<u8>, r: Seq<u8>)
    requires
        plain_bytes(u),
        plain_bytes(v),
    ensures
        tokens_from(
            seq![34u8] + u + seq![92u8, b] + v + seq![34u8] + r,
            0,
            LexerState::Normal,
        ) == seq![text_of(latin1(u) + escape_meaning(b) + latin1(v))] + tokens_from(
            r,
            0,
            LexerState::Normal,
        ),
{
    let x = seq![34u8] + u + seq![92u8, b] + v + seq![34u8] + r;
    let t2 = seq![92u8, b] + (v + (seq![34u8] + r));
    assert(x[0] == 34);
    lemma_scan_shift(x, 1, LexerState::InString, Seq::empty());
    assert(x.skip(1) =~= u + t2);
    lemma_scan_plain(u, t2, Seq::empty());
    let a1 = Seq::<u8>::empty() + u;
    lemma_scan_escape(b, v + (seq![34u8] + r), a1);
    let a2 = a1 + unescape(b);
    lemma_scan_plain(v, seq![34u8] + r, a2);
    lemma_scan_close(r, a2 + v);
    lemma_toks_after(x, LexerState::Normal);
    assert(x.skip(u.len() + v.len() + 4int) =~= r);
    lemma_escape_chars(b);
    assert(latin1(a2 + v) =~= latin1(u) + latin1(unescape(b)) + latin1(v));
}

} // verus!
