//! Tokens and the lexer that cuts a byte stream into them.
//!
//! A line starts with its depth: the digits before the first space (other
//! bytes there are skipped). The rest of the line is cut at spaces, at `=`
//! and at the newline; a `"` opens a quoted text that runs to the next `"`
//! that no backslash escapes. Within it, `\"`, `\\`, `\n` and `\t` stand
//! for a quote, a backslash, a newline and a tab; a backslash before any
//! other byte is kept as it is. Bytes become characters one by one, each
//! with its own code point.

use vstd::prelude::*;
use crate::text::{all_digits, is_digit, latin1, latin1_string};

verus! {

/// The kind of a token.
#[derive(Debug, Clone, Copy, PartialEq, Eq, Structural)]
pub enum TokenType {
    Depth,
    Identifier,
    Text,
    TextDelimit,
    Assign,
    NewLine,
    Eof,
}

/// Where the lexer stands: at the start of a line, within a line, within a
/// quoted text, or right after a backslash in a quoted text.
#[derive(Debug, Clone, Copy, PartialEq, Eq, Structural)]
pub enum LexerState {
    Normal,
    StartOfLine,
    InString,
    Escape,
}

/// A token: its kind and, for a depth, an identifier or a text, its
/// characters.
#[derive(Debug)]
pub struct Token {
    pub value: Option<String>,
    pub token_t: TokenType,
}

pub struct TokenView {
    pub value: Option<Seq<char>>,
    pub token_t: TokenType,
}

impl View for Token {
    type V = TokenView;

    open spec fn view(&self) -> TokenView {
        TokenView {
            value: match self.value {
                Some(s) => Some(s@),
                None => None,
            },
            token_t: self.token_t,
        }
    }
}

impl Token {
    /// A copy of the token.
    pub fn duplicate(&self) -> (r: Token)
        ensures
            r@ == self@,
    {
        Token {
            value: match &self.value {
                Some(s) => Some(s.clone()),
                None => None,
            },
            token_t: self.token_t,
        }
    }

    /// The end-of-input token.
    pub fn eof() -> (r: Token)
        ensures
            r@ == eof_token(),
    {
        Token { value: None, token_t: TokenType::Eof }
    }
}

pub open spec fn eof_token() -> TokenView {
    TokenView { value: None, token_t: TokenType::Eof }
}

/// A token that carries the characters of `acc`.
pub open spec fn text_token(kind: TokenType, acc: Seq<u8>) -> TokenView {
    TokenView { value: Some(latin1(acc)), token_t: kind }
}

/// A token that carries nothing.
pub open spec fn bare_token(kind: TokenType) -> TokenView {
    TokenView { value: None, token_t: kind }
}

/// The bytes that a backslash and `b` stand for within a quoted text.
pub open spec fn unescape(b: u8) -> Seq<u8> {
    if b == 110 {
        seq![10u8]
    } else if b == 116 {
        seq![9u8]
    } else if b == 34 || b == 92 {
        seq![b]
    } else {
        seq![92u8, b]
    }
}

/// What one look at the next byte does.
pub enum LexStep {
    /// A token is complete; the lexer goes on at `pos` in `state`.
    Emit(TokenView, int, LexerState),
    /// One byte is consumed; the lexer goes on in `state` with `acc`
    /// gathered so far.
    Continue(LexerState, Seq<u8>),
    /// There is no byte left.
    End,
}

/// The lexer's decision on the byte at `pos`, in `state`, with the bytes
/// `acc` gathered for the token under way.
pub open spec fn lex_step(input: Seq<u8>, pos: int, state: LexerState, acc: Seq<u8>) -> LexStep {
    if pos < 0 || pos >= input.len() {
        LexStep::End
    } else {
        let b = input[pos];
        match state {
            LexerState::Normal => {
                if b == 10 {
                    if acc.len() > 0 {
                        LexStep::Emit(text_token(TokenType::Identifier, acc), pos, LexerState::Normal)
                    } else {
                        LexStep::Emit(
                            bare_token(TokenType::NewLine),
                            pos + 1,
                            LexerState::StartOfLine,
                        )
                    }
                } else if b == 32 {
                    if acc.len() > 0 {
                        LexStep::Emit(
                            text_token(TokenType::Identifier, acc),
                            pos + 1,
                            LexerState::Normal,
                        )
                    } else {
                        LexStep::Continue(LexerState::Normal, acc)
                    }
                } else if b == 61 {
                    if acc.len() > 0 {
                        LexStep::Emit(text_token(TokenType::Identifier, acc), pos, LexerState::Normal)
                    } else {
                        LexStep::Emit(bare_token(TokenType::Assign), pos + 1, LexerState::Normal)
                    }
                } else if b == 34 {
                    LexStep::Continue(LexerState::InString, acc)
                } else {
                    LexStep::Continue(LexerState::Normal, acc.push(b))
                }
            },
            LexerState::StartOfLine => {
                if b == 32 {
                    LexStep::Emit(text_token(TokenType::Depth, acc), pos + 1, LexerState::Normal)
                } else if 48 <= b <= 57 {
                    LexStep::Continue(LexerState::StartOfLine, acc.push(b))
                } else {
                    LexStep::Continue(LexerState::StartOfLine, acc)
                }
            },
            LexerState::InString => {
                if b == 34 {
                    LexStep::Emit(text_token(TokenType::Text, acc), pos + 1, LexerState::Normal)
                } else if b == 92 {
                    LexStep::Continue(LexerState::Escape, acc)
                } else {
                    LexStep::Continue(LexerState::InString, acc.push(b))
                }
            },
            LexerState::Escape => LexStep::Continue(LexerState::InString, acc + unescape(b)),
        }
    }
}

/// The next token from `pos` in `state` with `acc` gathered, and where the
/// lexer stands after it. At the end of the input the token is `Eof`, and
/// what was gathered is dropped.
pub open spec fn scan_from(input: Seq<u8>, pos: int, state: LexerState, acc: Seq<u8>) -> (
    TokenView,
    int,
    LexerState,
)
    decreases input.len() - pos,
{
    match lex_step(input, pos, state, acc) {
        LexStep::Emit(t, p, s) => (t, p, s),
        LexStep::Continue(s, a) => scan_from(input, pos + 1, s, a),
        LexStep::End => (eof_token(), pos, state),
    }
}

/// What the lexer may have gathered in `state`: digits at the start of a
/// line, bytes that end no word within a line, anything within a quoted
/// text.
pub open spec fn acc_ok(state: LexerState, acc: Seq<u8>) -> bool {
    match state {
        LexerState::StartOfLine => forall|i: int| 0 <= i < acc.len() ==> 48 <= #[trigger] acc[i] <= 57,
        LexerState::Normal => forall|i: int|
            0 <= i < acc.len() ==> {
                let b = #[trigger] acc[i];
                b != 10 && b != 32 && b != 61 && b != 34
            },
        _ => true,
    }
}

/// A character that may stand in an identifier: none that ends a word.
pub open spec fn ident_char(c: char) -> bool {
    c != ' ' && c != '\n' && c != '=' && c != '"'
}

/// The shape of the tokens that the lexer yields: a depth carries digits
/// (perhaps none), an identifier one or more characters of `ident_char`, a
/// text any characters; an `=`, a newline and `Eof` carry nothing; no
/// token is a `TextDelimit`.
pub open spec fn token_ok(t: TokenView) -> bool {
    match t.token_t {
        TokenType::Depth => t.value matches Some(v) && all_digits(v),
        TokenType::Identifier => t.value matches Some(v) && v.len() > 0 && forall|i: int|
            0 <= i < v.len() ==> ident_char(#[trigger] v[i]),
        TokenType::Text => t.value is Some,
        TokenType::TextDelimit => false,
        _ => t.value is None,
    }
}

proof fn lemma_byte_char(b: u8)
    ensures
        (b as char) as int == b as int,
        (b as char) == ' ' <==> b == 32,
        (b as char) == '\n' <==> b == 10,
        (b as char) == '=' <==> b == 61,
        (b as char) == '"' <==> b == 34,
        is_digit(b as char) <==> 48 <= b <= 57,
{
}

proof fn lemma_emit_ok(state: LexerState, kind: TokenType, acc: Seq<u8>)
    requires
        acc_ok(state, acc),
        kind == TokenType::Depth ==> state == LexerState::StartOfLine,
        kind == TokenType::Identifier ==> state == LexerState::Normal && acc.len() > 0,
        kind == TokenType::Depth || kind == TokenType::Identifier || kind == TokenType::Text,
    ensures
        token_ok(text_token(kind, acc)),
{
    let v = latin1(acc);
    assert forall|i: int| 0 <= i < v.len() implies {
        &&& kind == TokenType::Depth ==> is_digit(#[trigger] v[i])
        &&& kind == TokenType::Identifier ==> ident_char(v[i])
    } by {
        lemma_byte_char(acc[i]);
    }
}

pub proof fn lemma_scan_progress(input: Seq<u8>, pos: int, state: LexerState, acc: Seq<u8>)
    requires
        0 <= pos <= input.len(),
        acc_ok(state, acc),
    ensures
        ({
            let (t, p, s) = scan_from(input, pos, state, acc);
            &&& pos <= p <= input.len()
            &&& t.token_t == TokenType::Eof ==> t == eof_token() && p == input.len()
            &&& t.token_t != TokenType::Eof ==> (p > pos || acc.len() > 0)
            &&& token_ok(t)
        }),
    decreases input.len() - pos,
{
    match lex_step(input, pos, state, acc) {
        LexStep::Continue(s, a) => {
            let b = input[pos];
            if state == LexerState::Normal {
                assert forall|i: int| 0 <= i < a.len() implies {
                    let c = #[trigger] a[i];
                    c != 10 && c != 32 && c != 61 && c != 34
                } by {
                    if i < acc.len() {
                        assert(a[i] == acc[i]);
                    }
                }
            }
            if state == LexerState::StartOfLine {
                assert forall|i: int| 0 <= i < a.len() implies 48 <= #[trigger] a[i] <= 57 by {
                    if i < acc.len() {
                        assert(a[i] == acc[i]);
                    }
                }
            }
            lemma_scan_progress(input, pos + 1, s, a);
        },
        LexStep::Emit(t, p, s) => {
            if t.token_t == TokenType::Identifier {
                lemma_emit_ok(state, TokenType::Identifier, acc);
            } else if t.token_t == TokenType::Depth {
                lemma_emit_ok(state, TokenType::Depth, acc);
            } else if t.token_t == TokenType::Text {
                lemma_emit_ok(state, TokenType::Text, acc);
            }
        },
        LexStep::End => {},
    }
}

/// The tokens from `pos` in `state` up to and including `Eof`.
pub open spec fn tokens_from(input: Seq<u8>, pos: int, state: LexerState) -> Seq<TokenView>
    decreases input.len() - pos,
{
    if pos < 0 || pos > input.len() {
        seq![eof_token()]
    } else {
        let (t, p, s) = scan_from(input, pos, state, Seq::empty());
        if t.token_t == TokenType::Eof {
            seq![t]
        } else {
            proof {
                lemma_scan_progress(input, pos, state, Seq::empty());
            }
            seq![t] + tokens_from(input, p, s)
        }
    }
}

/// The tokens of a whole input.
pub open spec fn lex(input: Seq<u8>) -> Seq<TokenView> {
    tokens_from(input, 0, LexerState::StartOfLine)
}

/// An empty input holds no token but `Eof`.
pub proof fn lemma_lex_empty()
    ensures
        lex(Seq::empty()) == seq![eof_token()],
{
    assert(lex_step(Seq::empty(), 0, LexerState::StartOfLine, Seq::empty()) is End);
}

/// A stream of tokens as the lexer yields them: tokens of the lexer's
/// shape, one `Eof`, and that one last.
pub open spec fn stream_ok(s: Seq<TokenView>) -> bool {
    &&& s.len() >= 1
    &&& s.last() == eof_token()
    &&& forall|i: int|
        0 <= i < s.len() - 1 ==> (#[trigger] s[i]).token_t != TokenType::Eof && token_ok(s[i])
}

/// Once a stream yields `Eof`, it yields nothing else: a stream of the
/// lexer's shape whose first token is `Eof` is that one token, and taking
/// it leaves it in place.
pub proof fn theorem_eof_stays(s: Seq<TokenView>)
    requires
        stream_ok(s),
    ensures
        s[0].token_t == TokenType::Eof ==> s == seq![eof_token()] && stream_rest(s) == s,
        token_ok(s[0]),
{
    if s.len() > 1 {
        assert(s[0] == s[0]);
    } else {
        assert(s =~= seq![eof_token()]);
    }
}

/// The stream after its first token is taken; `Eof` stays.
pub open spec fn stream_rest(s: Seq<TokenView>) -> Seq<TokenView> {
    if s.len() > 1 {
        s.subrange(1, s.len() as int)
    } else {
        seq![eof_token()]
    }
}

/// The first token of the stream (`Eof` once it is empty).
pub open spec fn stream_first(s: Seq<TokenView>) -> TokenView {
    if s.len() > 0 {
        s[0]
    } else {
        eof_token()
    }
}

pub proof fn lemma_tokens_from_ok(input: Seq<u8>, pos: int, state: LexerState)
    ensures
        stream_ok(tokens_from(input, pos, state)),
    decreases input.len() - pos,
{
    if 0 <= pos <= input.len() {
        let (t, p, s) = scan_from(input, pos, state, Seq::empty());
        lemma_scan_progress(input, pos, state, Seq::empty());
        if t.token_t != TokenType::Eof {
            lemma_tokens_from_ok(input, p, s);
            let r = tokens_from(input, p, s);
            let all = tokens_from(input, pos, state);
            assert(all =~= seq![t] + r);
            assert forall|i: int| 0 <= i < all.len() - 1 implies (#[trigger] all[i]).token_t
                != TokenType::Eof && token_ok(all[i]) by {
                if i > 0 {
                    assert(all[i] == r[i - 1]);
                }
            }
        }
    }
}

/// The lexer: the input, where it stands, and in which state.
pub struct Lexer {
    input: Vec<u8>,
    pos: usize,
    state: LexerState,
}

impl View for Lexer {
    type V = Seq<TokenView>;

    /// The tokens that the lexer is yet to yield, up to and including `Eof`.
    closed spec fn view(&self) -> Seq<TokenView> {
        tokens_from(self.input@, self.pos as int, self.state)
    }
}

impl Lexer {
    /// The lexer stands within its input or at its end.
    #[verifier::type_invariant]
    spec fn wf(&self) -> bool {
        self.pos <= self.input.len()
    }

    /// Whatever the lexer has yielded so far, what it is yet to yield is a
    /// stream of the lexer's shape that ends in one `Eof`.
    pub proof fn lemma_stream_ok(&self)
        ensures
            stream_ok(self@),
    {
        lemma_tokens_from_ok(self.input@, self.pos as int, self.state);
    }

    /// A lexer at the start of `input`.
    pub fn new(input: Vec<u8>) -> (r: Self)
        ensures
            r@ == lex(input@),
    {
        Lexer { input, pos: 0, state: LexerState::StartOfLine }
    }

    /// Yields the next token. After the end of the input, every call yields
    /// `Eof`.
    pub fn scan(&mut self) -> (tok: Token)
        ensures
            tok@ == old(self)@[0],
            final(self)@ == stream_rest(old(self)@),
            stream_ok(final(self)@),
            token_ok(tok@),
            tok.token_t == TokenType::Eof ==> tok@ == eof_token() && old(self)@ == seq![eof_token()]
                && final(self)@ == seq![eof_token()],
    {
        proof {
            use_type_invariant(&*self);
        }
        let ghost input = self.input@;
        let ghost start = (self.pos as int, self.state);
        let mut core = ByteLexer { state: self.state, acc: Vec::new() };
        loop
            invariant
                self.input@ == input,
                scan_from(input, self.pos as int, core.state, core.acc@) == scan_from(
                    input,
                    start.0,
                    start.1,
                    Seq::empty(),
                ),
                0 <= start.0 <= input.len(),
                input == old(self).input@,
                start.0 == old(self).pos,
                start.1 == old(self).state,
            decreases input.len() - self.pos,
        {
            proof {
                use_type_invariant(&*self);
            }
            let ghost before = (self.pos as int, core.state, core.acc@);
            let b = match self.peek_byte() {
                Some(b) => b,
                None => {
                    self.state = core.state;
                    proof {
                        use_type_invariant(&*self);
                        assert(lex_step(input, before.0, before.1, before.2) is End);
                        self.lemma_view_after(start.0, start.1);
                        lemma_tokens_from_ok(input, start.0, start.1);
                        theorem_eof_stays(tokens_from(input, start.0, start.1));
                    }
                    return Token::eof();
                },
            };
            proof {
                lemma_step_at(input, before.0, before.1, before.2);
            }
            match core.feed(b) {
                Some((tok, used)) => {
                    if used {
                        self.pos = self.pos + 1;
                    }
                    self.state = core.state;
                    proof {
                        use_type_invariant(&*self);
                        assert(scan_from(input, before.0, before.1, before.2) == (
                            tok@,
                            self.pos as int,
                            self.state,
                        ));
                        self.lemma_view_after(start.0, start.1);
                        lemma_tokens_from_ok(input, start.0, start.1);
                        theorem_eof_stays(tokens_from(input, start.0, start.1));
                    }
                    return tok;
                },
                None => {
                    self.pos = self.pos + 1;
                },
            }
        }
    }

    /// After the scan from `(pos, state)` has ended where `self` stands,
    /// `self` yields the rest of the stream.
    proof fn lemma_view_after(&self, pos: int, state: LexerState)
        requires
            0 <= pos <= self.input@.len(),
            self.wf(),
            ({
                let (t, p, s) = scan_from(self.input@, pos, state, Seq::empty());
                p == self.pos && s == self.state
            }),
        ensures
            self@ == stream_rest(tokens_from(self.input@, pos, state)),
            tokens_from(self.input@, pos, state)[0] == scan_from(
                self.input@,
                pos,
                state,
                Seq::empty(),
            ).0,
            stream_ok(self@),
    {
        let input = self.input@;
        let (t, p, s) = scan_from(input, pos, state, Seq::empty());
        lemma_scan_progress(input, pos, state, Seq::empty());
        lemma_tokens_from_ok(input, self.pos as int, self.state);
        let all = tokens_from(input, pos, state);
        if t.token_t == TokenType::Eof {
            assert(stream_rest(all) == seq![eof_token()]);
            assert(lex_step(input, p, s, Seq::empty()) is End);
        } else {
            assert(all == seq![t] + tokens_from(input, p, s));
            lemma_tokens_from_ok(input, p, s);
            assert(stream_rest(all) =~= tokens_from(input, p, s));
        }
    }

    fn peek_byte(&self) -> (r: Option<u8>)
        ensures
            r == (if self.pos < self.input.len() {
                Some(self.input@[self.pos as int])
            } else {
                None::<u8>
            }),
    {
        if self.pos < self.input.len() {
            Some(self.input[self.pos])
        } else {
            None
        }
    }
}

/// The step of `lex_step` at `pos` is the step on the byte there alone.
pub proof fn lemma_step_at(input: Seq<u8>, pos: int, state: LexerState, acc: Seq<u8>)
    requires
        0 <= pos < input.len(),
    ensures
        lex_step(input, pos, state, acc) == match lex_step(seq![input[pos]], 0, state, acc) {
            LexStep::Emit(t, p, s) => LexStep::Emit(t, p + pos, s),
            other => other,
        },
{
}

/// What one byte gives: a finished token, and whether the byte was taken
/// (a byte that ends an identifier before `=` or a newline is not, and is
/// fed again).
pub type Fed = Option<(Token, bool)>;

/// The lexer's decisions one byte at a time: where it stands, and the bytes
/// gathered for the token under way. It never looks back or ahead, so an
/// input can be lexed as it arrives: feed each byte (again, if it was not
/// taken) and, at the end of the input, take `finish`. Each step is the step
/// of `lex_step` on that byte (see `lemma_step_at`), so the tokens are those
/// of `lex` on the whole input; `Lexer::scan` runs on it.
pub struct ByteLexer {
    state: LexerState,
    acc: Vec<u8>,
}

impl ByteLexer {
    /// Where the lexer stands.
    pub closed spec fn state(&self) -> LexerState {
        self.state
    }

    /// The bytes gathered for the token under way.
    pub closed spec fn gathered(&self) -> Seq<u8> {
        self.acc@
    }

    /// A lexer at the start of a line, with nothing gathered.
    pub fn new() -> (r: Self)
        ensures
            r.state() == LexerState::StartOfLine,
            r.gathered() == Seq::<u8>::empty(),
    {
        ByteLexer { state: LexerState::StartOfLine, acc: Vec::new() }
    }

    /// What the byte `b` does, as `lex_step` decides on it: a token and
    /// whether `b` was taken, or nothing (`b` was taken).
    pub fn feed(&mut self, b: u8) -> (r: Fed)
        ensures
            fed(*old(self), *final(self), b, r),
    {
        match self.state {
            LexerState::Normal => self.handle_normal(b),
            LexerState::StartOfLine => self.handle_start_of_line(b),
            LexerState::InString => self.handle_in_string(b),
            LexerState::Escape => self.handle_escape(b),
        }
    }

    /// The end of the input: `Eof`, and what was gathered is dropped.
    pub fn finish(&mut self) -> (r: Token)
        ensures
            r@ == eof_token(),
            final(self).state() == old(self).state(),
            final(self).gathered() == Seq::<u8>::empty(),
    {
        self.acc = Vec::new();
        Token::eof()
    }

    /// The token that carries what was gathered, which is then dropped.
    fn take_token(&mut self, kind: TokenType) -> (tok: Token)
        ensures
            tok@ == text_token(kind, old(self).acc@),
            final(self).acc@ == Seq::<u8>::empty(),
            final(self).state == old(self).state,
    {
        let s = latin1_string(&self.acc);
        self.acc = Vec::new();
        Token { value: Some(s), token_t: kind }
    }

    fn handle_normal(&mut self, b: u8) -> (r: Fed)
        requires
            old(self).state == LexerState::Normal,
        ensures
            fed(*old(self), *final(self), b, r),
    {
        if b == 10 {
            if self.acc.len() > 0 {
                return Some((self.take_token(TokenType::Identifier), false));
            }
            self.state = LexerState::StartOfLine;
            assert(self.acc@ =~= Seq::<u8>::empty());
            return Some((Token { value: None, token_t: TokenType::NewLine }, true));
        }
        if b == 32 {
            if self.acc.len() > 0 {
                return Some((self.take_token(TokenType::Identifier), true));
            }
            return None;
        }
        if b == 61 {
            if self.acc.len() > 0 {
                return Some((self.take_token(TokenType::Identifier), false));
            }
            assert(self.acc@ =~= Seq::<u8>::empty());
            return Some((Token { value: None, token_t: TokenType::Assign }, true));
        }
        if b == 34 {
            self.state = LexerState::InString;
            return None;
        }
        self.acc.push(b);
        None
    }

    fn handle_start_of_line(&mut self, b: u8) -> (r: Fed)
        requires
            old(self).state == LexerState::StartOfLine,
        ensures
            fed(*old(self), *final(self), b, r),
    {
        if b == 32 {
            self.state = LexerState::Normal;
            return Some((self.take_token(TokenType::Depth), true));
        }
        if 48 <= b && b <= 57 {
            self.acc.push(b);
        }
        None
    }

    fn handle_in_string(&mut self, b: u8) -> (r: Fed)
        requires
            old(self).state == LexerState::InString,
        ensures
            fed(*old(self), *final(self), b, r),
    {
        if b == 34 {
            self.state = LexerState::Normal;
            return Some((self.take_token(TokenType::Text), true));
        }
        if b == 92 {
            self.state = LexerState::Escape;
            return None;
        }
        self.acc.push(b);
        None
    }

    fn handle_escape(&mut self, b: u8) -> (r: Fed)
        requires
            old(self).state == LexerState::Escape,
        ensures
            fed(*old(self), *final(self), b, r),
    {
        if b == 110 {
            self.acc.push(10);
        } else if b == 116 {
            self.acc.push(9);
        } else if b == 34 || b == 92 {
            self.acc.push(b);
        } else {
            self.acc.push(92);
            self.acc.push(b);
        }
        self.state = LexerState::InString;
        assert(self.acc@ =~= old(self).acc@ + unescape(b));
        None
    }
}

/// `new` after `old` has been fed `b`, with `r` the result: the step that
/// `lex_step` takes on `b` alone.
pub open spec fn fed(old: ByteLexer, new: ByteLexer, b: u8, r: Fed) -> bool {
    match lex_step(seq![b], 0, old.state(), old.gathered()) {
        LexStep::Emit(t, p, s) => {
            &&& r matches Some((tok, used))
            &&& tok@ == t
            &&& used == (p == 1)
            &&& new.state() == s
            &&& new.gathered() == Seq::<u8>::empty()
        },
        LexStep::Continue(s, a) => {
            &&& r is None
            &&& new.state() == s
            &&& new.gathered() == a
        },
        LexStep::End => false,
    }
}

} // verus!
