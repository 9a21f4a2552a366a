//! The parser: reads the lines of a document and rebuilds its tree.
//!
//! Each line is `depth name [key=value ...] ["content"]`. The first line is
//! the root, at depth 0; every later line is nested at most one level deeper
//! than the line before it, and none is at depth 0 again. A line becomes the
//! last child of the nearest line above it at one level less.

use vstd::prelude::*;
use crate::ast::syntax_tree_types::{
    Attribute, AttributeView, Document, Node, NodeView, Value, ValueView, attrs_view,
    bool_text, height, content_view, nodes_view, null_text, with_child,
};
use crate::errors::error_types::{ParseError, ParseErrorView};
use crate::lexer::lexer_types::{
    Lexer, Token, TokenType, TokenView, eof_token, lex, stream_first, stream_ok, stream_rest,
};
use crate::text::{chars_of, is_float_literal, is_float_text, parse_i64, parse_u32, spec_parse_i64,
    spec_parse_u32};

verus! {

// ---------------------------------------------------------------------------
// Specification
// ---------------------------------------------------------------------------

/// Where a step of the parser ends: with a result and the tokens left, with
/// an error and the tokens left, or halted (a depth too large for `u32`).
pub enum Outcome<T> {
    Done(T, Seq<TokenView>),
    Fail(ParseErrorView, Seq<TokenView>),
    Halt,
}

pub open spec fn msg_depth() -> Seq<char> {
    "depth value"@
}

pub open spec fn msg_identifier() -> Seq<char> {
    "identifier"@
}

pub open spec fn msg_assign() -> Seq<char> {
    "="@
}

pub open spec fn msg_value() -> Seq<char> {
    "attribute value (string, number, boolean, or null)"@
}

pub open spec fn msg_newline() -> Seq<char> {
    "newline"@
}

pub open spec fn msg_line_item() -> Seq<char> {
    "attribute, content, or newline"@
}

pub open spec fn msg_second_root() -> Seq<char> {
    "depth > 0 (root already defined)"@
}

/// The depth token of a second line at depth 0, as the error reports it.
pub open spec fn depth_zero_token() -> TokenView {
    TokenView { value: Some("0"@), token_t: TokenType::Depth }
}

/// The characters that a token carries (none if it carries nothing).
pub open spec fn token_chars(t: TokenView) -> Seq<char> {
    match t.value {
        Some(v) => v,
        None => Seq::empty(),
    }
}

/// A size of a stream that every step of the parser leaves no larger, and
/// that taking a token other than `Eof` makes smaller.
pub open spec fn stream_measure(s: Seq<TokenView>) -> nat {
    (if s.len() == 0 {
        1
    } else {
        s.len()
    }) + (if stream_first(s).token_t == TokenType::Eof {
        0nat
    } else {
        1nat
    })
}

pub proof fn lemma_rest_measure(s: Seq<TokenView>)
    ensures
        stream_measure(stream_rest(s)) <= stream_measure(s),
        stream_first(s).token_t != TokenType::Eof ==> stream_measure(stream_rest(s))
            < stream_measure(s),
{
}

/// Takes a token of kind `kind` and gives its characters; any other token is
/// an error that names `expected`, and is left in place.
pub open spec fn expect_spec(s: Seq<TokenView>, kind: TokenType, expected: Seq<char>) -> Outcome<
    Seq<char>,
> {
    let t = stream_first(s);
    if t.token_t == kind {
        Outcome::Done(token_chars(t), stream_rest(s))
    } else {
        Outcome::Fail(ParseErrorView::UnexpectedToken { expected, found: t }, s)
    }
}

/// The value that an unquoted attribute value stands for: an integer if it
/// reads as an `i64`, else a float if it reads as an `f64`, else `true`,
/// `false` or `null`.
pub open spec fn classify(text: Seq<char>) -> Result<ValueView, ParseErrorView> {
    match spec_parse_i64(text) {
        Some(n) => Ok(ValueView::Integer(n)),
        None => {
            if is_float_literal(text) {
                Ok(ValueView::Float(text))
            } else if text == bool_text(true) {
                Ok(ValueView::Boolean(true))
            } else if text == bool_text(false) {
                Ok(ValueView::Boolean(false))
            } else if text == null_text() {
                Ok(ValueView::Null)
            } else {
                Err(ParseErrorView::InvalidValue { raw: text })
            }
        },
    }
}

/// Takes the token of an attribute value: a quoted text is a string, an
/// identifier is classified, anything else is an error.
pub open spec fn parse_value_spec(s: Seq<TokenView>) -> Outcome<ValueView> {
    let t = stream_first(s);
    let r = stream_rest(s);
    if t.token_t == TokenType::Text {
        Outcome::Done(ValueView::String(token_chars(t)), r)
    } else if t.token_t == TokenType::Identifier {
        match classify(token_chars(t)) {
            Ok(v) => Outcome::Done(v, r),
            Err(e) => Outcome::Fail(e, r),
        }
    } else {
        Outcome::Fail(ParseErrorView::UnexpectedToken { expected: msg_value(), found: t }, r)
    }
}

/// One attribute: a key, `=`, and a value.
pub open spec fn attribute_spec(s: Seq<TokenView>) -> Outcome<AttributeView> {
    let t = stream_first(s);
    match expect_spec(s, TokenType::Identifier, msg_identifier()) {
        Outcome::Done(key, s1) => match expect_spec(s1, TokenType::Assign, msg_assign()) {
            Outcome::Done(_, s2) => match parse_value_spec(s2) {
                Outcome::Done(v, s3) => Outcome::Done(AttributeView { key, value: v }, s3),
                Outcome::Fail(e, r) => Outcome::Fail(e, r),
                Outcome::Halt => Outcome::Halt,
            },
            Outcome::Fail(e, r) => Outcome::Fail(e, r),
            Outcome::Halt => Outcome::Halt,
        },
        Outcome::Fail(e, r) => Outcome::Fail(e, r),
        Outcome::Halt => Outcome::Halt,
    }
}

pub proof fn lemma_attribute_measure(s: Seq<TokenView>)
    ensures
        attribute_spec(s) matches Outcome::Done(_, r) ==> stream_measure(r) < stream_measure(s),
{
    lemma_rest_measure(s);
    if let Outcome::Done(_, s1) = expect_spec(s, TokenType::Identifier, msg_identifier()) {
        lemma_rest_measure(s1);
        if let Outcome::Done(_, s2) = expect_spec(s1, TokenType::Assign, msg_assign()) {
            lemma_rest_measure(s2);
        }
    }
}

/// The attributes and content of a line, after its name: attributes while
/// no content has come, then at most one content, up to the newline, which
/// is taken. Every line ends with a newline: the end of input before it is
/// an error.
pub open spec fn line_items(
    s: Seq<TokenView>,
    attrs: Seq<AttributeView>,
    content: Option<Seq<char>>,
) -> Outcome<(Seq<AttributeView>, Option<Seq<char>>)>
    decreases stream_measure(s),
{
    let t = stream_first(s);
    if t.token_t == TokenType::NewLine {
        Outcome::Done((attrs, content), stream_rest(s))
    } else if t.token_t == TokenType::Identifier && content is None {
        match attribute_spec(s) {
            Outcome::Done(a, s3) => {
                proof {
                    lemma_attribute_measure(s);
                }
                line_items(s3, attrs.push(a), content)
            },
            Outcome::Fail(e, r) => Outcome::Fail(e, r),
            Outcome::Halt => Outcome::Halt,
        }
    } else if t.token_t == TokenType::Text && content is None {
        proof {
            lemma_rest_measure(s);
        }
        line_items(stream_rest(s), attrs, Some(token_chars(t)))
    } else {
        Outcome::Fail(
            ParseErrorView::UnexpectedToken {
                expected: if content is Some {
                    msg_newline()
                } else {
                    msg_line_item()
                },
                found: t,
            },
            s,
        )
    }
}

/// The rest of a line at `depth` named `name`, from `s`.
pub open spec fn line_after_name(depth: u32, name: Seq<char>, s: Seq<TokenView>) -> Outcome<
    (u32, NodeView),
> {
    match line_items(s, Seq::empty(), None) {
        Outcome::Done((attrs, content), s3) => Outcome::Done(
            (depth, NodeView { name, attrs, content, children: Seq::empty() }),
            s3,
        ),
        Outcome::Fail(e, r) => Outcome::Fail(e, r),
        Outcome::Halt => Outcome::Halt,
    }
}

/// One line: its depth and the node it describes (without children). A
/// depth whose digits exceed `u32` halts.
pub open spec fn parse_line_spec(s: Seq<TokenView>) -> Outcome<(u32, NodeView)> {
    match expect_spec(s, TokenType::Depth, msg_depth()) {
        Outcome::Done(digits, s1) => match spec_parse_u32(digits) {
            None => Outcome::Halt,
            Some(depth) => match expect_spec(s1, TokenType::Identifier, msg_identifier()) {
                Outcome::Done(name, s2) => line_after_name(depth, name, s2),
                Outcome::Fail(e, r) => Outcome::Fail(e, r),
                Outcome::Halt => Outcome::Halt,
            },
        },
        Outcome::Fail(e, r) => Outcome::Fail(e, r),
        Outcome::Halt => Outcome::Halt,
    }
}

/// The stack with its top node attached as the last child of the node below
/// it (a top node with none below is dropped).
pub open spec fn collapse_one(stack: Seq<NodeView>) -> Seq<NodeView> {
    let child = stack.last();
    let rest = stack.drop_last();
    if rest.len() == 0 {
        rest
    } else {
        rest.drop_last().push(with_child(rest.last(), child))
    }
}

/// The stack after attaching top nodes until at most `depth` are left.
pub open spec fn collapse(stack: Seq<NodeView>, depth: nat) -> Seq<NodeView>
    decreases stack.len(),
{
    if stack.len() <= depth {
        stack
    } else {
        collapse(collapse_one(stack), depth)
    }
}

pub proof fn lemma_collapse_len(x: Seq<NodeView>, d: nat)
    ensures
        x.len() <= d ==> collapse(x, d) == x,
        x.len() >= d ==> collapse(x, d).len() == d,
    decreases x.len(),
{
    if x.len() > d {
        lemma_collapse_len(collapse_one(x), d);
    }
}

/// The stack after a line at `depth` describing `node`, or why the line
/// cannot stand there.
pub open spec fn push_line_spec(stack: Seq<NodeView>, depth: u32, node: NodeView) -> Result<
    Seq<NodeView>,
    ParseErrorView,
> {
    if stack.len() == 0 && depth != 0 {
        Err(ParseErrorView::DepthJump { current_depth: 0, target_depth: depth })
    } else if depth == 0 && stack.len() > 0 {
        Err(
            ParseErrorView::UnexpectedToken {
                expected: msg_second_root(),
                found: depth_zero_token(),
            },
        )
    } else if depth > (stack.len() as u32) {
        Err(
            ParseErrorView::DepthJump {
                current_depth: stack.len() as u32,
                target_depth: depth,
            },
        )
    } else {
        Ok(collapse(stack, depth as nat).push(node))
    }
}

/// At the end of input: the root, with every open line attached.
pub open spec fn finish_spec(stack: Seq<NodeView>, s: Seq<TokenView>) -> Outcome<NodeView> {
    let st = collapse(stack, 1);
    if st.len() == 0 {
        Outcome::Fail(ParseErrorView::EmptyInput, s)
    } else {
        Outcome::Done(st[0], s)
    }
}

pub proof fn lemma_expect_measure(s: Seq<TokenView>, kind: TokenType, expected: Seq<char>)
    ensures
        expect_spec(s, kind, expected) matches Outcome::Done(_, r) ==> stream_measure(r)
            <= stream_measure(s) && (kind != TokenType::Eof ==> stream_measure(r)
            < stream_measure(s)),
{
    lemma_rest_measure(s);
}

pub proof fn lemma_value_measure(s: Seq<TokenView>)
    ensures
        parse_value_spec(s) matches Outcome::Done(_, r) ==> stream_measure(r) < stream_measure(s),
{
    lemma_rest_measure(s);
}

pub proof fn lemma_items_measure(
    s: Seq<TokenView>,
    attrs: Seq<AttributeView>,
    content: Option<Seq<char>>,
)
    ensures
        line_items(s, attrs, content) matches Outcome::Done(_, r) ==> stream_measure(r)
            <= stream_measure(s),
    decreases stream_measure(s),
{
    lemma_rest_measure(s);
    let t = stream_first(s);
    if t.token_t == TokenType::NewLine {
    } else if t.token_t == TokenType::Identifier && content is None {
        lemma_attribute_measure(s);
        if let Outcome::Done(a, s3) = attribute_spec(s) {
            lemma_items_measure(s3, attrs.push(a), content);
        }
    } else if t.token_t == TokenType::Text && content is None {
        lemma_items_measure(stream_rest(s), attrs, Some(token_chars(t)));
    }
}

pub proof fn lemma_line_measure(s: Seq<TokenView>)
    ensures
        parse_line_spec(s) matches Outcome::Done(_, r) ==> stream_measure(r) < stream_measure(s),
{
    lemma_rest_measure(s);
    if let Outcome::Done(digits, s1) = expect_spec(s, TokenType::Depth, msg_depth()) {
        lemma_rest_measure(s1);
        if let Outcome::Done(_, s2) = expect_spec(s1, TokenType::Identifier, msg_identifier()) {
            lemma_items_measure(s2, Seq::empty(), None);
        }
    }
}

/// The rest of the document from `s`, with `stack` the lines still open.
pub open spec fn parse_from(s: Seq<TokenView>, stack: Seq<NodeView>) -> Outcome<NodeView>
    decreases stream_measure(s),
{
    if stream_first(s).token_t == TokenType::Eof {
        finish_spec(stack, s)
    } else {
        match parse_line_spec(s) {
            Outcome::Done((depth, node), s2) => match push_line_spec(stack, depth, node) {
                Ok(st) => {
                    proof {
                        lemma_line_measure(s);
                    }
                    parse_from(s2, st)
                },
                Err(e) => Outcome::Fail(e, s2),
            },
            Outcome::Fail(e, r) => Outcome::Fail(e, r),
            Outcome::Halt => Outcome::Halt,
        }
    }
}

/// The document that the token stream `s` describes.
pub open spec fn parse_stream(s: Seq<TokenView>) -> Outcome<NodeView> {
    parse_from(s, Seq::empty())
}

/// The document that the bytes `input` describe.
pub open spec fn parse_input(input: Seq<u8>) -> Outcome<NodeView> {
    parse_stream(lex(input))
}


/// What a parse gives `r`, with `rest` the tokens left after it, when the
/// specification gives `o`.
pub open spec fn parse_result_is(
    r: Result<Document, ParseError>,
    rest: Seq<TokenView>,
    o: Outcome<NodeView>,
) -> bool {
    match o {
        Outcome::Done(root, s) => r matches Ok(doc) && doc@ == root && rest == s,
        Outcome::Fail(e, s) => r matches Err(err) && err@ == e && rest == s,
        Outcome::Halt => false,
    }
}

// ---------------------------------------------------------------------------
// Implementation
// ---------------------------------------------------------------------------

/// A parser over the tokens of an input, one token ahead.
pub struct Parser {
    lex: Lexer,
    lookahead: Option<Token>,
}

impl View for Parser {
    type V = Seq<TokenView>;

    /// The tokens that the parser is yet to take, up to and including `Eof`.
    closed spec fn view(&self) -> Seq<TokenView> {
        match self.lookahead {
            Some(t) => if t.token_t == TokenType::Eof {
                seq![t@]
            } else {
                seq![t@] + self.lex@
            },
            None => self.lex@,
        }
    }
}

/// The characters of a token, moved out of it.
fn token_string(tok: Token) -> (s: String)
    ensures
        s@ == token_chars(tok@),
{
    match tok.value {
        Some(v) => v,
        None => String::new(),
    }
}

fn chars_equal(a: &Vec<char>, b: &Vec<char>) -> (r: bool)
    ensures
        r == (a@ == b@),
{
    if a.len() != b.len() {
        return false;
    }
    let mut i: usize = 0;
    while i < a.len()
        invariant
            a.len() == b.len(),
            0 <= i <= a.len(),
            forall|j: int| 0 <= j < i ==> a@[j] == b@[j],
        decreases a.len() - i,
    {
        if a[i] != b[i] {
            return false;
        }
        i = i + 1;
    }
    assert(a@ =~= b@);
    true
}

/// Attaches `child` as the last child of `parent`.
fn adopt(parent: &mut Node, child: Node)
    ensures
        final(parent)@ == with_child(old(parent)@, child@),
{
    parent.children.push(child);
    assert(parent@.children =~= old(parent)@.children.push(child@));
}

/// Attaches the top node of the stack to the node below it.
fn collapse_step(stack: &mut Vec<Node>)
    requires
        old(stack).len() > 0,
    ensures
        nodes_view(final(stack)@) == collapse_one(nodes_view(old(stack)@)),
        final(stack).len() == old(stack).len() - 1,
{
    let ghost before = nodes_view(stack@);
    let child = stack.pop().unwrap();
    assert(nodes_view(stack@) =~= before.drop_last());
    match stack.pop() {
        Some(mut parent) => {
            assert(nodes_view(stack@) =~= before.drop_last().drop_last());
            adopt(&mut parent, child);
            stack.push(parent);
            assert(nodes_view(stack@) =~= collapse_one(before));
        },
        None => {
            assert(nodes_view(stack@) =~= collapse_one(before));
        },
    }
}

/// The lines read so far that are still open: the last line, the line it
/// hangs under, and so on up to the root. Lines can be added as they are
/// read, one at a time.
pub struct TreeBuilder {
    stack: Vec<Node>,
}

impl View for TreeBuilder {
    type V = Seq<NodeView>;

    /// The open lines, the root first.
    closed spec fn view(&self) -> Seq<NodeView> {
        nodes_view(self.stack@)
    }
}

impl TreeBuilder {
    /// No line read yet.
    pub fn new() -> (r: Self)
        ensures
            r@ == Seq::<NodeView>::empty(),
    {
        let r = TreeBuilder { stack: Vec::new() };
        assert(nodes_view(r.stack@) =~= Seq::<NodeView>::empty());
        r
    }

    /// Adds a line at `depth` describing `node`: it closes the open lines at
    /// `depth` and deeper and becomes the last open line, or, where it
    /// cannot stand there, nothing changes and the error says why.
    pub fn push_line(&mut self, depth: u32, node: Node) -> (r: Result<(), ParseError>)
        ensures
            match push_line_spec(old(self)@, depth, node@) {
                Ok(st) => r is Ok && final(self)@ == st,
                Err(e) => r matches Err(err) && err@ == e && final(self)@ == old(self)@,
            },
    {
        if self.stack.len() == 0 && depth != 0 {
            return Err(ParseError::DepthJump { current_depth: 0, target_depth: depth });
        }
        if depth == 0 && self.stack.len() > 0 {
            let found = Token { value: Some("0".to_owned()), token_t: TokenType::Depth };
            return Err(
                ParseError::UnexpectedToken {
                    expected: "depth > 0 (root already defined)".to_owned(),
                    found,
                },
            );
        }
        let current = #[verifier::truncate] (self.stack.len() as u32);
        if depth > current {
            return Err(ParseError::DepthJump { current_depth: current, target_depth: depth });
        }
        let ghost target = depth as nat;
        let ghost entry = self@;
        while self.stack.len() > depth as usize
            invariant
                target == depth as nat,
                collapse(self@, target) == collapse(entry, target),
            decreases self.stack.len(),
        {
            collapse_step(&mut self.stack);
        }
        assert(self@ == collapse(entry, target));
        let ghost collapsed = self@;
        self.stack.push(node);
        assert(self@ =~= collapsed.push(node@));
        Ok(())
    }

    /// The end of the lines: the root with every open line attached, or,
    /// where no line was read, an empty input.
    pub fn finish(self) -> (r: Result<Document, ParseError>)
        ensures
            collapse(self@, 1).len() == 0 ==> (r matches Err(e) && e@ == ParseErrorView::EmptyInput),
            collapse(self@, 1).len() > 0 ==> (r matches Ok(doc) && doc@ == collapse(self@, 1)[0]),
    {
        let mut stack = self.stack;
        let ghost entry = nodes_view(stack@);
        while stack.len() > 1
            invariant
                collapse(nodes_view(stack@), 1) == collapse(entry, 1),
            decreases stack.len(),
        {
            collapse_step(&mut stack);
        }
        assert(nodes_view(stack@) == collapse(entry, 1));
        if stack.len() == 0 {
            return Err(ParseError::EmptyInput);
        }
        let root = stack.pop().unwrap();
        assert(root@ == collapse(entry, 1)[0]);
        Ok(Document { root })
    }
}

impl Parser {
    /// The parser always holds the next token: `Eof` only once the lexer has
    /// nothing else to yield, and otherwise a token of the lexer's shape.
    #[verifier::type_invariant]
    spec fn wf(&self) -> bool {
        self.lookahead matches Some(t) && {
            &&& t.token_t == TokenType::Eof ==> t@ == eof_token() && self.lex@ == seq![
                eof_token(),
            ]
            &&& t.token_t != TokenType::Eof ==> crate::lexer::lexer_types::token_ok(t@)
        }
    }

    proof fn lemma_wf_view(&self)
        requires
            self.wf(),
        ensures
            stream_ok(self@),
    {
        self.lex.lemma_stream_ok();
        let t = self.lookahead.unwrap();
        if t.token_t != TokenType::Eof {
            let v = self@;
            let l = self.lex@;
            assert(v =~= seq![t@] + l);
            assert forall|i: int| 0 <= i < v.len() - 1 implies (#[trigger] v[i]).token_t
                != TokenType::Eof && crate::lexer::lexer_types::token_ok(v[i]) by {
                if i > 0 {
                    assert(v[i] == l[i - 1]);
                }
            }
        }
    }

    /// A parser at the start of `input`, holding its first token.
    pub fn new(input: Vec<u8>) -> (r: Self)
        ensures
            r@ == lex(input@),
    {
        let mut lex = Lexer::new(input);
        proof {
            crate::lexer::lexer_types::lemma_tokens_from_ok(
                input@,
                0,
                crate::lexer::lexer_types::LexerState::StartOfLine,
            );
        }
        let ghost all = lex@;
        let lookahead = Some(lex.scan());
        let r = Parser { lex, lookahead };
        proof {
            if all[0].token_t == TokenType::Eof {
                assert(all.len() == 1);
            } else {
                assert(all =~= seq![all[0]] + all.subrange(1, all.len() as int));
            }
        }
        r
    }

    /// The next token, which the parser always holds; nothing is taken.
    pub fn peek(&self) -> (r: Option<&Token>)
        ensures
            r matches Some(t) && t@ == self@[0],
    {
        proof {
            use_type_invariant(self);
        }
        self.lookahead.as_ref()
    }

    /// Takes the next token and loads the one after it (`Eof` stays once
    /// reached).
    pub fn advance(&mut self) -> (tok: Token)
        ensures
            tok@ == old(self)@[0],
            final(self)@ == stream_rest(old(self)@),
    {
        proof {
            use_type_invariant(&*self);
            self.lemma_wf_view();
        }
        let ghost l = self.lex@;
        proof {
            self.lex.lemma_stream_ok();
            crate::lexer::lexer_types::lemma_lex_empty();
        }
        let mut lex = Lexer::new(Vec::new());
        std::mem::swap(&mut lex, &mut self.lex);
        let next = lex.scan();
        proof {
            lex.lemma_stream_ok();
            if l[0].token_t == TokenType::Eof {
                assert(l.len() == 1);
            } else {
                assert(l.len() > 1);
            }
        }
        let mut taken = Some(next);
        std::mem::swap(&mut taken, &mut self.lookahead);
        self.lex = lex;
        match taken {
            Some(t) => t,
            None => Token::eof(),
        }
    }

    /// The kind of the next token.
    fn peek_type(&self) -> (k: TokenType)
        ensures
            k == self@[0].token_t,
    {
        match self.peek() {
            Some(t) => t.token_t,
            None => TokenType::Eof,
        }
    }

    /// A copy of the next token.
    fn peek_copy(&self) -> (t: Token)
        ensures
            t@ == self@[0],
    {
        match self.peek() {
            Some(t) => t.duplicate(),
            None => Token::eof(),
        }
    }

    /// Takes a token of kind `kind`, or reports that `expected` was due.
    fn expect_kind(&mut self, kind: TokenType, expected: &str) -> (r: Result<String, ParseError>)
        ensures
            match expect_spec(old(self)@, kind, expected@) {
                Outcome::Done(v, rest) => r matches Ok(s) && s@ == v && final(self)@ == rest,
                Outcome::Fail(e, rest) => r matches Err(err) && err@ == e && final(self)@ == rest,
                Outcome::Halt => false,
            },
    {
        proof {
            use_type_invariant(&*self);
            self.lemma_wf_view();
        }
        if self.peek_type() == kind {
            let tok = self.advance();
            Ok(token_string(tok))
        } else {
            Err(ParseError::UnexpectedToken { expected: expected.to_owned(), found: self.peek_copy() })
        }
    }

    /// Takes a depth token and gives its digits; any other token is an
    /// error, and nothing is taken.
    pub fn expect_depth(&mut self) -> (r: Result<String, ParseError>)
        ensures
            match expect_spec(old(self)@, TokenType::Depth, msg_depth()) {
                Outcome::Done(v, rest) => r matches Ok(s) && s@ == v && final(self)@ == rest,
                Outcome::Fail(e, rest) => r matches Err(err) && err@ == e && final(self)@ == rest,
                Outcome::Halt => false,
            },
    {
        self.expect_kind(TokenType::Depth, "depth value")
    }

    /// Takes an identifier and gives its characters; any other token is an
    /// error, and nothing is taken.
    pub fn expect_identifier(&mut self) -> (r: Result<String, ParseError>)
        ensures
            match expect_spec(old(self)@, TokenType::Identifier, msg_identifier()) {
                Outcome::Done(v, rest) => r matches Ok(s) && s@ == v && final(self)@ == rest,
                Outcome::Fail(e, rest) => r matches Err(err) && err@ == e && final(self)@ == rest,
                Outcome::Halt => false,
            },
    {
        self.expect_kind(TokenType::Identifier, "identifier")
    }

    /// Takes an `=`; any other token is an error, and nothing is taken.
    pub fn expect_assign(&mut self) -> (r: Result<(), ParseError>)
        ensures
            match expect_spec(old(self)@, TokenType::Assign, msg_assign()) {
                Outcome::Done(_, rest) => r is Ok && final(self)@ == rest,
                Outcome::Fail(e, rest) => r matches Err(err) && err@ == e && final(self)@ == rest,
                Outcome::Halt => false,
            },
    {
        match self.expect_kind(TokenType::Assign, "=") {
            Ok(_) => Ok(()),
            Err(e) => Err(e),
        }
    }

    /// Takes one token as an attribute value: a text is a string; an
    /// identifier is an integer, a float, a boolean or `null`, or else an
    /// invalid value; any other token is an error.
    pub fn parse_value(&mut self) -> (r: Result<Value, ParseError>)
        ensures
            match parse_value_spec(old(self)@) {
                Outcome::Done(v, rest) => r matches Ok(x) && x@ == v && final(self)@ == rest,
                Outcome::Fail(e, rest) => r matches Err(err) && err@ == e && final(self)@ == rest,
                Outcome::Halt => false,
            },
    {
        proof {
            use_type_invariant(&*self);
            self.lemma_wf_view();
        }
        let tok = self.advance();
        if tok.token_t == TokenType::Text {
            return Ok(Value::String(token_string(tok)));
        }
        if tok.token_t == TokenType::Identifier {
            let s = token_string(tok);
            let cs = chars_of(&s);
            if let Some(n) = parse_i64(&cs) {
                return Ok(Value::Integer(n));
            }
            if is_float_text(&cs) {
                return Ok(Value::Float(s));
            }
            let t = vec!['t', 'r', 'u', 'e'];
            let f = vec!['f', 'a', 'l', 's', 'e'];
            let n = vec!['n', 'u', 'l', 'l'];
            proof {
                assert(t@ =~= bool_text(true));
                assert(f@ =~= bool_text(false));
                assert(n@ =~= null_text());
            }
            if chars_equal(&cs, &t) {
                return Ok(Value::Boolean(true));
            }
            if chars_equal(&cs, &f) {
                return Ok(Value::Boolean(false));
            }
            if chars_equal(&cs, &n) {
                return Ok(Value::Null);
            }
            return Err(ParseError::InvalidValue { raw: s });
        }
        Err(
            ParseError::UnexpectedToken {
                expected: "attribute value (string, number, boolean, or null)".to_owned(),
                found: tok,
            },
        )
    }

    /// Takes `key = value`.
    pub fn parse_attribute(&mut self) -> (r: Result<Attribute, ParseError>)
        ensures
            match attribute_spec(old(self)@) {
                Outcome::Done(a, rest) => r matches Ok(x) && x@ == a && final(self)@ == rest,
                Outcome::Fail(e, rest) => r matches Err(err) && err@ == e && final(self)@ == rest,
                Outcome::Halt => false,
            },
    {
        let key = self.expect_identifier()?;
        self.expect_assign()?;
        let value = self.parse_value()?;
        Ok(Attribute { key, value })
    }

    /// Reads one line, its newline included. `None` where the depth's
    /// digits exceed `u32`.
    pub fn parse_line(&mut self) -> (r: Option<Result<(u32, Node), ParseError>>)
        ensures
            match parse_line_spec(old(self)@) {
                Outcome::Done((d, m), rest) => r matches Some(Ok((d2, n))) && d2 == d && n@ == m
                    && final(self)@ == rest,
                Outcome::Fail(e, rest) => r matches Some(Err(err)) && err@ == e && final(self)@
                    == rest,
                Outcome::Halt => r is None,
            },
    {
        let depth_str = match self.expect_depth() {
            Ok(s) => s,
            Err(e) => return Some(Err(e)),
        };
        let digits = chars_of(&depth_str);
        let depth = match parse_u32(&digits) {
            Some(d) => d,
            None => return None,
        };
        let name = match self.expect_identifier() {
            Ok(s) => s,
            Err(e) => return Some(Err(e)),
        };
        let ghost s2 = self@;
        let mut attrs: Vec<Attribute> = Vec::new();
        let mut content: Option<String> = None;
        assert(attrs_view(attrs@) =~= Seq::<AttributeView>::empty());
        assert(parse_line_spec(old(self)@) == line_after_name(depth, name@, s2));
        loop
            invariant_except_break
                line_items(self@, attrs_view(attrs@), content_view(content)) == line_items(
                    s2,
                    Seq::empty(),
                    None,
                ),
            invariant
                parse_line_spec(old(self)@) == line_after_name(depth, name@, s2),
            ensures
                parse_line_spec(old(self)@) == line_after_name(depth, name@, s2),
                line_items(s2, Seq::empty(), None) == Outcome::Done(
                    (attrs_view(attrs@), content_view(content)),
                    self@,
                ),
            decreases stream_measure(self@),
        {
            proof {
                use_type_invariant(&*self);
                self.lemma_wf_view();
                lemma_rest_measure(self@);
                lemma_attribute_measure(self@);
            }
            let ghost cur = self@;
            let ghost av = attrs_view(attrs@);
            let ghost cv = content_view(content);
            let t = self.peek_type();
            if t == TokenType::NewLine {
                self.advance();
                assert(line_items(cur, av, cv) == Outcome::Done((av, cv), self@));
                break;
            }
            if t == TokenType::Identifier && content.is_none() {
                let attr = match self.parse_attribute() {
                    Ok(a) => a,
                    Err(e) => {
                        assert(line_items(cur, av, cv) matches Outcome::Fail(e2, r) && e2 == e@ && r
                            == self@);
                        return Some(Err(e));
                    },
                };
                attrs.push(attr);
                assert(attrs_view(attrs@) =~= av.push(attrs@.last()@));
                assert(line_items(cur, av, cv) == line_items(self@, attrs_view(attrs@), cv));
            } else if t == TokenType::Text && content.is_none() {
                let tok = self.advance();
                content = Some(token_string(tok));
                assert(line_items(cur, av, cv) == line_items(self@, av, content_view(content)));
            } else {
                let msg = if content.is_some() {
                    "newline"
                } else {
                    "attribute, content, or newline"
                };
                let e = ParseError::UnexpectedToken { expected: msg.to_owned(), found: self.peek_copy() };
                assert(line_items(cur, av, cv) matches Outcome::Fail(e2, r) && e2 == e@ && r
                    == self@);
                return Some(Err(e));
            }
        }
        let node = Node { name, attrs, content, children: Vec::new() };
        assert(node@.children =~= Seq::<NodeView>::empty());
        Some(Ok((depth, node)))
    }

    /// Reads the rest of the input as one document. `None` where a depth's
    /// digits exceed `u32`.
    pub fn parse_checked(&mut self) -> (r: Option<Result<Document, ParseError>>)
        ensures
            r is None <==> parse_stream(old(self)@) is Halt,
            r matches Some(res) ==> parse_result_is(res, final(self)@, parse_stream(old(self)@)),
            r matches Some(Ok(doc)) ==> height(doc@) <= u32::MAX,
    {
        proof {
            crate::parser::document_rules::lemma_parsed_height(self@, Seq::empty());
        }
        let mut tree = TreeBuilder::new();
        loop
            invariant
                parse_from(self@, tree@) == parse_stream(old(self)@),
            ensures
                parse_stream(old(self)@) == finish_spec(tree@, self@),
            decreases stream_measure(self@),
        {
            proof {
                use_type_invariant(&*self);
                self.lemma_wf_view();
                lemma_line_measure(self@);
            }
            let ghost cur = self@;
            let ghost sv = tree@;
            if self.peek_type() == TokenType::Eof {
                assert(parse_from(cur, sv) == finish_spec(sv, cur));
                break;
            }
            assert(parse_from(cur, sv) == match parse_line_spec(cur) {
                Outcome::Done((d, m), s2) => match push_line_spec(sv, d, m) {
                    Ok(st) => parse_from(s2, st),
                    Err(e) => Outcome::Fail(e, s2),
                },
                Outcome::Fail(e, r) => Outcome::Fail(e, r),
                Outcome::Halt => Outcome::Halt,
            });
            let (depth, node) = match self.parse_line() {
                Some(Ok(line)) => line,
                Some(Err(e)) => return Some(Err(e)),
                None => return None,
            };
            match tree.push_line(depth, node) {
                Ok(()) => {},
                Err(e) => return Some(Err(e)),
            }
        }
        Some(tree.finish())
    }

    /// Reads the rest of the input as one document.
    ///
    /// Not defined where a line's depth has more digits than a `u32` holds
    /// (see `parse_checked`).
    pub fn parse(&mut self) -> (r: Result<Document, ParseError>)
        requires
            !(parse_stream(old(self)@) is Halt),
        ensures
            parse_result_is(r, final(self)@, parse_stream(old(self)@)),
            r matches Ok(doc) ==> height(doc@) <= u32::MAX,
    {
        match self.parse_checked() {
            Some(r) => r,
            None => {
                assert(false);
                Err(ParseError::EmptyInput)
            },
        }
    }
}

} // verus!
