//! The canonical text of a document reads back as the same document.

pub mod lexing;
pub mod text_tokens;
pub mod line_parsing;
pub mod tree_building;
pub mod depth_rule;

use vstd::prelude::*;
use crate::ast::syntax_tree_types::{AttributeView, NodeView, ValueView, flatten, height, tree_text};
use crate::lexer::lexer_types::eof_token;
use crate::parser::parser_types::{Outcome, collapse, lemma_collapse_len, parse_input};
use crate::roundtrip::text_tokens::{lemma_lines_ascii, lemma_toks_lines};
use crate::roundtrip::tree_building::{
    lemma_build, lemma_flatten_depths, lemma_parse_lines, process,
};
use crate::text::{float_char, is_float_literal, lemma_float_literal_chars, spec_parse_i64};

verus! {

/// The bytes of an ASCII text, one per character.
pub open spec fn ascii_bytes(t: Seq<char>) -> Seq<u8> {
    t.map_values(|c: char| c as u8)
}

/// A character that may stand in a name, a key or an unquoted value: ASCII,
/// and not a space, newline, `=` or `"`.
pub open spec fn word_char(c: char) -> bool {
    &&& (c as int) < 128
    &&& c != ' '
    &&& c != '\n'
    &&& c != '='
    &&& c != '"'
}

/// A name, a key or an unquoted value: one or more word characters.
pub open spec fn is_word(w: Seq<char>) -> bool {
    w.len() > 0 && forall|i: int| 0 <= i < w.len() ==> word_char(#[trigger] w[i])
}

/// An ASCII text: what a quoted text reads back as, since the lexer reads
/// each byte as one character. Quotes, backslashes, newlines and tabs are
/// escaped.
pub open spec fn ascii_text(t: Seq<char>) -> bool {
    forall|i: int| 0 <= i < t.len() ==> (#[trigger] t[i] as int) < 128
}

/// A value whose text reads back as the same value: an ASCII string;
/// any integer, boolean or null; a float whose text is a float literal and
/// no integer (`42` would read back as an integer).
pub open spec fn value_ok(v: ValueView) -> bool {
    match v {
        ValueView::String(s) => ascii_text(s),
        ValueView::Float(t) => is_float_literal(t) && spec_parse_i64(t) is None,
        _ => true,
    }
}

pub open spec fn attribute_ok(a: AttributeView) -> bool {
    is_word(a.key) && value_ok(a.value)
}

/// A node whose line reads back as the same node: a word for a name, words
/// for keys, values that read back, and ASCII content.
pub open spec fn line_ok(n: NodeView) -> bool {
    &&& is_word(n.name)
    &&& forall|i: int| 0 <= i < n.attrs.len() ==> attribute_ok(#[trigger] n.attrs[i])
    &&& match n.content {
        Some(s) => ascii_text(s),
        None => true,
    }
}


/// The text of a float literal is a word.
pub proof fn lemma_float_word(t: Seq<char>)
    requires
        is_float_literal(t),
    ensures
        is_word(t),
{
    lemma_float_literal_chars(t);
    assert forall|i: int| 0 <= i < t.len() implies word_char(#[trigger] t[i]) by {
        assert(float_char(t[i]));
    }
}

/// A tree whose canonical text reads back as the same tree: every node's
/// line is well formed, and the tree is less than `u32::MAX` levels deep.
pub open spec fn well_formed_tree(root: NodeView) -> bool {
    &&& forall|i: int| 0 <= i < flatten(root, 0).len() ==> line_ok(#[trigger] flatten(root, 0)[i].1)
    &&& height(root) < u32::MAX
}

/// Parsing the canonical text of a well-formed tree gives back that tree,
/// and leaves nothing but the end of input.
pub proof fn theorem_parse_canonical_text(root: NodeView)
    requires
        well_formed_tree(root),
    ensures
        parse_input(ascii_bytes(tree_text(root, 0))) == Outcome::Done(root, seq![eof_token()]),
{
    let lines = flatten(root, 0);
    lemma_toks_lines(lines);
    let bound = 1 + height(root);
    lemma_build(root, 0, Seq::empty(), bound);
    lemma_flatten_depths(root, 0);
    assert forall|i: int| 0 <= i < lines.len() implies line_ok(#[trigger] lines[i].1) && lines[i].0
        <= u32::MAX by {
        assert(lines[i].0 <= height(root));
    }
    lemma_parse_lines(lines, Seq::empty());
    let y = process(Seq::empty(), lines)->Ok_0;
    lemma_collapse_len(Seq::<NodeView>::empty(), 0);
    assert(collapse(y, 1) == seq![root]);
}

proof fn lemma_ascii_range(c: char)
    requires
        (c as int) < 128,
    ensures
        '\0' <= c <= '\u{7f}',
{
    assert(('\u{7f}' as int) == 127);
}

/// The canonical text of a well-formed tree is ASCII, so that its UTF-8
/// bytes are its characters one by one.
pub proof fn lemma_canonical_text_bytes(root: NodeView)
    requires
        well_formed_tree(root),
    ensures
        vstd::utf8::encode_utf8(tree_text(root, 0)) == ascii_bytes(tree_text(root, 0)),
{
    let t = tree_text(root, 0);
    lemma_lines_ascii(flatten(root, 0));
    assert(ascii_text(t));
    assert(vstd::utf8::is_ascii_chars(t)) by {
        assert forall|i: int| 0 <= i < t.len() implies '\0' <= #[trigger] t[i] <= '\u{7f}' by {
            assert((t[i] as int) < 128);
            lemma_ascii_range(t[i]);
        }
    }
    vstd::utf8::is_ascii_chars_encode_utf8(t);
    assert(vstd::utf8::encode_utf8(t) =~= ascii_bytes(t));
}

/// Reading back what the serializer writes: the UTF-8 bytes of the
/// canonical text of a well-formed tree parse as that tree.
pub proof fn theorem_parse_serialized(root: NodeView)
    requires
        well_formed_tree(root),
    ensures
        parse_input(vstd::utf8::encode_utf8(tree_text(root, 0))) == Outcome::Done(
            root,
            seq![eof_token()],
        ),
{
    lemma_canonical_text_bytes(root);
    theorem_parse_canonical_text(root);
}

/// The text that a parse reproduces: for an input that is the canonical
/// text of a well-formed tree, the canonical text of the parsed tree is the
/// input again.
pub proof fn theorem_canonical_text_reproduced(root: NodeView)
    requires
        well_formed_tree(root),
    ensures
        parse_input(ascii_bytes(tree_text(root, 0))) matches Outcome::Done(parsed, _)
            && ascii_bytes(tree_text(parsed, 0)) == ascii_bytes(tree_text(root, 0)),
{
    theorem_parse_canonical_text(root);
}

/// One text per tree: well-formed trees with the same canonical text are the
/// same tree.
pub proof fn theorem_canonical_text_unique(a: NodeView, b: NodeView)
    requires
        well_formed_tree(a),
        well_formed_tree(b),
        tree_text(a, 0) == tree_text(b, 0),
    ensures
        a == b,
{
    theorem_parse_canonical_text(a);
    theorem_parse_canonical_text(b);
}

} // verus!
