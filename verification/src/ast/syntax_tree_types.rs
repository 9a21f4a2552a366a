//! The tree that a TSF document describes, and its canonical serialization.

use vstd::prelude::*;
use crate::text::{decimal, push_char, push_decimal, push_signed_decimal, push_str, signed_decimal};

verus! {

// ---------------------------------------------------------------------------
// Types
// ---------------------------------------------------------------------------

/// The value of an attribute.
///
/// A float is held as the text of its literal, as it was written: any text
/// that `f64::from_str` accepts stands for the number that it denotes.
#[derive(Debug, Clone, PartialEq)]
pub enum Value {
    String(String),
    Integer(i64),
    Float(String),
    Boolean(bool),
    Null,
}

/// A `key=value` pair of a node.
#[derive(Debug, Clone, PartialEq)]
pub struct Attribute {
    pub key: String,
    pub value: Value,
}

/// A node: its name, its attributes in order, its optional text content and
/// its children in order.
#[derive(Debug, PartialEq)]
pub struct Node {
    pub name: String,
    pub attrs: Vec<Attribute>,
    pub content: Option<String>,
    pub children: Vec<Node>,
}

/// A document: one tree.
#[derive(Debug, PartialEq)]
pub struct Document {
    pub root: Node,
}

// ---------------------------------------------------------------------------
// Mathematical model
// ---------------------------------------------------------------------------

pub enum ValueView {
    String(Seq<char>),
    Integer(i64),
    Float(Seq<char>),
    Boolean(bool),
    Null,
}

pub struct AttributeView {
    pub key: Seq<char>,
    pub value: ValueView,
}

pub struct NodeView {
    pub name: Seq<char>,
    pub attrs: Seq<AttributeView>,
    pub content: Option<Seq<char>>,
    pub children: Seq<NodeView>,
}

impl View for Value {
    type V = ValueView;

    open spec fn view(&self) -> ValueView {
        match self {
            Value::String(s) => ValueView::String(s@),
            Value::Integer(n) => ValueView::Integer(*n),
            Value::Float(t) => ValueView::Float(t@),
            Value::Boolean(b) => ValueView::Boolean(*b),
            Value::Null => ValueView::Null,
        }
    }
}

impl View for Attribute {
    type V = AttributeView;

    open spec fn view(&self) -> AttributeView {
        AttributeView { key: self.key@, value: self.value@ }
    }
}

pub open spec fn attrs_view(attrs: Seq<Attribute>) -> Seq<AttributeView> {
    attrs.map_values(|a: Attribute| a@)
}

pub open spec fn content_view(content: Option<String>) -> Option<Seq<char>> {
    match content {
        Some(s) => Some(s@),
        None => None,
    }
}

pub open spec fn node_view(n: Node) -> NodeView
    decreases n,
{
    NodeView {
        name: n.name@,
        attrs: attrs_view(n.attrs@),
        content: content_view(n.content),
        children: Seq::new(
            n.children@.len(),
            |i: int|
                if 0 <= i < n.children@.len() {
                    proof {
                        assert(decreases_to!(n => n.children));
                        assert(decreases_to!(n.children => n.children@));
                        assert(decreases_to!(n.children@ => n.children@[i]));
                    }
                    node_view(n.children@[i])
                } else {
                    NodeView {
                        name: Seq::empty(),
                        attrs: Seq::empty(),
                        content: None,
                        children: Seq::empty(),
                    }
                },
        ),
    }
}

impl View for Node {
    type V = NodeView;

    open spec fn view(&self) -> NodeView {
        node_view(*self)
    }
}

pub open spec fn nodes_view(nodes: Seq<Node>) -> Seq<NodeView> {
    nodes.map_values(|n: Node| n@)
}

impl View for Document {
    type V = NodeView;

    open spec fn view(&self) -> NodeView {
        self.root@
    }
}

/// The node without its children: what one line of a document says.
pub open spec fn line_node(n: NodeView) -> NodeView {
    NodeView { children: Seq::empty(), ..n }
}

/// `n` with `c` added as its last child.
pub open spec fn with_child(n: NodeView, c: NodeView) -> NodeView {
    NodeView { children: n.children.push(c), ..n }
}

/// The number of levels below `n`.
pub open spec fn height(n: NodeView) -> nat
    decreases n,
{
    if n.children.len() == 0 {
        0
    } else {
        1 + max_height(n.children)
    }
}

/// The greatest height among `cs`.
pub open spec fn max_height(cs: Seq<NodeView>) -> nat
    decreases cs,
{
    if cs.len() == 0 {
        0
    } else {
        let rest = max_height(cs.subrange(0, cs.len() - 1));
        let last = height(cs[cs.len() - 1]);
        if rest < last {
            last
        } else {
            rest
        }
    }
}

pub proof fn lemma_max_height(cs: Seq<NodeView>, i: int)
    requires
        0 <= i < cs.len(),
    ensures
        height(cs[i]) <= max_height(cs),
    decreases cs.len(),
{
    if i < cs.len() - 1 {
        lemma_max_height(cs.subrange(0, cs.len() - 1), i);
    }
}

// ---------------------------------------------------------------------------
// Canonical text
// ---------------------------------------------------------------------------

/// How one character of a quoted string is written.
pub open spec fn escape_char(c: char) -> Seq<char> {
    if c == '"' {
        seq!['\\', '"']
    } else if c == '\\' {
        seq!['\\', '\\']
    } else if c == '\n' {
        seq!['\\', 'n']
    } else if c == '\t' {
        seq!['\\', 't']
    } else {
        seq![c]
    }
}

pub open spec fn escape(s: Seq<char>) -> Seq<char>
    decreases s.len(),
{
    if s.len() == 0 {
        Seq::empty()
    } else {
        escape(s.drop_last()) + escape_char(s.last())
    }
}

pub open spec fn quoted(s: Seq<char>) -> Seq<char> {
    seq!['"'] + escape(s) + seq!['"']
}

pub open spec fn bool_text(b: bool) -> Seq<char> {
    if b {
        seq!['t', 'r', 'u', 'e']
    } else {
        seq!['f', 'a', 'l', 's', 'e']
    }
}

pub open spec fn null_text() -> Seq<char> {
    seq!['n', 'u', 'l', 'l']
}

/// The text of a value.
pub open spec fn value_text(v: ValueView) -> Seq<char> {
    match v {
        ValueView::String(s) => quoted(s),
        ValueView::Integer(n) => signed_decimal(n as int),
        ValueView::Float(t) => t,
        ValueView::Boolean(b) => bool_text(b),
        ValueView::Null => null_text(),
    }
}

/// The text of an attribute: `key=value`.
pub open spec fn attribute_text(a: AttributeView) -> Seq<char> {
    a.key + seq!['='] + value_text(a.value)
}

/// Each attribute preceded by a space.
pub open spec fn attrs_text(attrs: Seq<AttributeView>) -> Seq<char>
    decreases attrs.len(),
{
    if attrs.len() == 0 {
        Seq::empty()
    } else {
        attrs_text(attrs.drop_last()) + seq![' '] + attribute_text(attrs.last())
    }
}

pub open spec fn content_text(content: Option<Seq<char>>) -> Seq<char> {
    match content {
        Some(s) => seq![' '] + quoted(s),
        None => Seq::empty(),
    }
}

/// The line of a node at `depth`: `depth name [attrs] [content]` and a newline.
pub open spec fn line_text(depth: nat, n: NodeView) -> Seq<char> {
    decimal(depth) + seq![' '] + n.name + attrs_text(n.attrs) + content_text(n.content) + seq![
        '\n',
    ]
}

/// The lines of the tree under `n`, in preorder, each with its depth.
pub open spec fn flatten(n: NodeView, depth: nat) -> Seq<(nat, NodeView)>
    decreases n,
{
    seq![(depth, n)] + flatten_children(n.children, depth + 1)
}

/// The lines of the trees under `cs`, one tree after the other.
pub open spec fn flatten_children(cs: Seq<NodeView>, depth: nat) -> Seq<(nat, NodeView)>
    decreases cs,
{
    if cs.len() == 0 {
        Seq::empty()
    } else {
        flatten_children(cs.subrange(0, cs.len() - 1), depth) + flatten(cs[cs.len() - 1], depth)
    }
}

pub open spec fn lines_text(lines: Seq<(nat, NodeView)>) -> Seq<char>
    decreases lines.len(),
{
    if lines.len() == 0 {
        Seq::empty()
    } else {
        lines_text(lines.drop_last()) + line_text(lines.last().0, lines.last().1)
    }
}

/// The canonical text of the tree under `n`, whose root stands at `depth`.
pub open spec fn tree_text(n: NodeView, depth: nat) -> Seq<char> {
    lines_text(flatten(n, depth))
}

pub proof fn lemma_lines_text_append(a: Seq<(nat, NodeView)>, b: Seq<(nat, NodeView)>)
    ensures
        lines_text(a + b) == lines_text(a) + lines_text(b),
    decreases b.len(),
{
    if b.len() == 0 {
        assert(a + b =~= a);
        assert(lines_text(b) =~= Seq::<char>::empty());
        assert(lines_text(a) + lines_text(b) =~= lines_text(a));
    } else {
        lemma_lines_text_append(a, b.drop_last());
        assert((a + b).drop_last() =~= a + b.drop_last());
        assert((a + b).last() == b.last());
        assert(lines_text(a + b) =~= lines_text(a) + lines_text(b));
    }
}

// ---------------------------------------------------------------------------
// Serialization
// ---------------------------------------------------------------------------

/// Appends `s` in quotes, escaping `"`, `\`, newline and tab.
fn push_quoted(out: &mut String, s: &String)
    ensures
        final(out)@ == old(out)@ + quoted(s@),
{
    push_char(out, '"');
    let ghost base = out@;
    for c in it: s.chars()
        invariant
            it.seq() == s@,
            out@ == base + escape(it.seq().take(it.index() as int)),
    {
        let ghost done = it.seq().take(it.index() as int);
        if c == '"' {
            push_char(out, '\\');
            push_char(out, '"');
        } else if c == '\\' {
            push_char(out, '\\');
            push_char(out, '\\');
        } else if c == '\n' {
            push_char(out, '\\');
            push_char(out, 'n');
        } else if c == '\t' {
            push_char(out, '\\');
            push_char(out, 't');
        } else {
            push_char(out, c);
        }
        proof {
            let next = it.seq().take(it.index() + 1);
            assert(next.drop_last() =~= done);
            assert(out@ =~= base + escape(next));
        }
    }
    assert(s@.take(s@.len() as int) =~= s@);
    push_char(out, '"');
    assert(out@ =~= old(out)@ + quoted(s@));
}

fn push_value(out: &mut String, v: &Value)
    ensures
        final(out)@ == old(out)@ + value_text(v@),
{
    match v {
        Value::String(s) => push_quoted(out, s),
        Value::Integer(n) => push_signed_decimal(out, *n),
        Value::Float(t) => push_str(out, t.as_str()),
        Value::Boolean(b) => {
            if *b {
                push_str(out, "true");
                proof {
                    reveal_strlit("true");
                }
            } else {
                push_str(out, "false");
                proof {
                    reveal_strlit("false");
                }
            }
            assert(out@ =~= old(out)@ + value_text(v@));
        },
        Value::Null => {
            push_str(out, "null");
            proof {
                reveal_strlit("null");
            }
            assert(out@ =~= old(out)@ + value_text(v@));
        },
    }
}

fn push_attribute(out: &mut String, a: &Attribute)
    ensures
        final(out)@ == old(out)@ + attribute_text(a@),
{
    push_str(out, a.key.as_str());
    push_char(out, '=');
    push_value(out, &a.value);
    assert(out@ =~= old(out)@ + attribute_text(a@));
}

/// Appends the line of `node` at `depth`.
fn push_line(out: &mut String, node: &Node, depth: usize)
    ensures
        final(out)@ == old(out)@ + line_text(depth as nat, node@),
{
    push_decimal(out, depth as u64);
    push_char(out, ' ');
    push_str(out, node.name.as_str());
    let ghost head = out@;
    let mut i: usize = 0;
    while i < node.attrs.len()
        invariant
            0 <= i <= node.attrs.len(),
            out@ == head + attrs_text(attrs_view(node.attrs@.take(i as int))),
        decreases node.attrs.len() - i,
    {
        push_char(out, ' ');
        push_attribute(out, &node.attrs[i]);
        proof {
            let next = attrs_view(node.attrs@.take(i + 1));
            assert(next.drop_last() =~= attrs_view(node.attrs@.take(i as int)));
            assert(next.last() == node.attrs@[i as int]@);
            assert(out@ =~= head + attrs_text(next));
        }
        i = i + 1;
    }
    assert(node.attrs@.take(i as int) =~= node.attrs@);
    let ghost mid = out@;
    match &node.content {
        Some(c) => {
            push_char(out, ' ');
            push_quoted(out, c);
        },
        None => {},
    }
    assert(out@ =~= mid + content_text(node@.content));
    push_char(out, '\n');
    assert(out@ =~= old(out)@ + line_text(depth as nat, node@));
}

/// Appends the lines of the tree under `node`, whose root stands at `depth`.
fn write_tree(out: &mut String, node: &Node, depth: usize)
    requires
        depth + height(node@) <= usize::MAX,
    ensures
        final(out)@ == old(out)@ + tree_text(node@, depth as nat),
    decreases node,
{
    push_line(out, node, depth);
    let ghost head = out@;
    let ghost cs = node@.children;
    let mut i: usize = 0;
    while i < node.children.len()
        invariant
            0 <= i <= node.children.len(),
            cs == node@.children,
            cs.len() == node.children.len(),
            depth + height(node@) <= usize::MAX,
            out@ == head + lines_text(flatten_children(cs.take(i as int), depth as nat + 1)),
        decreases node.children.len() - i,
    {
        proof {
            assert(cs[i as int] == node.children@[i as int]@);
            lemma_max_height(cs, i as int);
            assert(decreases_to!(node => node.children));
            assert(decreases_to!(node.children => node.children@));
            assert(decreases_to!(node.children@ => node.children@[i as int]));
        }
        write_tree(out, &node.children[i], depth + 1);
        proof {
            let prev = cs.take(i as int);
            let next = cs.take(i + 1);
            assert(next.subrange(0, next.len() - 1) =~= prev);
            assert(next[next.len() - 1] == cs[i as int]);
            lemma_lines_text_append(
                flatten_children(prev, depth as nat + 1),
                flatten(cs[i as int], depth as nat + 1),
            );
        }
        i = i + 1;
    }
    proof {
        assert(cs.take(i as int) =~= cs);
        lemma_lines_text_append(
            seq![(depth as nat, node@)],
            flatten_children(cs, depth as nat + 1),
        );
        assert(lines_text(seq![(depth as nat, node@)]) =~= line_text(depth as nat, node@)) by {
            let one = seq![(depth as nat, node@)];
            assert(one.drop_last() =~= Seq::<(nat, NodeView)>::empty());
            assert(one.last() == (depth as nat, node@));
            assert(lines_text(one.drop_last()) =~= Seq::<char>::empty());
        }
    }
}

impl Value {
    /// The text of the value: a string in quotes with `"`, `\`, newline and
    /// tab escaped; an integer in decimal; `true`, `false` or `null`. A float
    /// is written as the literal text it holds (`1.0` stays `1.0`); writing
    /// the shortest text of its `f64` is left to the caller, since this
    /// library holds no floating-point number.
    pub fn to_string(&self) -> (s: String)
        ensures
            s@ == value_text(self@),
    {
        let mut s = String::new();
        push_value(&mut s, self);
        assert(s@ =~= value_text(self@));
        s
    }
}

impl Attribute {
    /// The text of the attribute: `key=value`.
    pub fn to_string(&self) -> (s: String)
        ensures
            s@ == attribute_text(self@),
    {
        let mut s = String::new();
        push_attribute(&mut s, self);
        assert(s@ =~= attribute_text(self@));
        s
    }
}

impl Node {
    /// The canonical text of the tree under this node, taken as the root:
    /// one line per node in preorder, each starting with its depth.
    pub fn to_string(&self) -> (s: String)
        requires
            height(self@) <= usize::MAX,
        ensures
            s@ == tree_text(self@, 0),
    {
        let mut s = String::new();
        write_tree(&mut s, self, 0);
        assert(s@ =~= tree_text(self@, 0));
        s
    }
}

impl Document {
    /// The canonical text of the document. Floats are written as the
    /// literal text they hold (see `Value::to_string`).
    pub fn to_string(&self) -> (s: String)
        requires
            height(self@) <= usize::MAX,
        ensures
            s@ == tree_text(self@, 0),
    {
        self.root.to_string()
    }
}


fn copy_value(v: &Value) -> (r: Value)
    ensures
        r@ == v@,
{
    match v {
        Value::String(s) => Value::String(s.clone()),
        Value::Integer(n) => Value::Integer(*n),
        Value::Float(t) => Value::Float(t.clone()),
        Value::Boolean(b) => Value::Boolean(*b),
        Value::Null => Value::Null,
    }
}

impl Clone for Node {
    /// A deep copy of the tree under this node.
    fn clone(&self) -> (r: Node)
        ensures
            r@ == self@,
        decreases self,
    {
        let mut attrs: Vec<Attribute> = Vec::new();
        let mut i: usize = 0;
        while i < self.attrs.len()
            invariant
                0 <= i <= self.attrs.len(),
                attrs_view(attrs@) =~= attrs_view(self.attrs@.take(i as int)),
            decreases self.attrs.len() - i,
        {
            let a = &self.attrs[i];
            attrs.push(Attribute { key: a.key.clone(), value: copy_value(&a.value) });
            proof {
                assert(attrs_view(self.attrs@.take(i + 1)) =~= attrs_view(
                    self.attrs@.take(i as int),
                ).push(self.attrs@[i as int]@));
            }
            i = i + 1;
        }
        assert(self.attrs@.take(i as int) =~= self.attrs@);
        let mut children: Vec<Node> = Vec::new();
        let mut j: usize = 0;
        while j < self.children.len()
            invariant
                0 <= j <= self.children.len(),
                children.len() == j,
                forall|k: int| 0 <= k < j ==> (#[trigger] children@[k])@ == self.children@[k]@,
            decreases self.children.len() - j,
        {
            proof {
                assert(decreases_to!(self => self.children));
                assert(decreases_to!(self.children => self.children@));
                assert(decreases_to!(self.children@ => self.children@[j as int]));
            }
            let c = self.children[j].clone();
            children.push(c);
            j = j + 1;
        }
        let content = match &self.content {
            Some(c) => Some(c.clone()),
            None => None,
        };
        let r = Node { name: self.name.clone(), attrs, content, children };
        assert(r@.children =~= self@.children);
        r
    }
}

impl Clone for Document {
    /// A deep copy of the document.
    fn clone(&self) -> (r: Document)
        ensures
            r@ == self@,
    {
        Document { root: self.root.clone() }
    }
}

} // verus!
