//! How the parser's stack of open lines rebuilds a tree from its lines.

use vstd::prelude::*;
use crate::ast::syntax_tree_types::{
    NodeView, flatten, flatten_children, height, lemma_max_height, line_node, max_height,
    with_child,
};
use crate::errors::error_types::ParseErrorView;
use crate::lexer::lexer_types::{TokenType, eof_token};
use crate::parser::parser_types::{
    collapse, collapse_one, finish_spec, lemma_collapse_len, parse_from, push_line_spec,
};
use crate::roundtrip::line_ok;
use crate::roundtrip::line_parsing::lemma_parse_line;
use crate::roundtrip::text_tokens::{line_tokens, lines_tokens};

verus! {

/// The stack after the lines `lines`, one after the other, or the first
/// error.
pub open spec fn process(stack: Seq<NodeView>, lines: Seq<(nat, NodeView)>) -> Result<
    Seq<NodeView>,
    ParseErrorView,
>
    decreases lines.len(),
{
    if lines.len() == 0 {
        Ok(stack)
    } else {
        match push_line_spec(stack, lines[0].0 as u32, line_node(lines[0].1)) {
            Ok(next) => process(next, lines.skip(1)),
            Err(e) => Err(e),
        }
    }
}

pub proof fn lemma_process_append(
    stack: Seq<NodeView>,
    a: Seq<(nat, NodeView)>,
    b: Seq<(nat, NodeView)>,
)
    ensures
        process(stack, a + b) == match process(stack, a) {
            Ok(next) => process(next, b),
            Err(e) => Err(e),
        },
    decreases a.len(),
{
    if a.len() == 0 {
        assert(a + b =~= b);
    } else {
        assert((a + b)[0] == a[0]);
        assert((a + b).skip(1) =~= a.skip(1) + b);
        match push_line_spec(stack, a[0].0 as u32, line_node(a[0].1)) {
            Ok(next) => {
                lemma_process_append(next, a.skip(1), b);
            },
            Err(e) => {},
        }
    }
}

pub proof fn lemma_collapse_compose(x: Seq<NodeView>, a: nat, b: nat)
    requires
        b <= a,
    ensures
        collapse(collapse(x, a), b) == collapse(x, b),
    decreases x.len(),
{
    if x.len() > a {
        lemma_collapse_compose(collapse_one(x), a, b);
    }
}

/// Attaching the top of `s + [m, c]` down to `s + [m]` makes `c` the last
/// child of `m`.
proof fn lemma_collapse_attach(s: Seq<NodeView>, m: NodeView, c: NodeView)
    ensures
        collapse(s.push(m).push(c), s.len() + 1) == s.push(with_child(m, c)),
{
    let x = s.push(m).push(c);
    assert(x.drop_last() =~= s.push(m));
    assert(s.push(m).drop_last() =~= s);
    assert(collapse_one(x) =~= s.push(with_child(m, c)));
    lemma_collapse_len(s.push(with_child(m, c)), s.len() + 1);
}

/// The lines of the tree under `n`, taken from a stack of at least `depth`
/// open lines, leave a stack that attaches down to the stack cut to `depth`
/// lines with `n` on top.
pub proof fn lemma_build(n: NodeView, depth: nat, x: Seq<NodeView>, bound: nat)
    requires
        depth + 1 + height(n) <= bound,
        bound <= u32::MAX,
        depth <= x.len() <= bound,
        depth == 0 ==> x.len() == 0,
    ensures
        process(x, flatten(n, depth)) matches Ok(y) && depth + 1 <= y.len() <= bound && collapse(
            y,
            depth + 1,
        ) == collapse(x, depth).push(n),
    decreases n,
{
    let first = seq![(depth, n)];
    let rest = flatten_children(n.children, depth + 1);
    assert(flatten(n, depth) == first + rest);
    lemma_process_append(x, first, rest);
    lemma_collapse_len(x, depth);
    let s = collapse(x, depth);
    let ln = line_node(n);
    assert(push_line_spec(x, depth as u32, ln) == Ok::<Seq<NodeView>, ParseErrorView>(s.push(ln)));
    assert(first.skip(1) =~= Seq::<(nat, NodeView)>::empty());
    assert(first[0] == (depth, n));
    assert(process(s.push(ln), first.skip(1)) == Ok::<Seq<NodeView>, ParseErrorView>(s.push(ln)));
    assert(process(x, first) == Ok::<Seq<NodeView>, ParseErrorView>(s.push(ln)));
    lemma_collapse_len(s.push(ln), depth + 1);
    assert forall|i: int| 0 <= i < n.children.len() implies depth + 1 + 1 + height(
        #[trigger] n.children[i],
    ) <= bound by {
        lemma_max_height(n.children, i);
    }
    lemma_build_children(n.children, depth + 1, s, ln, s.push(ln), bound);
    assert(ln.children + n.children =~= n.children);
    assert(NodeView { children: ln.children + n.children, ..ln } == n);
}

/// The lines of the trees under `cs`, at `depth`, under the open line `m`,
/// make them the last children of `m`.
pub proof fn lemma_build_children(
    cs: Seq<NodeView>,
    depth: nat,
    s: Seq<NodeView>,
    m: NodeView,
    x: Seq<NodeView>,
    bound: nat,
)
    requires
        depth >= 1,
        s.len() + 1 == depth,
        depth <= x.len() <= bound,
        bound <= u32::MAX,
        collapse(x, depth) == s.push(m),
        forall|i: int| 0 <= i < cs.len() ==> depth + 1 + height(#[trigger] cs[i]) <= bound,
    ensures
        process(x, flatten_children(cs, depth)) matches Ok(y) && depth <= y.len() <= bound
            && collapse(y, depth) == s.push(NodeView { children: m.children + cs, ..m }),
    decreases cs,
{
    if cs.len() == 0 {
        assert(flatten_children(cs, depth) =~= Seq::<(nat, NodeView)>::empty());
        assert(m.children + cs =~= m.children);
        assert(NodeView { children: m.children + cs, ..m } == m);
    } else {
        let prev = cs.subrange(0, cs.len() - 1);
        let c = cs[cs.len() - 1];
        assert forall|i: int| 0 <= i < prev.len() implies depth + 1 + height(#[trigger] prev[i])
            <= bound by {
            assert(prev[i] == cs[i]);
        }
        lemma_build_children(prev, depth, s, m, x, bound);
        let x2 = process(x, flatten_children(prev, depth))->Ok_0;
        let m2 = NodeView { children: m.children + prev, ..m };
        lemma_process_append(x, flatten_children(prev, depth), flatten(c, depth));
        lemma_build(c, depth, x2, bound);
        let y = process(x2, flatten(c, depth))->Ok_0;
        lemma_collapse_compose(y, depth + 1, depth);
        lemma_collapse_attach(s, m2, c);
        assert((m.children + prev).push(c) =~= m.children + cs);
    }
}

/// The depths of the lines under `n` at `depth` run from `depth` to
/// `depth + height(n)`.
pub proof fn lemma_flatten_depths(n: NodeView, depth: nat)
    ensures
        forall|i: int|
            0 <= i < flatten(n, depth).len() ==> depth <= (#[trigger] flatten(n, depth)[i]).0
                <= depth + height(n),
    decreases n,
{
    lemma_flatten_children_depths(n.children, depth + 1);
    let f = flatten(n, depth);
    let rest = flatten_children(n.children, depth + 1);
    assert(f == seq![(depth, n)] + rest);
    assert forall|i: int| 0 <= i < f.len() implies depth <= (#[trigger] f[i]).0 <= depth + height(
        n,
    ) by {
        if i > 0 {
            assert(f[i] == rest[i - 1]);
        }
    }
}

pub proof fn lemma_flatten_children_depths(cs: Seq<NodeView>, depth: nat)
    ensures
        forall|i: int|
            0 <= i < flatten_children(cs, depth).len() ==> depth <= (#[trigger] flatten_children(
                cs,
                depth,
            )[i]).0 && (#[trigger] flatten_children(cs, depth)[i]).0 + 1 <= depth + max_height(cs)
                + 1,
    decreases cs,
{
    if cs.len() > 0 {
        let prev = cs.subrange(0, cs.len() - 1);
        let c = cs[cs.len() - 1];
        lemma_flatten_children_depths(prev, depth);
        lemma_flatten_depths(c, depth);
        let a = flatten_children(prev, depth);
        let b = flatten(c, depth);
        let f = flatten_children(cs, depth);
        assert(f == a + b);
        assert forall|i: int| 0 <= i < f.len() implies depth <= (#[trigger] f[i]).0 && f[i].0 + 1
            <= depth + max_height(cs) + 1 by {
            if i < a.len() {
                assert(f[i] == a[i]);
            } else {
                assert(f[i] == b[i - a.len()]);
            }
        }
    }
}

/// Reading the tokens of canonical lines runs the stack through them.
pub proof fn lemma_parse_lines(lines: Seq<(nat, NodeView)>, stack: Seq<NodeView>)
    requires
        forall|i: int| 0 <= i < lines.len() ==> line_ok(#[trigger] lines[i].1) && lines[i].0
            <= u32::MAX,
        process(stack, lines) is Ok,
    ensures
        parse_from(lines_tokens(lines) + seq![eof_token()], stack) == finish_spec(
            process(stack, lines)->Ok_0,
            seq![eof_token()],
        ),
    decreases lines.len(),
{
    if lines.len() == 0 {
        assert(lines_tokens(lines) + seq![eof_token()] =~= seq![eof_token()]);
    } else {
        let l = lines[0];
        let rest = lines.skip(1);
        assert(line_ok(l.1) && l.0 <= u32::MAX);
        assert forall|i: int| 0 <= i < rest.len() implies line_ok(#[trigger] rest[i].1)
            && rest[i].0 <= u32::MAX by {
            assert(rest[i] == lines[i + 1]);
        }
        let r = lines_tokens(rest) + seq![eof_token()];
        let s = lines_tokens(lines) + seq![eof_token()];
        assert(s =~= line_tokens(l.0, l.1) + r);
        lemma_parse_line(l.0, l.1, r);
        let next = push_line_spec(stack, l.0 as u32, line_node(l.1))->Ok_0;
        lemma_parse_lines(rest, next);
        assert(s[0].token_t == TokenType::Depth);
    }
}

} // verus!
