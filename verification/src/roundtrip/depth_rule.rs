//! The depth rule over whole documents: which sequences of lines the parser
//! accepts, the tree it builds from them, and the error it gives otherwise;
//! and that the serializer's lines always obey the rule.

use vstd::prelude::*;
use crate::ast::syntax_tree_types::{
    NodeView, flatten, flatten_children, line_node, lines_text, with_child,
};
use crate::errors::error_types::ParseErrorView;
use crate::lexer::lexer_types::{TokenType, eof_token};
use crate::parser::parser_types::{
    Outcome, collapse, collapse_one, depth_zero_token, finish_spec, lemma_collapse_len,
    msg_second_root, parse_from, parse_input, push_line_spec,
};
use crate::roundtrip::{ascii_bytes, line_ok};
use crate::roundtrip::line_parsing::lemma_parse_line;
use crate::roundtrip::text_tokens::{line_tokens, lines_tokens, lemma_toks_lines};
use crate::roundtrip::tree_building::{lemma_collapse_compose, lemma_process_append, process};

verus! {

/// Lines with their nodes cut to what a line holds (no children).
pub open spec fn strip(lines: Seq<(nat, NodeView)>) -> Seq<(nat, NodeView)> {
    lines.map_values(|p: (nat, NodeView)| (p.0, line_node(p.1)))
}

/// The lines of the tree under `t`, whose root stands at `depth`, each as
/// its line holds it.
pub open spec fn tree_lines(t: NodeView, depth: nat) -> Seq<(nat, NodeView)> {
    strip(flatten(t, depth))
}

/// The depth rule at line `i`: the first line is at depth 0, and every
/// later line at depth 1 to one more than the line before it.
pub open spec fn depth_step_ok(lines: Seq<(nat, NodeView)>, i: int) -> bool {
    if i == 0 {
        lines[0].0 == 0
    } else {
        1 <= lines[i].0 <= lines[i - 1].0 + 1
    }
}

/// Every line obeys the depth rule.
pub open spec fn depths_ok(lines: Seq<(nat, NodeView)>) -> bool {
    forall|i: int| 0 <= i < lines.len() ==> #[trigger] depth_step_ok(lines, i)
}

/// Lines that the lexer reads back as written: well-formed lines at depths
/// below `u32::MAX`.
pub open spec fn lines_readable(lines: Seq<(nat, NodeView)>) -> bool {
    forall|i: int| 0 <= i < lines.len() ==> line_ok(#[trigger] lines[i].1) && lines[i].0 < u32::MAX
}

/// The error for line `j`, the first that breaks the depth rule.
pub open spec fn depth_error(lines: Seq<(nat, NodeView)>, j: int) -> ParseErrorView {
    if j == 0 {
        ParseErrorView::DepthJump { current_depth: 0, target_depth: lines[0].0 as u32 }
    } else if lines[j].0 == 0 {
        ParseErrorView::UnexpectedToken { expected: msg_second_root(), found: depth_zero_token() }
    } else {
        ParseErrorView::DepthJump {
            current_depth: (lines[j - 1].0 + 1) as u32,
            target_depth: lines[j].0 as u32,
        }
    }
}

/// The tree that a stack of open lines stands for once every line is
/// attached.
pub open spec fn stack_tree(stack: Seq<NodeView>) -> NodeView {
    collapse(stack, 1)[0]
}

proof fn lemma_strip_add(a: Seq<(nat, NodeView)>, b: Seq<(nat, NodeView)>)
    ensures
        strip(a + b) == strip(a) + strip(b),
{
    assert(strip(a + b) =~= strip(a) + strip(b));
}

/// Adding `c` as the last child of `m` adds the lines of `c`, one level
/// down, after those of `m`.
proof fn lemma_with_child_lines(m: NodeView, c: NodeView, d: nat)
    ensures
        tree_lines(with_child(m, c), d) == tree_lines(m, d) + tree_lines(c, d + 1),
{
    let w = with_child(m, c);
    let cs = m.children.push(c);
    assert(cs.subrange(0, cs.len() - 1) =~= m.children);
    assert(flatten_children(cs, d + 1) == flatten_children(m.children, d + 1) + flatten(c, d + 1));
    assert(flatten(w, d) == seq![(d, w)] + flatten_children(cs, d + 1));
    assert(flatten(m, d) == seq![(d, m)] + flatten_children(m.children, d + 1));
    lemma_strip_add(seq![(d, w)], flatten_children(cs, d + 1));
    lemma_strip_add(flatten_children(m.children, d + 1), flatten(c, d + 1));
    lemma_strip_add(seq![(d, m)], flatten_children(m.children, d + 1));
    assert(strip(seq![(d, w)]) =~= strip(seq![(d, m)]));
}

/// A node pushed onto a stack of `z.len()` open lines ends up as the last
/// line of the tree, at depth `z.len()`.
proof fn lemma_push_lines(z: Seq<NodeView>, n: NodeView)
    requires
        z.len() >= 1,
    ensures
        collapse(z.push(n), 1).len() == 1,
        tree_lines(stack_tree(z.push(n)), 0) == tree_lines(stack_tree(z), 0) + tree_lines(
            n,
            z.len() as nat,
        ),
    decreases z.len(),
{
    let zd = z.drop_last();
    let w = with_child(z.last(), n);
    assert(z.push(n).drop_last() =~= z);
    assert(collapse_one(z.push(n)) =~= zd.push(w));
    lemma_collapse_len(z.push(n), 1);
    if z.len() == 1 {
        assert(zd.push(w) =~= seq![w]);
        lemma_collapse_len(seq![w], 1);
        lemma_collapse_len(z, 1);
        lemma_with_child_lines(z[0], n, 0);
    } else {
        lemma_push_lines(zd, w);
        lemma_push_lines(zd, z.last());
        assert(zd.push(z.last()) =~= z);
        lemma_with_child_lines(z.last(), n, (z.len() - 1) as nat);
        assert(tree_lines(stack_tree(zd), 0) + tree_lines(w, (z.len() - 1) as nat) =~= (
        tree_lines(stack_tree(zd), 0) + tree_lines(z.last(), (z.len() - 1) as nat)) + tree_lines(
            n,
            z.len() as nat,
        ));
    }
}

/// After a prefix that obeys the depth rule, the stack holds one line per
/// level down to the last line, and stands for a tree whose lines are the
/// prefix.
proof fn lemma_process_prefix(lines: Seq<(nat, NodeView)>, i: int)
    requires
        lines_readable(lines),
        1 <= i <= lines.len(),
        forall|k: int| 0 <= k < i ==> #[trigger] depth_step_ok(lines, k),
    ensures
        process(Seq::empty(), lines.take(i)) matches Ok(y) && y.len() == lines[i - 1].0 + 1
            && tree_lines(stack_tree(y), 0) == strip(lines.take(i)),
    decreases i,
{
    let l = lines[i - 1];
    let ln = line_node(l.1);
    assert(line_ok(l.1) && l.0 < u32::MAX);
    assert(depth_step_ok(lines, i - 1));
    if i == 1 {
        let one = lines.take(1);
        assert(one.skip(1) =~= Seq::<(nat, NodeView)>::empty());
        lemma_collapse_len(Seq::<NodeView>::empty(), 0);
        assert(push_line_spec(Seq::empty(), 0, ln) == Ok::<Seq<NodeView>, ParseErrorView>(
            seq![ln],
        ));
        assert(one[0] == l);
        assert(process(seq![ln], one.skip(1)) == Ok::<Seq<NodeView>, ParseErrorView>(seq![ln]));
        assert(process(Seq::empty(), one) == Ok::<Seq<NodeView>, ParseErrorView>(seq![ln]));
        lemma_collapse_len(seq![ln], 1);
        assert(ln.children =~= Seq::<NodeView>::empty());
        assert(flatten_children(ln.children, 1) =~= Seq::<(nat, NodeView)>::empty());
        assert(flatten(ln, 0) =~= seq![(0nat, ln)]);
        assert(tree_lines(ln, 0) =~= strip(one));
    } else {
        lemma_process_prefix(lines, i - 1);
        let prev = lines.take(i - 1);
        let y = process(Seq::empty(), prev)->Ok_0;
        assert(lines.take(i) =~= prev + seq![l]);
        lemma_process_append(Seq::empty(), prev, seq![l]);
        let d = l.0;
        assert(1 <= d <= y.len());
        assert(line_ok(lines[i - 2].1));
        assert((y.len() as u32) as int == y.len());
        let z = collapse(y, d);
        lemma_collapse_len(y, d);
        assert(push_line_spec(y, d as u32, ln) == Ok::<Seq<NodeView>, ParseErrorView>(z.push(ln)));
        assert(seq![l].skip(1) =~= Seq::<(nat, NodeView)>::empty());
        assert(seq![l][0] == l);
        assert(process(z.push(ln), seq![l].skip(1)) == Ok::<Seq<NodeView>, ParseErrorView>(
            z.push(ln),
        ));
        assert(process(y, seq![l]) == Ok::<Seq<NodeView>, ParseErrorView>(z.push(ln)));
        lemma_push_lines(z, ln);
        lemma_collapse_compose(y, d, 1);
        assert(ln.children =~= Seq::<NodeView>::empty());
        assert(flatten_children(ln.children, d + 1) =~= Seq::<(nat, NodeView)>::empty());
        assert(flatten(ln, d) =~= seq![(d, ln)]);
        lemma_strip_add(prev, seq![l]);
        assert(tree_lines(ln, d) =~= strip(seq![l]));
    }
}

/// Well-formed lines at depths that a `u32` holds.
spec fn lines_parsable(lines: Seq<(nat, NodeView)>) -> bool {
    forall|i: int| 0 <= i < lines.len() ==> line_ok(#[trigger] lines[i].1) && lines[i].0 <= u32::MAX
}

/// Reading the tokens of readable lines runs the stack through them: the
/// lines' tree at the end, or the first error.
proof fn lemma_parse_lines_result(lines: Seq<(nat, NodeView)>, stack: Seq<NodeView>)
    requires
        lines_parsable(lines),
    ensures
        match process(stack, lines) {
            Ok(y) => parse_from(lines_tokens(lines) + seq![eof_token()], stack) == finish_spec(
                y,
                seq![eof_token()],
            ),
            Err(e) => parse_from(lines_tokens(lines) + seq![eof_token()], stack) matches Outcome::Fail(
                e2,
                _,
            ) && e2 == e,
        },
    decreases lines.len(),
{
    if lines.len() == 0 {
        assert(lines_tokens(lines) + seq![eof_token()] =~= seq![eof_token()]);
    } else {
        let l = lines[0];
        let rest = lines.skip(1);
        assert(line_ok(l.1) && l.0 <= u32::MAX);
        assert(lines_parsable(rest)) by {
            assert forall|i: int| 0 <= i < rest.len() implies line_ok(#[trigger] rest[i].1)
                && rest[i].0 <= u32::MAX by {
                assert(rest[i] == lines[i + 1]);
            }
        }
        let r = lines_tokens(rest) + seq![eof_token()];
        let s = lines_tokens(lines) + seq![eof_token()];
        assert(s =~= line_tokens(l.0, l.1) + r);
        lemma_parse_line(l.0, l.1, r);
        assert(s[0].token_t == TokenType::Depth);
        let pushed = push_line_spec(stack, l.0 as u32, line_node(l.1));
        if pushed is Ok {
            lemma_parse_lines_result(rest, pushed->Ok_0);
        }
    }
}

/// Lines that obey the depth rule make a document: the parser accepts
/// their text, reads it to the end, and the lines of the tree it builds are
/// the lines given, in order and at their depths.
pub proof fn theorem_depth_rule_accepts(lines: Seq<(nat, NodeView)>)
    requires
        lines.len() > 0,
        lines_readable(lines),
        depths_ok(lines),
    ensures
        parse_input(ascii_bytes(lines_text(lines))) matches Outcome::Done(root, rest) && rest
            == seq![eof_token()] && tree_lines(root, 0) == strip(lines),
{
    assert forall|k: int| 0 <= k < lines.len() implies #[trigger] depth_step_ok(lines, k) by {}
    lemma_process_prefix(lines, lines.len() as int);
    assert(lines.take(lines.len() as int) =~= lines);
    let y = process(Seq::empty(), lines)->Ok_0;
    assert(lines_parsable(lines));
    lemma_toks_lines(lines);
    lemma_parse_lines_result(lines, Seq::empty());
    lemma_collapse_len(y, 1);
}

/// Lines whose line `j` is the first to break the depth rule are refused
/// with the error of that line: a first line at depth `d > 0` jumps from 0
/// to `d`; a later line at depth 0 is a second root; a later line more than
/// one level below the line before it jumps from that line's depth plus one.
pub proof fn theorem_depth_rule_refuses(lines: Seq<(nat, NodeView)>, j: int)
    requires
        lines_readable(lines),
        0 <= j < lines.len(),
        !depth_step_ok(lines, j),
        forall|k: int| 0 <= k < j ==> #[trigger] depth_step_ok(lines, k),
    ensures
        parse_input(ascii_bytes(lines_text(lines))) matches Outcome::Fail(e, _) && e == depth_error(
            lines,
            j,
        ),
{
    let l = lines[j];
    assert(line_ok(l.1) && l.0 < u32::MAX);
    let upto = lines.take(j + 1);
    let after = lines.skip(j + 1);
    assert(lines =~= upto + after);
    lemma_process_append(Seq::empty(), upto, after);
    if j == 0 {
        assert(upto =~= seq![l]);
        assert(push_line_spec(Seq::empty(), l.0 as u32, line_node(l.1)) == Err::<
            Seq<NodeView>,
            ParseErrorView,
        >(depth_error(lines, j)));
    } else {
        lemma_process_prefix(lines, j);
        let prev = lines.take(j);
        assert(upto =~= prev + seq![l]);
        lemma_process_append(Seq::empty(), prev, seq![l]);
        let y = process(Seq::empty(), prev)->Ok_0;
        assert(line_ok(lines[j - 1].1));
        assert((y.len() as u32) as int == y.len());
        assert(push_line_spec(y, l.0 as u32, line_node(l.1)) == Err::<
            Seq<NodeView>,
            ParseErrorView,
        >(depth_error(lines, j)));
    }
    assert(lines_parsable(lines));
    lemma_toks_lines(lines);
    lemma_parse_lines_result(lines, Seq::empty());
}

/// The depths of the lines under `n` at `depth`: the first at `depth`, and
/// each later one at least one deeper than `depth` and at most one deeper
/// than the line before it.
proof fn lemma_flatten_steps(n: NodeView, depth: nat)
    ensures
        flatten(n, depth)[0].0 == depth,
        forall|i: int|
            1 <= i < flatten(n, depth).len() ==> depth + 1 <= (#[trigger] flatten(n, depth)[i]).0
                <= flatten(n, depth)[i - 1].0 + 1,
    decreases n,
{
    lemma_children_steps(n.children, depth + 1);
    let f = flatten(n, depth);
    let rest = flatten_children(n.children, depth + 1);
    assert(f == seq![(depth, n)] + rest);
    assert forall|i: int| 1 <= i < f.len() implies depth + 1 <= (#[trigger] f[i]).0 <= f[i - 1].0
        + 1 by {
        assert(f[i] == rest[i - 1]);
        if i > 1 {
            assert(f[i - 1] == rest[i - 2]);
        }
    }
}

/// The depths of the lines of the trees under `cs` at `depth`: none above
/// `depth`, the first at `depth`, and each later one at most one deeper
/// than the line before it.
proof fn lemma_children_steps(cs: Seq<NodeView>, depth: nat)
    ensures
        flatten_children(cs, depth).len() > 0 ==> flatten_children(cs, depth)[0].0 == depth,
        forall|i: int|
            0 <= i < flatten_children(cs, depth).len() ==> depth <= (#[trigger] flatten_children(
                cs,
                depth,
            )[i]).0,
        forall|i: int|
            1 <= i < flatten_children(cs, depth).len() ==> (#[trigger] flatten_children(
                cs,
                depth,
            )[i]).0 <= flatten_children(cs, depth)[i - 1].0 + 1,
    decreases cs,
{
    if cs.len() > 0 {
        let prev = cs.subrange(0, cs.len() - 1);
        let c = cs[cs.len() - 1];
        lemma_children_steps(prev, depth);
        lemma_flatten_steps(c, depth);
        let a = flatten_children(prev, depth);
        let b = flatten(c, depth);
        let f = flatten_children(cs, depth);
        assert(f == a + b);
        assert forall|i: int| 0 <= i < f.len() implies depth <= (#[trigger] f[i]).0 by {
            if i < a.len() {
                assert(f[i] == a[i]);
            } else {
                assert(f[i] == b[i - a.len()]);
            }
        }
        assert forall|i: int| 1 <= i < f.len() implies (#[trigger] f[i]).0 <= f[i - 1].0 + 1 by {
            if i < a.len() {
                assert(f[i] == a[i]);
                assert(f[i - 1] == a[i - 1]);
            } else if i == a.len() {
                assert(f[i] == b[0]);
                assert(f[i - 1] == a[i - 1]);
            } else {
                assert(f[i] == b[i - a.len()]);
                assert(f[i - 1] == b[i - 1 - a.len()]);
            }
        }
        if a.len() > 0 {
            assert(f[0] == a[0]);
        } else {
            assert(f[0] == b[0]);
        }
    }
}

/// The serializer writes lines that obey the depth rule: the root at depth
/// 0, and every later line at depth 1 up to one more than the line before
/// it.
pub proof fn theorem_serialized_depths(root: NodeView)
    ensures
        depths_ok(flatten(root, 0)),
        depths_ok(tree_lines(root, 0)),
{
    lemma_flatten_steps(root, 0);
    let f = flatten(root, 0);
    assert forall|i: int| 0 <= i < f.len() implies #[trigger] depth_step_ok(f, i) by {
        if i > 0 {
            assert(1 <= f[i].0 <= f[i - 1].0 + 1);
        }
    }
    let t = tree_lines(root, 0);
    assert forall|i: int| 0 <= i < t.len() implies #[trigger] depth_step_ok(t, i) by {
        assert(depth_step_ok(f, i));
        assert(t[i].0 == f[i].0);
        if i > 0 {
            assert(t[i - 1].0 == f[i - 1].0);
        }
    }
}

} // verus!
