//! What escaping a quoted string keeps: every character, so that the text
//! between the quotes gives the string back.

use vstd::prelude::*;
use crate::ast::syntax_tree_types::escape;
use crate::roundtrip::lexing::lemma_escape_front;

verus! {

/// The characters that the text between two quotes stands for: a backslash
/// and `n` a newline, a backslash and `t` a tab, a backslash and any other
/// character that character; every other character itself.
pub open spec fn unquote(t: Seq<char>) -> Seq<char>
    decreases t.len(),
{
    if t.len() == 0 {
        Seq::empty()
    } else if t[0] == '\\' && t.len() >= 2 {
        let c = t[1];
        seq![
            if c == 'n' {
                '\n'
            } else if c == 't' {
                '\t'
            } else {
                c
            },
        ] + unquote(t.skip(2))
    } else {
        seq![t[0]] + unquote(t.skip(1))
    }
}

/// Escaping loses nothing: for every string, whatever its characters
/// (ASCII or not), the escaped text stands for the string again.
pub proof fn theorem_escape_lossless(s: Seq<char>)
    ensures
        unquote(escape(s)) == s,
    decreases s.len(),
{
    if s.len() == 0 {
        assert(escape(s) =~= Seq::<char>::empty());
    } else {
        let c = s[0];
        let rest = s.skip(1);
        lemma_escape_front(s);
        theorem_escape_lossless(rest);
        let er = escape(rest);
        let t = escape(s);
        if c == '"' || c == '\\' || c == '\n' || c == '\t' {
            let x = if c == '"' {
                '"'
            } else if c == '\\' {
                '\\'
            } else if c == '\n' {
                'n'
            } else {
                't'
            };
            assert(t =~= seq!['\\', x] + er);
            assert(t[0] == '\\' && t[1] == x);
            assert(t.skip(2) =~= er);
        } else {
            assert(t =~= seq![c] + er);
            assert(t[0] == c);
            assert(t.skip(1) =~= er);
        }
        assert(s =~= seq![c] + rest);
    }
}

/// Every character other than a quote, a backslash, a newline or a tab is
/// written as itself: a string of such characters is its own escaped text.
pub proof fn theorem_escape_keeps_plain(s: Seq<char>)
    requires
        forall|i: int|
            0 <= i < s.len() ==> #[trigger] s[i] != '"' && s[i] != '\\' && s[i] != '\n' && s[i]
                != '\t',
    ensures
        escape(s) == s,
    decreases s.len(),
{
    if s.len() > 0 {
        let p = s.drop_last();
        assert forall|i: int| 0 <= i < p.len() implies #[trigger] p[i] != '"' && p[i] != '\\'
            && p[i] != '\n' && p[i] != '\t' by {
            assert(p[i] == s[i]);
        }
        theorem_escape_keeps_plain(p);
        assert(s.last() == s[s.len() - 1]);
        assert(s =~= p.push(s.last()));
    }
}

} // verus!
