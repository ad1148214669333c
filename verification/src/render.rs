//! Renderer: the specification of serializing a node and its subtree into
//! a markup string, and of the human-readable debug dump.
//!
//! Rendering is pure: no node changes during it. A node with an empty tag
//! passes its content through verbatim. Otherwise the opening tag carries
//! each stored attribute as ` name="value"`, then come the content and the
//! children (each preceded by the separator), and the closing tag — unless
//! the node is single-tag, in which case a trailing separator stands in its
//! place, even when the node has children. A childless node that is not
//! single-tag closes with no separator before the closing tag.

use vstd::prelude::*;

use crate::tree::NodeView;
use crate::tree::hgt;

verus! {

/// What one attribute contributes to an opening tag: ` name="value"`.
pub open spec fn render_attr(k: Seq<char>, v: Seq<char>) -> Seq<char> {
    seq![' '] + k + seq!['=', '"'] + v + seq!['"']
}

/// The attribute fragment of an opening tag, in stored order.
pub open spec fn render_attrs(m: Seq<(Seq<char>, Seq<char>)>) -> Seq<char>
    decreases m.len(),
{
    if m.len() == 0 {
        Seq::empty()
    } else {
        render_attrs(m.drop_last()) + render_attr(m.last().0, m.last().1)
    }
}

/// The rendering of node `i` of the arena, with `sep` between fragments.
pub open spec fn render_node(s: Seq<NodeView>, i: int, sep: Seq<char>) -> Seq<char>
    decreases hgt(s, i), 1nat, 0nat,
{
    if !(0 <= i < s.len()) {
        Seq::empty()
    } else {
        let n = s[i];
        if n.tag.len() == 0 {
            n.content
        } else {
            let body = seq!['<'] + n.tag + render_attrs(n.attrs) + seq!['>'] + n.content
                + render_children(s, n.children, sep, n.height);
            if n.onetag {
                body + sep
            } else if n.children.len() > 0 {
                body + sep + seq!['<', '/'] + n.tag + seq!['>']
            } else {
                body + seq!['<', '/'] + n.tag + seq!['>']
            }
        }
    }
}

/// The children's fragments, each preceded by the separator. The height
/// guard keeps the recursion well founded; a well-formed arena always
/// satisfies it.
pub open spec fn render_children(s: Seq<NodeView>, cs: Seq<int>, sep: Seq<char>, h: nat) -> Seq<
    char,
>
    decreases h, 0nat, cs.len(),
{
    if cs.len() == 0 {
        Seq::empty()
    } else {
        let rendered = if hgt(s, cs.last()) < h {
            render_node(s, cs.last(), sep)
        } else {
            Seq::empty()
        };
        render_children(s, cs.drop_last(), sep, h) + sep + rendered
    }
}

/// The decimal digit characters of a number.
pub open spec fn digit_char(d: nat) -> char {
    if d == 0 {
        '0'
    } else if d == 1 {
        '1'
    } else if d == 2 {
        '2'
    } else if d == 3 {
        '3'
    } else if d == 4 {
        '4'
    } else if d == 5 {
        '5'
    } else if d == 6 {
        '6'
    } else if d == 7 {
        '7'
    } else if d == 8 {
        '8'
    } else {
        '9'
    }
}

/// The decimal rendering of a number, most significant digit first.
pub open spec fn dec_digits(n: nat) -> Seq<char>
    decreases n,
{
    if n < 10 {
        seq![digit_char(n)]
    } else {
        dec_digits(n / 10) + seq![digit_char(n % 10)]
    }
}

/// The debug dump of one node: its tag, whether a parent is present, and —
/// only when non-empty — its content, attributes and child count.
pub open spec fn debug_view(n: NodeView) -> Seq<char> {
    let head = seq!['E', 'l', 'e', 'm', 'e', 'n', 't', '[', '"'] + n.tag + seq!['"', ']', '\n'];
    let par = if n.parent is Some {
        seq![' ', ' ', 'p', 'a', 'r', 'e', 'n', 't', ':', ' ', 'H', 'A', 'S', '\n']
    } else {
        seq![' ', ' ', 'p', 'a', 'r', 'e', 'n', 't', ':', ' ', 'N', 'o', 'n', 'e', '\n']
    };
    let cont = if n.content.len() > 0 {
        seq![' ', ' ', 'c', 'o', 'n', 't', 'e', 'n', 't', ':', ' ', '"'] + n.content + seq![
            '"',
            '\n',
        ]
    } else {
        Seq::empty()
    };
    let ats = if n.attrs.len() > 0 {
        seq![' ', ' ', 'k', 'w', 's', ':'] + render_attrs(n.attrs) + seq!['\n']
    } else {
        Seq::empty()
    };
    let ch = if n.children.len() > 0 {
        seq![' ', ' ', 'c', 'h', 'i', 'l', 'd', 'r', 'e', 'n', '<'] + dec_digits(n.children.len())
            + seq!['>', '\n']
    } else {
        Seq::empty()
    };
    head + par + cont + ats + ch
}

} // verus!
