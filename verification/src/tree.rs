//! The node/tree data model: an arena of nodes addressed by small copyable
//! handles, with bidirectionally consistent parent/child links.
//!
//! Shared ownership of nodes (the tree holds its children, while callers may
//! hold handles to the same nodes) is expressed by keeping every node in an
//! [`Arena`] and addressing it through an [`Element`] index handle. Equality
//! of handles is identity: two handles are equal exactly when they address
//! the same arena slot.
//!
//! Every node carries a `height` bound: a well-formed arena has each child's
//! height strictly below its parent's. That makes the child relation
//! manifestly acyclic, so rendering terminates; `add` maintains the bound,
//! raising the heights of the new parent's ancestors as needed, and rejects
//! an attachment that would close a cycle.

use vstd::prelude::*;

use crate::codec::escape_ascii;
use crate::codec::escaped;
use crate::codec::push_char;
use crate::codec::un_escape_ascii;
use crate::codec::unescaped;
use crate::render::debug_view;
use crate::render::dec_digits;
use crate::render::digit_char;
use crate::render::render_attrs;
use crate::render::render_children;
use crate::render::render_node;

verus! {

/// A handle to a node in an [`Arena`]. Copyable; two handles are equal
/// exactly when they address the same node (identity, not structure).
#[derive(Clone, Copy, PartialEq, Eq, Structural, Debug)]
pub struct Element {
    pub(crate) id: usize,
}

impl View for Element {
    type V = int;

    closed spec fn view(&self) -> int {
        self.id as int
    }
}

/// Law: equality of handles is identity — two handles are equal exactly
/// when they address the same node, whatever that node holds.
pub proof fn lemma_handle_equality(a: Element, b: Element)
    ensures
        (a == b) <==> (a@ == b@),
        a@ >= 0,
{
}

/// The mathematical model of one node: its links into the arena, its data,
/// its flags, and its height bound.
#[verifier::ext_equal]
pub struct NodeView {
    pub parent: Option<int>,
    pub children: Seq<int>,
    pub tag: Seq<char>,
    pub content: Seq<char>,
    pub attrs: Seq<(Seq<char>, Seq<char>)>,
    pub onetag: bool,
    pub pre: bool,
    pub height: nat,
}

struct Node {
    parent_idx: Option<usize>,
    children: Vec<Element>,
    tag: String,
    content: String,
    kws: Vec<(String, String)>,
    onetag: bool,
    pre: bool,
    height: usize,
}

impl View for Node {
    type V = NodeView;

    closed spec fn view(&self) -> NodeView {
        NodeView {
            parent: match self.parent_idx {
                Some(p) => Some(p as int),
                None => None,
            },
            children: ids_view(self.children@),
            tag: self.tag@,
            content: self.content@,
            attrs: attrs_view(self.kws@),
            onetag: self.onetag,
            pre: self.pre,
            height: self.height as nat,
        }
    }
}

/// The arena holding every node; handles index into it. Nodes are never
/// removed from the arena (a detached node stays alive, as callers may
/// still hold handles to it), only unlinked.
pub struct Arena {
    nodes: Vec<Node>,
}

impl View for Arena {
    type V = Seq<NodeView>;

    closed spec fn view(&self) -> Seq<NodeView> {
        self.nodes@.map_values(|n: Node| n@)
    }
}

/// The `k`-th child entry of node `i` is a valid link: in range, pointing
/// back at `i`, and of strictly smaller height.
pub open spec fn valid_child(s: Seq<NodeView>, i: int, k: int) -> bool {
    let c = s[i].children[k];
    &&& 0 <= c < s.len()
    &&& s[c].parent == Some(i)
    &&& s[c].height < s[i].height
}

/// Attribute maps keep their keys unique.
pub open spec fn attrs_wf(m: Seq<(Seq<char>, Seq<char>)>) -> bool {
    forall|k1: int, k2: int|
        0 <= k1 < k2 < m.len() ==> (#[trigger] m[k1]).0 != (#[trigger] m[k2]).0
}

/// Node `i` is consistent with the rest of the arena: every child link is
/// valid and duplicate-free, its parent (if any) holds it as a child, and
/// its attribute keys are unique.
pub open spec fn node_ok(s: Seq<NodeView>, i: int) -> bool {
    &&& forall|k: int| 0 <= k < s[i].children.len() ==> #[trigger] valid_child(s, i, k)
    &&& forall|k1: int, k2: int|
        0 <= k1 < k2 < s[i].children.len() ==> #[trigger] s[i].children[k1]
            != #[trigger] s[i].children[k2]
    &&& match s[i].parent {
        Some(p) => 0 <= p < s.len() && s[p].children.contains(i),
        None => true,
    }
    &&& attrs_wf(s[i].attrs)
}

/// The arena invariant: every node is consistent. Every operation of this
/// module requires and preserves it.
pub open spec fn wf(s: Seq<NodeView>) -> bool {
    forall|i: int| 0 <= i < s.len() ==> #[trigger] node_ok(s, i)
}

/// A node whose links and height agree with `n`'s (only data fields differ).
pub open spec fn same_links(a: NodeView, b: NodeView) -> bool {
    &&& a.parent == b.parent
    &&& a.children == b.children
    &&& a.height == b.height
}

proof fn lemma_wf_push(s: Seq<NodeView>, n: NodeView)
    requires
        wf(s),
        n.children.len() == 0,
        n.parent is None,
        attrs_wf(n.attrs),
    ensures
        wf(s.push(n)),
{
    let t = s.push(n);
    assert forall|i: int| 0 <= i < t.len() implies node_ok(t, i) by {
        if i < s.len() {
            assert(node_ok(s, i));
            assert(t[i] == s[i]);
            assert forall|k: int| 0 <= k < t[i].children.len() implies valid_child(t, i, k) by {
                assert(valid_child(s, i, k));
                assert(t[s[i].children[k]] == s[s[i].children[k]]);
            }
            match t[i].parent {
                Some(p) => {
                    assert(t[p] == s[p]);
                },
                None => {},
            }
        } else {
            assert(t[i] == n);
        }
    }
}

proof fn lemma_wf_update_data(s: Seq<NodeView>, i: int, n: NodeView)
    requires
        wf(s),
        0 <= i < s.len(),
        same_links(s[i], n),
        attrs_wf(n.attrs),
    ensures
        wf(s.update(i, n)),
{
    let t = s.update(i, n);
    assert forall|j: int| 0 <= j < t.len() implies node_ok(t, j) by {
        assert(node_ok(s, j));
        assert(t[j].children == s[j].children);
        assert(t[j].parent == s[j].parent);
        assert forall|k: int| 0 <= k < t[j].children.len() implies valid_child(t, j, k) by {
            assert(valid_child(s, j, k));
            let c = s[j].children[k];
            assert(t[c].parent == s[c].parent && t[c].height == s[c].height);
        }
        match t[j].parent {
            Some(p) => {
                assert(t[p].children == s[p].children);
            },
            None => {},
        }
    }
}

/// The height of node `i`, or zero for an index out of range.
pub open spec fn hgt(s: Seq<NodeView>, i: int) -> nat {
    if 0 <= i < s.len() {
        s[i].height
    } else {
        0
    }
}

/// `c` lies on the parent chain of `i` (`i` itself included). The walk is
/// well defined because heights strictly increase along the chain.
pub open spec fn on_chain(s: Seq<NodeView>, i: int, c: int) -> bool
    decreases (if hgt(s, i) <= usize::MAX { usize::MAX - hgt(s, i) } else { 0int }),
{
    i == c || (0 <= i < s.len() && match s[i].parent {
        Some(p) => if hgt(s, i) < hgt(s, p) <= usize::MAX {
            on_chain(s, p, c)
        } else {
            false
        },
        None => false,
    })
}

/// The walk that raises ancestors' heights, starting at `i` with required
/// height `need` and requiring one more at each step up, stays within
/// `usize`. It stops early at an ancestor already high enough.
pub open spec fn bump_fits(s: Seq<NodeView>, i: int, need: int) -> bool
    decreases (if hgt(s, i) <= usize::MAX { usize::MAX - hgt(s, i) } else { 0int }),
{
    if !(0 <= i < s.len()) {
        true
    } else if s[i].height >= need {
        true
    } else if need > usize::MAX {
        false
    } else {
        match s[i].parent {
            Some(p) => if hgt(s, i) < hgt(s, p) <= usize::MAX {
                bump_fits(s, p, need + 1)
            } else {
                true
            },
            None => true,
        }
    }
}

/// When `add` succeeds: both handles are in range, the child is detached,
/// it does not lie on the parent's ancestor chain (attaching it would close
/// a cycle), and raising the ancestors' heights stays within `usize`.
pub open spec fn can_attach(s: Seq<NodeView>, p: int, c: int) -> bool {
    &&& 0 <= p < s.len() && 0 <= c < s.len()
    &&& s[c].parent is None
    &&& !on_chain(s, p, c)
    &&& bump_fits(s, p, s[c].height + 1int)
}

/// How a successful attachment changes the arena: the child is appended to
/// the parent's children, its back-reference is set, heights may only grow,
/// and every other link and datum is untouched.
pub open spec fn attached(s: Seq<NodeView>, t: Seq<NodeView>, p: int, c: int) -> bool {
    &&& t.len() == s.len()
    &&& forall|j: int|
        0 <= j < s.len() ==> (#[trigger] t[j]).tag == s[j].tag && t[j].content == s[j].content
            && t[j].attrs == s[j].attrs && t[j].onetag == s[j].onetag && t[j].pre == s[j].pre
            && t[j].height >= s[j].height
    &&& forall|j: int| 0 <= j < s.len() && j != p ==> (#[trigger] t[j]).children == s[j].children
    &&& forall|j: int| 0 <= j < s.len() && j != c ==> (#[trigger] t[j]).parent == s[j].parent
    &&& t[p].children == s[p].children.push(c)
    &&& t[c].parent == Some(p)
}

proof fn lemma_on_chain_height(s: Seq<NodeView>, i: int, c: int)
    requires
        wf(s),
        on_chain(s, i, c),
    ensures
        hgt(s, c) >= hgt(s, i),
    decreases (if hgt(s, i) <= usize::MAX { usize::MAX - hgt(s, i) } else { 0int }),
{
    if i == c {
    } else {
        match s[i].parent {
            Some(p) => {
                if hgt(s, i) < hgt(s, p) <= usize::MAX {
                    lemma_on_chain_height(s, p, c);
                }
            },
            None => {},
        }
    }
}

proof fn lemma_wf_bump(t: Seq<NodeView>, i: int, h: nat)
    requires
        wf(t),
        0 <= i < t.len(),
        h >= t[i].height,
        match t[i].parent {
            Some(q) => t[q].height > h,
            None => true,
        },
    ensures
        wf(t.update(i, (NodeView { height: h, ..t[i] }))),
{
    let u = t.update(i, (NodeView { height: h, ..t[i] }));
    assert forall|j: int| 0 <= j < u.len() implies node_ok(u, j) by {
        assert(node_ok(t, j));
        assert(u[j].children == t[j].children);
        assert(u[j].parent == t[j].parent);
        assert forall|k: int| 0 <= k < u[j].children.len() implies valid_child(u, j, k) by {
            assert(valid_child(t, j, k));
            let ch = t[j].children[k];
            if ch == i {
                assert(t[i].parent == Some(j));
                assert(t[j].height > h);
                assert(j != i);
            }
        }
        match t[j].parent {
            Some(q) => {
                assert(u[q].children == t[q].children);
            },
            None => {},
        }
    }
}

proof fn lemma_wf_attach_edge(t: Seq<NodeView>, p: int, c: int)
    requires
        wf(t),
        0 <= p < t.len(),
        0 <= c < t.len(),
        p != c,
        t[c].parent is None,
        t[c].height < t[p].height,
    ensures
        wf(
            t.update(p, (NodeView { children: t[p].children.push(c), ..t[p] })).update(
                c,
                (NodeView {
                    parent: Some(p),
                    ..t.update(p, (NodeView { children: t[p].children.push(c), ..t[p] }))[c]
                }),
            ),
        ),
{
    let u1 = t.update(p, (NodeView { children: t[p].children.push(c), ..t[p] }));
    let u = u1.update(c, (NodeView { parent: Some(p), ..u1[c] }));
    assert forall|j: int, k: int|
        0 <= j < t.len() && 0 <= k < t[j].children.len() implies t[j].children[k] != c by {
        assert(node_ok(t, j));
        assert(valid_child(t, j, k));
    }
    assert forall|j: int| 0 <= j < u.len() implies node_ok(u, j) by {
        assert(node_ok(t, j));
        if j == p {
            assert forall|k: int| 0 <= k < u[p].children.len() implies valid_child(u, p, k) by {
                if k < t[p].children.len() {
                    assert(valid_child(t, p, k));
                    let x = t[p].children[k];
                    assert(x != c);
                    assert(u[p].children[k] == x);
                    assert(u[x].parent == t[x].parent);
                } else {
                    assert(u[p].children[k] == c);
                }
            }
            assert forall|k1: int, k2: int|
                0 <= k1 < k2 < u[p].children.len() implies u[p].children[k1]
                != u[p].children[k2] by {
                if k2 < t[p].children.len() {
                    assert(t[p].children[k1] != t[p].children[k2]);
                } else {
                    assert(u[p].children[k2] == c);
                    assert(t[p].children[k1] != c);
                }
            }
            match u[p].parent {
                Some(q) => {
                    assert(t[q].children.contains(p));
                    let m = choose|m: int| 0 <= m < t[q].children.len() && t[q].children[m] == p;
                    assert(u[q].children[m] == p);
                    assert(u[q].children.contains(p));
                },
                None => {},
            }
        } else if j == c {
            assert forall|k: int| 0 <= k < u[c].children.len() implies valid_child(u, c, k) by {
                assert(valid_child(t, c, k));
                let x = t[c].children[k];
                assert(x != c);
                assert(x != p) by {
                    if x == p {
                        assert(t[p].parent == Some(c));
                        assert(node_ok(t, p));
                        assert(t[c].children.contains(p));
                        let m = choose|m: int|
                            0 <= m < t[c].children.len() && t[c].children[m] == p;
                        assert(valid_child(t, c, m));
                    }
                }
                assert(u[x].parent == t[x].parent);
            }
            assert(u[c].parent == Some(p));
            assert(u[p].children == t[p].children.push(c));
            assert(u[p].children[t[p].children.len() as int] == c);
            assert(u[p].children.contains(c));
        } else {
            assert forall|k: int| 0 <= k < u[j].children.len() implies valid_child(u, j, k) by {
                assert(valid_child(t, j, k));
                let x = t[j].children[k];
                assert(x != c);
                assert(u[x].parent == t[x].parent);
                assert(u[x].height == t[x].height);
                assert(u[j].height == t[j].height);
            }
            match u[j].parent {
                Some(q) => {
                    if q == p {
                        let m = choose|m: int|
                            0 <= m < t[p].children.len() && t[p].children[m] == j;
                        assert(u[p].children[m] == j);
                        assert(u[p].children.contains(j));
                    } else {
                        assert(u[q].children == t[q].children);
                    }
                },
                None => {},
            }
        }
    }
}

/// Insert-or-overwrite of one attribute: an existing key keeps its
/// position and gets the new value; a new key is appended.
pub open spec fn attr_insert(
    m: Seq<(Seq<char>, Seq<char>)>,
    k: Seq<char>,
    v: Seq<char>,
) -> Seq<(Seq<char>, Seq<char>)>
    decreases m.len(),
{
    if m.len() == 0 {
        seq![(k, v)]
    } else if m[0].0 == k {
        seq![(k, v)] + m.skip(1)
    } else {
        seq![m[0]] + attr_insert(m.skip(1), k, v)
    }
}

/// The value each pair's second component stores: escaped unless the node
/// is in raw mode.
pub open spec fn stored_value(v: Seq<char>, pre: bool) -> Seq<char> {
    if pre {
        v
    } else {
        escaped(v)
    }
}

/// Folding `attr_insert` over a list of pairs, left to right, each value
/// stored per the raw-mode rule; on duplicate keys the last value wins.
pub open spec fn insert_pairs(
    m: Seq<(Seq<char>, Seq<char>)>,
    pairs: Seq<(Seq<char>, Seq<char>)>,
    pre: bool,
) -> Seq<(Seq<char>, Seq<char>)>
    decreases pairs.len(),
{
    if pairs.len() == 0 {
        m
    } else {
        attr_insert(
            insert_pairs(m, pairs.drop_last(), pre),
            pairs.last().0,
            stored_value(pairs.last().1, pre),
        )
    }
}

/// The model of an executable attribute list.
pub open spec fn attrs_view(kws: Seq<(String, String)>) -> Seq<(Seq<char>, Seq<char>)> {
    kws.map_values(|p: (String, String)| (p.0@, p.1@))
}

/// The model of an executable handle list.
pub open spec fn ids_view(s: Seq<Element>) -> Seq<int> {
    s.map_values(|e: Element| e@)
}

/// The model of an executable pair slice.
pub open spec fn pairs_view(s: Seq<(&str, &str)>) -> Seq<(Seq<char>, Seq<char>)> {
    s.map_values(|p: (&str, &str)| (p.0@, p.1@))
}

/// Raw-mode transcoding of an attribute map: every value unescaped, keys kept.
pub open spec fn unescape_attrs(m: Seq<(Seq<char>, Seq<char>)>) -> Seq<(Seq<char>, Seq<char>)> {
    m.map_values(|p: (Seq<char>, Seq<char>)| (p.0, unescaped(p.1)))
}

proof fn lemma_attr_insert_found(m: Seq<(Seq<char>, Seq<char>)>, k: Seq<char>, v: Seq<char>, idx: int)
    requires
        0 <= idx < m.len(),
        m[idx].0 == k,
        forall|j: int| 0 <= j < idx ==> (#[trigger] m[j]).0 != k,
    ensures
        attr_insert(m, k, v) == m.update(idx, (k, v)),
    decreases idx,
{
    if idx == 0 {
        assert(seq![(k, v)] + m.skip(1) =~= m.update(0, (k, v)));
    } else {
        assert(m[0].0 != k);
        lemma_attr_insert_found(m.skip(1), k, v, idx - 1);
        assert(seq![m[0]] + m.skip(1).update(idx - 1, (k, v)) =~= m.update(idx, (k, v)));
    }
}

proof fn lemma_attr_insert_missing(m: Seq<(Seq<char>, Seq<char>)>, k: Seq<char>, v: Seq<char>)
    requires
        forall|j: int| 0 <= j < m.len() ==> (#[trigger] m[j]).0 != k,
    ensures
        attr_insert(m, k, v) == m.push((k, v)),
    decreases m.len(),
{
    if m.len() == 0 {
        assert(seq![(k, v)] =~= m.push((k, v)));
    } else {
        lemma_attr_insert_missing(m.skip(1), k, v);
        assert(seq![m[0]] + m.skip(1).push((k, v)) =~= m.push((k, v)));
    }
}

/// Inserts one attribute into an executable list, keeping keys unique.
proof fn lemma_attrs_wf_same_keys(a: Seq<(Seq<char>, Seq<char>)>, b: Seq<(Seq<char>, Seq<char>)>)
    requires
        attrs_wf(a),
        b.len() == a.len(),
        forall|j: int| 0 <= j < a.len() ==> (#[trigger] b[j]).0 == a[j].0,
    ensures
        attrs_wf(b),
{
    assert forall|k1: int, k2: int|
        0 <= k1 < k2 < b.len() implies (#[trigger] b[k1]).0 != (#[trigger] b[k2]).0 by {
        assert(a[k1].0 != a[k2].0);
        assert(b[k1].0 == a[k1].0);
        assert(b[k2].0 == a[k2].0);
    }
}

fn insert_attr_exec(kws: &mut Vec<(String, String)>, name: String, value: String)
    requires
        attrs_wf(attrs_view(old(kws)@)),
    ensures
        attrs_view(final(kws)@) == attr_insert(attrs_view(old(kws)@), name@, value@),
        attrs_wf(attrs_view(final(kws)@)),
{
    let ghost m = attrs_view(old(kws)@);
    let mut idx: usize = 0;
    while idx < kws.len()
        invariant
            kws@ == old(kws)@,
            m == attrs_view(kws@),
            attrs_wf(m),
            idx <= kws@.len(),
            forall|j: int| 0 <= j < idx ==> (#[trigger] m[j]).0 != name@,
        decreases kws@.len() - idx,
    {
        if kws[idx].0 == name {
            kws[idx].1 = value;
            proof {
                assert(m[idx as int].0 == name@);
                lemma_attr_insert_found(m, name@, value@, idx as int);
                assert(attrs_view(kws@) =~= m.update(idx as int, (name@, value@)));
                lemma_attrs_wf_same_keys(m, m.update(idx as int, (name@, value@)));
            }
            return ;
        }
        idx += 1;
    }
    kws.push((name, value));
    proof {
        lemma_attr_insert_missing(m, name@, value@);
        assert(attrs_view(kws@) =~= m.push((name@, value@)));
        let b = m.push((name@, value@));
        assert forall|k1: int, k2: int|
            0 <= k1 < k2 < b.len() implies (#[trigger] b[k1]).0 != (#[trigger] b[k2]).0 by {
            if k2 < m.len() {
                assert(m[k1].0 != m[k2].0);
            } else {
                assert(b[k2].0 == name@);
                assert(m[k1].0 != name@);
            }
        }
    }
}

/// How detaching the `k`-th child of `p` changes the arena: the entry
/// leaves `p`'s children, the child's back-reference is cleared, and
/// nothing else changes.
pub open spec fn detach_one(s: Seq<NodeView>, p: int, k: int) -> Seq<NodeView> {
    let c = s[p].children[k];
    let s1 = s.update(p, (NodeView { children: s[p].children.remove(k), ..s[p] }));
    s1.update(c, (NodeView { parent: None, ..s1[c] }))
}

proof fn lemma_wf_detach(t: Seq<NodeView>, p: int, k: int)
    requires
        wf(t),
        0 <= p < t.len(),
        0 <= k < t[p].children.len(),
    ensures
        wf(detach_one(t, p, k)),
{
    let c = t[p].children[k];
    assert(node_ok(t, p));
    assert(valid_child(t, p, k));
    assert(c != p);
    let u = detach_one(t, p, k);
    assert(u.len() == t.len());
    assert forall|j: int, m: int|
        0 <= j < t.len() && 0 <= m < t[j].children.len() && t[j].children[m] == c implies j == p
        && m == k by {
        assert(node_ok(t, j));
        assert(valid_child(t, j, m));
    }
    assert forall|j: int| 0 <= j < u.len() implies node_ok(u, j) by {
        assert(node_ok(t, j));
        if j == p {
            assert forall|m: int| 0 <= m < u[p].children.len() implies valid_child(u, p, m) by {
                let x = u[p].children[m];
                if m < k {
                    assert(x == t[p].children[m]);
                    assert(valid_child(t, p, m));
                    assert(x != c);
                } else {
                    assert(x == t[p].children[m + 1]);
                    assert(valid_child(t, p, m + 1));
                    assert(x != c);
                }
            }
            assert forall|m1: int, m2: int|
                0 <= m1 < m2 < u[p].children.len() implies u[p].children[m1]
                != u[p].children[m2] by {
                let a1: int = if m1 < k { m1 } else { m1 + 1 };
                let a2: int = if m2 < k { m2 } else { m2 + 1 };
                assert(u[p].children[m1] == t[p].children[a1]);
                assert(u[p].children[m2] == t[p].children[a2]);
                assert(t[p].children[a1] != t[p].children[a2]);
            }
            match u[p].parent {
                Some(q) => {
                    if q == p {
                        let m = choose|m: int|
                            0 <= m < t[p].children.len() && t[p].children[m] == p;
                        assert(valid_child(t, p, m));
                        assert(false);
                    }
                    if q == c {
                        assert(u[c].children == t[c].children);
                        assert(u[c].children.contains(p));
                    } else {
                        assert(u[q].children == t[q].children);
                        assert(u[q].children.contains(p));
                    }
                },
                None => {},
            }
        } else if j == c {
            assert forall|m: int| 0 <= m < u[c].children.len() implies valid_child(u, c, m) by {
                assert(valid_child(t, c, m));
                let x = t[c].children[m];
                assert(x != c);
                assert(u[x].parent == t[x].parent);
            }
        } else {
            assert forall|m: int| 0 <= m < u[j].children.len() implies valid_child(u, j, m) by {
                assert(valid_child(t, j, m));
                let x = t[j].children[m];
                assert(x != c);
                assert(u[x].parent == t[x].parent);
                assert(u[x].height == t[x].height);
            }
            match u[j].parent {
                Some(q) => {
                    if q == p {
                        let m = choose|m: int|
                            0 <= m < t[p].children.len() && t[p].children[m] == j;
                        assert(m != k);
                        if m < k {
                            assert(u[p].children[m] == j);
                        } else {
                            assert(u[p].children[m - 1] == j);
                        }
                        assert(u[p].children.contains(j));
                    } else {
                        assert(u[q].children == t[q].children);
                    }
                },
                None => {},
            }
        }
    }
}

proof fn lemma_heights_bounded(a: &Arena)
    ensures
        forall|j: int| 0 <= j < a@.len() ==> (#[trigger] a@[j]).height <= usize::MAX,
{
    assert forall|j: int| 0 <= j < a@.len() implies (#[trigger] a@[j]).height <= usize::MAX by {
        assert(a@[j] == a.nodes@[j]@);
    }
}

impl Arena {
    /// An empty arena, holding no nodes yet.
    pub fn new() -> (a: Arena)
        ensures
            a@ == Seq::<NodeView>::empty(),
            wf(a@),
    {
        let a = Arena { nodes: Vec::new() };
        proof {
            assert(a@ =~= Seq::<NodeView>::empty());
        }
        a
    }
}

impl Element {
    /// Creates a fresh detached node with the given tag and content; the
    /// content is stored in escaped form, raw mode and the single-tag flag
    /// are off, and the attribute map is empty. The returned handle is
    /// distinct from every handle already in the arena.
    pub fn new(arena: &mut Arena, tag: &str, content: &str) -> (e: Element)
        requires
            wf(old(arena)@),
        ensures
            wf(final(arena)@),
            e@ == old(arena)@.len(),
            final(arena)@ == old(arena)@.push(
                NodeView {
                    parent: None,
                    children: Seq::empty(),
                    tag: tag@,
                    content: escaped(content@),
                    attrs: Seq::empty(),
                    onetag: false,
                    pre: false,
                    height: 0,
                },
            ),
    {
        let id = arena.nodes.len();
        let node = Node {
            parent_idx: None,
            children: Vec::new(),
            tag: tag.to_owned(),
            content: escape_ascii(content),
            kws: Vec::new(),
            onetag: false,
            pre: false,
            height: 0,
        };
        let ghost nv = NodeView {
            parent: None,
            children: Seq::empty(),
            tag: tag@,
            content: escaped(content@),
            attrs: Seq::empty(),
            onetag: false,
            pre: false,
            height: 0,
        };
        arena.nodes.push(node);
        proof {
            assert(node@.children =~= Seq::<int>::empty());
            assert(node@.attrs =~= Seq::<(Seq<char>, Seq<char>)>::empty());
            assert(node@ == nv);
            assert(arena@ =~= old(arena)@.push(nv));
            lemma_wf_push(old(arena)@, nv);
        }
        Element { id }
    }

    /// Attaches `elem` as the last child of this node, setting its parent
    /// back-reference, and reports whether the attachment happened. A node
    /// that already has a parent must be detached first; an attachment that
    /// would make a node its own descendant, or overflow the height bound,
    /// is rejected. A rejected call leaves the arena unchanged.
    #[verifier::loop_isolation(false)]
    #[verifier::rlimit(100)]
    pub fn add(&self, arena: &mut Arena, elem: Element) -> (ok: bool)
        requires
            wf(old(arena)@),
            self@ < old(arena)@.len(),
            elem@ < old(arena)@.len(),
        ensures
            wf(final(arena)@),
            ok == can_attach(old(arena)@, self@, elem@),
            !ok ==> final(arena)@ == old(arena)@,
            ok ==> attached(old(arena)@, final(arena)@, self@, elem@),
    {
        let ghost s = old(arena)@;
        let p = self.id;
        let c = elem.id;
        proof {
            lemma_heights_bounded(arena);
            assert(s[c as int] == arena.nodes@[c as int]@);
            assert(s[p as int] == arena.nodes@[p as int]@);
        }
        if arena.nodes[c].parent_idx.is_some() {
            return false;
        }
        let hc = arena.nodes[c].height;
        if hc == usize::MAX {
            proof {
                assert(s[p as int].height <= usize::MAX);
                assert(!bump_fits(s, p as int, s[c as int].height + 1int));
            }
            return false;
        }
        let need0: usize = hc + 1;
        let mut cur = p;
        let mut need = need0;
        let mut updates: Vec<(usize, usize)> = Vec::new();
        let mut done = false;
        let mut failed = false;
        while !done && !failed
            invariant
                arena@ == s,
                s[c as int].parent is None,
                cur < arena.nodes@.len(),
                need0 == s[c as int].height + 1,
                need >= need0,
                !done && !failed ==> (on_chain(s, cur as int, c as int) <==> on_chain(
                    s,
                    p as int,
                    c as int,
                )),
                !done && !failed ==> (bump_fits(s, cur as int, need as int) <==> bump_fits(
                    s,
                    p as int,
                    need0 as int,
                )),
                done ==> !on_chain(s, p as int, c as int) && bump_fits(s, p as int, need0 as int),
                failed ==> !can_attach(s, p as int, c as int),
                !done && !failed ==> need as int == need0 + updates@.len(),
                forall|m: int|
                    0 <= m < updates@.len() ==> (#[trigger] updates@[m]).0 < s.len(),
                forall|m: int|
                    0 <= m < updates@.len() ==> (#[trigger] updates@[m]).1 as int == need0 + m,
                forall|m: int|
                    0 <= m < updates@.len() ==> (#[trigger] updates@[m]).1 > s[updates@[m].0 as int].height,
                forall|m: int|
                    0 <= m < updates@.len() - 1 ==> s[(#[trigger] updates@[m]).0 as int].parent
                        == Some(updates@[m + 1].0 as int),
                forall|m1: int, m2: int|
                    0 <= m1 < m2 < updates@.len() ==> s[(#[trigger] updates@[m1]).0 as int].height
                        < s[(#[trigger] updates@[m2]).0 as int].height,
                forall|m: int| 0 <= m < updates@.len() ==> (#[trigger] updates@[m]).0 != c,
                updates@.len() > 0 ==> updates@[0].0 == p,
                updates@.len() == 0 ==> cur == p && need == need0,
                !done && !failed && updates@.len() > 0 ==> s[updates@[updates@.len()
                    - 1].0 as int].parent == Some(cur as int) && s[updates@[updates@.len()
                    - 1].0 as int].height < s[cur as int].height,
                done ==> (if updates@.len() == 0 {
                    s[p as int].height >= need0
                } else {
                    match s[updates@[updates@.len() - 1].0 as int].parent {
                        Some(q) => s[q].height >= updates@[updates@.len() - 1].1 + 1,
                        None => true,
                    }
                }),
            decreases (if done || failed {
                0int
            } else {
                2 * (usize::MAX - s[cur as int].height) + 1
            }),
        {
            proof {
                assert(s[cur as int] == arena.nodes@[cur as int]@);
            }
            if cur == c {
                failed = true;
                proof {
                    assert(on_chain(s, cur as int, c as int));
                }
            } else if arena.nodes[cur].height >= need {
                done = true;
                proof {
                    if on_chain(s, cur as int, c as int) {
                        lemma_on_chain_height(s, cur as int, c as int);
                        assert(false);
                    }
                    assert(bump_fits(s, cur as int, need as int));
                }
            } else {
                updates.push((cur, need));
                match arena.nodes[cur].parent_idx {
                    None => {
                        done = true;
                        proof {
                            assert(s[cur as int].parent is None);
                            assert(!on_chain(s, cur as int, c as int));
                            assert(bump_fits(s, cur as int, need as int));
                        }
                    },
                    Some(q) => {
                        proof {
                            assert(s[cur as int].parent == Some(q as int));
                            assert(node_ok(s, cur as int));
                            assert(node_ok(s, q as int));
                            assert(s[q as int].children.contains(cur as int));
                            let m = choose|m: int|
                                0 <= m < s[q as int].children.len() && s[q as int].children[m]
                                    == cur as int;
                            assert(valid_child(s, q as int, m));
                            assert(s[cur as int].height < s[q as int].height);
                            assert(s[q as int].height <= usize::MAX);
                        }
                        if need == usize::MAX {
                            failed = true;
                            proof {
                                assert(s[q as int].height < need + 1int);
                                assert(!bump_fits(s, q as int, need + 1int));
                                assert(!bump_fits(s, cur as int, need as int));
                            }
                        } else {
                            proof {
                                assert(on_chain(s, cur as int, c as int) == on_chain(
                                    s,
                                    q as int,
                                    c as int,
                                ));
                                assert(bump_fits(s, cur as int, need as int) == bump_fits(
                                    s,
                                    q as int,
                                    need + 1int,
                                ));
                            }
                            need = need + 1;
                            cur = q;
                        }
                    },
                }
            }
        }
        if failed {
            return false;
        }
        let ghost ups = updates@;
        let mut k = updates.len();
        while k > 0
            invariant
                k <= ups.len(),
                updates@ == ups,
                wf(arena@),
                arena@.len() == s.len(),
                forall|j: int|
                    0 <= j < s.len() ==> (#[trigger] arena@[j]).parent == s[j].parent
                        && arena@[j].children == s[j].children && arena@[j].tag == s[j].tag
                        && arena@[j].content == s[j].content && arena@[j].attrs == s[j].attrs
                        && arena@[j].onetag == s[j].onetag && arena@[j].pre == s[j].pre,
                forall|j: int| 0 <= j < s.len() ==> (#[trigger] arena@[j]).height >= s[j].height,
                forall|m: int|
                    0 <= m < k ==> arena@[(#[trigger] ups[m]).0 as int].height == s[ups[m].0 as int].height,
                forall|m: int|
                    k <= m < ups.len() ==> arena@[(#[trigger] ups[m]).0 as int].height == ups[m].1,
                arena@[c as int].height == s[c as int].height,
            decreases k,
        {
            k -= 1;
            let pair = updates[k];
            let ghost prev = arena@;
            proof {
                assert(ups[k as int].1 > s[ups[k as int].0 as int].height);
                assert(prev[pair.0 as int].height == s[pair.0 as int].height);
                if k as int == ups.len() - 1 {
                    assert(node_ok(s, pair.0 as int));
                    match s[pair.0 as int].parent {
                        Some(q) => {
                            assert(0 <= q < s.len());
                            assert(prev[q].height >= s[q].height);
                            assert(s[q].height >= ups[k as int].1 + 1);
                        },
                        None => {},
                    }
                } else {
                    assert(s[(ups[k as int]).0 as int].parent == Some(ups[k as int + 1].0 as int));
                    assert(prev[ups[k as int + 1].0 as int].height == ups[k as int + 1].1);
                    assert(ups[k as int + 1].1 as int == need0 + k + 1);
                }
            }
            arena.nodes[pair.0].height = pair.1;
            proof {
                let nv = NodeView { height: pair.1 as nat, ..prev[pair.0 as int] };
                assert(arena@ =~~= prev.update(pair.0 as int, nv));
                lemma_wf_bump(prev, pair.0 as int, pair.1 as nat);
                assert(wf(prev.update(pair.0 as int, nv)));
                assert forall|m: int| 0 <= m < k implies arena@[(#[trigger] ups[m]).0 as int].height
                    == s[ups[m].0 as int].height by {
                    assert(s[ups[m].0 as int].height < s[ups[k as int].0 as int].height);
                    assert(ups[m].0 != ups[k as int].0);
                }
            }
        }
        let ghost t0 = arena@;
        proof {
            if ups.len() == 0 {
                assert(t0[p as int].height >= need0);
            } else {
                assert(t0[p as int].height == ups[0].1);
            }
            assert(t0[c as int].height == s[c as int].height) by {
                if ups.len() > 0 {
                    assert forall|m: int| 0 <= m < ups.len() implies (#[trigger] ups[m]).0
                        != c by {}
                }
            }
            assert(t0[c as int].height < t0[p as int].height);
            assert(p != c) by {
                assert(!on_chain(s, p as int, c as int));
            }
            assert(t0[c as int].parent is None);
        }
        arena.nodes[p].children.push(elem);
        arena.nodes[c].parent_idx = Some(p);
        proof {
            let u1 = t0.update(
                p as int,
                (NodeView { children: t0[p as int].children.push(c as int), ..t0[p as int] }),
            );
            let u = u1.update(c as int, (NodeView { parent: Some(p as int), ..u1[c as int] }));
            assert(arena@ =~~= u);
            lemma_wf_attach_edge(t0, p as int, c as int);
            assert(can_attach(s, p as int, c as int));
            assert(attached(s, arena@, p as int, c as int)) by {
                assert(arena@[p as int].children == s[p as int].children.push(c as int));
                assert(arena@[c as int].parent == Some(p as int));
            }
        }
        true
    }

    /// Attaches `elem` as the last child, as `add` does, and hands the same
    /// handle back for chaining; an illegal attachment (see `add`) leaves
    /// the arena unchanged.
    pub fn add_with(self, arena: &mut Arena, elem: Element) -> (r: Self)
        requires
            wf(old(arena)@),
            self@ < old(arena)@.len(),
            elem@ < old(arena)@.len(),
        ensures
            r == self,
            wf(final(arena)@),
            can_attach(old(arena)@, self@, elem@) ==> attached(
                old(arena)@,
                final(arena)@,
                self@,
                elem@,
            ),
            !can_attach(old(arena)@, self@, elem@) ==> final(arena)@ == old(arena)@,
    {
        self.add(arena, elem);
        self
    }

    /// Sets one attribute, insert-or-overwrite, leaving the others as they
    /// are; the value is stored escaped unless the node is in raw mode.
    pub fn set_attr(&self, arena: &mut Arena, name: &str, value: &str)
        requires
            wf(old(arena)@),
            self@ < old(arena)@.len(),
        ensures
            wf(final(arena)@),
            final(arena)@ == old(arena)@.update(
                self@,
                (NodeView {
                    attrs: attr_insert(
                        old(arena)@[self@].attrs,
                        name@,
                        stored_value(value@, old(arena)@[self@].pre),
                    ),
                    ..old(arena)@[self@]
                }),
            ),
    {
        let id = self.id;
        let v = if arena.nodes[id].pre {
            value.to_owned()
        } else {
            escape_ascii(value)
        };
        let ghost s = old(arena)@;
        let ghost nv = NodeView {
            attrs: attr_insert(s[self@].attrs, name@, stored_value(value@, s[self@].pre)),
            ..s[self@]
        };
        proof {
            assert(node_ok(s, id as int));
        }
        insert_attr_exec(&mut arena.nodes[id].kws, name.to_owned(), v);
        proof {
            assert(arena@ =~= s.update(id as int, nv));
            lemma_wf_update_data(s, id as int, nv);
        }
    }

    /// Replaces the content; the new text is stored escaped unless the node
    /// is in raw mode.
    pub fn configcnt(&self, arena: &mut Arena, content: &str) -> (r: &Self)
        requires
            wf(old(arena)@),
            self@ < old(arena)@.len(),
        ensures
            r == self,
            wf(final(arena)@),
            final(arena)@ == old(arena)@.update(
                self@,
                (NodeView {
                    content: stored_value(content@, old(arena)@[self@].pre),
                    ..old(arena)@[self@]
                }),
            ),
    {
        let id = self.id;
        let v = if arena.nodes[id].pre {
            content.to_owned()
        } else {
            escape_ascii(content)
        };
        let ghost s = old(arena)@;
        let ghost nv = NodeView { content: stored_value(content@, s[self@].pre), ..s[self@] };
        arena.nodes[id].content = v;
        proof {
            assert(node_ok(s, id as int));
            assert(arena@ =~= s.update(id as int, nv));
            lemma_wf_update_data(s, id as int, nv);
        }
        self
    }

    /// Sets the single-tag flag: a flagged node renders only its opening
    /// tag, never a closing one. No stored data changes.
    pub fn onetag(self, arena: &mut Arena, onetag: bool) -> (r: Self)
        requires
            wf(old(arena)@),
            self@ < old(arena)@.len(),
        ensures
            r == self,
            wf(final(arena)@),
            final(arena)@ == old(arena)@.update(
                self@,
                (NodeView { onetag: onetag, ..old(arena)@[self@] }),
            ),
    {
        let id = self.id;
        let ghost s = old(arena)@;
        let ghost nv = NodeView { onetag: onetag, ..s[self@] };
        arena.nodes[id].onetag = onetag;
        proof {
            assert(node_ok(s, id as int));
            assert(arena@ =~= s.update(id as int, nv));
            lemma_wf_update_data(s, id as int, nv);
        }
        self
    }

    /// Sets several attributes at once, insert-or-overwrite, left to right,
    /// leaving attributes with other names as they are.
    #[verifier::loop_isolation(false)]
    pub fn set_attrs(&self, arena: &mut Arena, attrs: &[(&str, &str)])
        requires
            wf(old(arena)@),
            self@ < old(arena)@.len(),
        ensures
            wf(final(arena)@),
            final(arena)@ == old(arena)@.update(
                self@,
                (NodeView {
                    attrs: insert_pairs(
                        old(arena)@[self@].attrs,
                        pairs_view(attrs@),
                        old(arena)@[self@].pre,
                    ),
                    ..old(arena)@[self@]
                }),
            ),
    {
        let ghost s = old(arena)@;
        let ghost pv = pairs_view(attrs@);
        let ghost orig = s[self@];
        let n = attrs.len();
        let mut i: usize = 0;
        proof {
            assert(s.update(self@, (NodeView { attrs: insert_pairs(orig.attrs, pv.take(0), orig.pre), ..orig })) =~= s);
        }
        while i < n
            invariant
                i <= n,
                wf(arena@),
                arena@ == s.update(
                    self@,
                    (NodeView { attrs: insert_pairs(orig.attrs, pv.take(i as int), orig.pre), ..orig }),
                ),
            decreases n - i,
        {
            self.set_attr(arena, attrs[i].0, attrs[i].1);
            proof {
                assert(pv.take(i + 1).drop_last() =~= pv.take(i as int));
                assert(pv.take(i + 1).last() == pv[i as int]);
                assert(arena@ =~= s.update(
                    self@,
                    (NodeView { attrs: insert_pairs(orig.attrs, pv.take(i + 1), orig.pre), ..orig }),
                ));
            }
            i += 1;
        }
        proof {
            assert(pv.take(n as int) =~= pv);
        }
    }

    /// Replaces the whole attribute map with the given pairs, inserted left
    /// to right (on duplicate names the last value wins); values are stored
    /// escaped unless the node is in raw mode.
    #[verifier::loop_isolation(false)]
    pub fn configkws(&self, arena: &mut Arena, kws: Vec<(String, String)>) -> (r: &Self)
        requires
            wf(old(arena)@),
            self@ < old(arena)@.len(),
        ensures
            r == self,
            wf(final(arena)@),
            final(arena)@ == old(arena)@.update(
                self@,
                (NodeView {
                    attrs: insert_pairs(
                        Seq::empty(),
                        attrs_view(kws@),
                        old(arena)@[self@].pre,
                    ),
                    ..old(arena)@[self@]
                }),
            ),
    {
        let ghost s = old(arena)@;
        let ghost pv = attrs_view(kws@);
        let ghost orig = s[self@];
        let pre0 = arena.nodes[self.id].pre;
        let mut newkws: Vec<(String, String)> = Vec::new();
        let n = kws.len();
        let mut i: usize = 0;
        proof {
            assert(attrs_view(newkws@) =~= Seq::<(Seq<char>, Seq<char>)>::empty());
            assert(attrs_wf(attrs_view(newkws@)));
        }
        while i < n
            invariant
                i <= n,
                arena@ == s,
                attrs_view(newkws@) == insert_pairs(Seq::empty(), pv.take(i as int), pre0),
                attrs_wf(attrs_view(newkws@)),
            decreases n - i,
        {
            let k = kws[i].0.clone();
            let v = if pre0 {
                kws[i].1.clone()
            } else {
                escape_ascii(kws[i].1.as_str())
            };
            insert_attr_exec(&mut newkws, k, v);
            proof {
                assert(pv.take(i + 1).drop_last() =~= pv.take(i as int));
                assert(pv.take(i + 1).last() == pv[i as int]);
            }
            i += 1;
        }
        let ghost nv = NodeView {
            attrs: insert_pairs(Seq::empty(), pv, orig.pre),
            ..orig
        };
        arena.nodes[self.id].kws = newkws;
        proof {
            assert(pv.take(n as int) =~= pv);
            assert(node_ok(s, self@));
            assert(arena@ =~= s.update(self@, nv));
            lemma_wf_update_data(s, self@, nv);
        }
        self
    }

    /// Replaces the whole attribute map; a builder form of `configkws` that
    /// hands the same handle back.
    pub fn kws(self, arena: &mut Arena, kws: Vec<(String, String)>) -> (r: Self)
        requires
            wf(old(arena)@),
            self@ < old(arena)@.len(),
        ensures
            r == self,
            wf(final(arena)@),
            final(arena)@ == old(arena)@.update(
                self@,
                (NodeView {
                    attrs: insert_pairs(
                        Seq::empty(),
                        attrs_view(kws@),
                        old(arena)@[self@].pre,
                    ),
                    ..old(arena)@[self@]
                }),
            ),
    {
        self.configkws(arena, kws);
        self
    }

    /// Replaces the whole attribute map from borrowed pairs; a builder form
    /// of `configkws` that hands the same handle back.
    #[verifier::loop_isolation(false)]
    pub fn attrs(self, arena: &mut Arena, attrs: &[(&str, &str)]) -> (r: Self)
        requires
            wf(old(arena)@),
            self@ < old(arena)@.len(),
        ensures
            r == self,
            wf(final(arena)@),
            final(arena)@ == old(arena)@.update(
                self@,
                (NodeView {
                    attrs: insert_pairs(
                        Seq::empty(),
                        pairs_view(attrs@),
                        old(arena)@[self@].pre,
                    ),
                    ..old(arena)@[self@]
                }),
            ),
    {
        let mut owned: Vec<(String, String)> = Vec::new();
        let n = attrs.len();
        let mut i: usize = 0;
        proof {
            assert(attrs_view(owned@) =~= pairs_view(attrs@).take(0));
        }
        while i < n
            invariant
                i <= n,
                arena@ == old(arena)@,
                attrs_view(owned@) == pairs_view(attrs@).take(i as int),
            decreases n - i,
        {
            owned.push((attrs[i].0.to_owned(), attrs[i].1.to_owned()));
            proof {
                assert(attrs_view(owned@) =~= pairs_view(attrs@).take(i + 1));
            }
            i += 1;
        }
        proof {
            assert(pairs_view(attrs@).take(n as int) =~= pairs_view(attrs@));
        }
        self.configkws(arena, owned);
        self
    }

    /// Sets raw mode. On the transition from escaped to raw, the stored
    /// content and every stored attribute value are unescaped, so that what
    /// is stored always matches what raw mode expects; switching raw mode
    /// off leaves the stored data untouched (asymmetric by design).
    #[verifier::loop_isolation(false)]
    pub fn pre(self, arena: &mut Arena, pre: bool) -> (r: Self)
        requires
            wf(old(arena)@),
            self@ < old(arena)@.len(),
        ensures
            r == self,
            wf(final(arena)@),
            final(arena)@ == old(arena)@.update(
                self@,
                (NodeView {
                    pre: pre,
                    content: if pre && !old(arena)@[self@].pre {
                        unescaped(old(arena)@[self@].content)
                    } else {
                        old(arena)@[self@].content
                    },
                    attrs: if pre && !old(arena)@[self@].pre {
                        unescape_attrs(old(arena)@[self@].attrs)
                    } else {
                        old(arena)@[self@].attrs
                    },
                    ..old(arena)@[self@]
                }),
            ),
    {
        let ghost s = old(arena)@;
        let ghost orig = s[self@];
        let id = self.id;
        let was = arena.nodes[id].pre;
        arena.nodes[id].pre = pre;
        if pre && !was {
            let c = un_escape_ascii(arena.nodes[id].content.as_str());
            arena.nodes[id].content = c;
            let n = arena.nodes[id].kws.len();
            let mut j: usize = 0;
            while j < n
                invariant
                    j <= n,
                    arena@.len() == s.len(),
                    n == arena@[self@].attrs.len(),
                    n == arena.nodes@[self@].kws@.len(),
                    forall|m: int| 0 <= m < s.len() && m != self@ ==> arena@[m] == s[m],
                    arena@[self@].parent == orig.parent,
                    arena@[self@].children == orig.children,
                    arena@[self@].height == orig.height,
                    arena@[self@].tag == orig.tag,
                    arena@[self@].onetag == orig.onetag,
                    arena@[self@].pre == pre,
                    arena@[self@].content == unescaped(orig.content),
                    arena@[self@].attrs.len() == orig.attrs.len(),
                    forall|m: int|
                        0 <= m < n ==> (#[trigger] arena@[self@].attrs[m]).0 == orig.attrs[m].0,
                    forall|m: int|
                        0 <= m < j ==> (#[trigger] arena@[self@].attrs[m]).1 == unescaped(
                            orig.attrs[m].1,
                        ),
                    forall|m: int|
                        j <= m < n ==> (#[trigger] arena@[self@].attrs[m]).1 == orig.attrs[m].1,
                decreases n - j,
            {
                let ghost prev = arena@;
                let w = un_escape_ascii(arena.nodes[id].kws[j].1.as_str());
                arena.nodes[id].kws[j].1 = w;
                proof {
                    let na = prev[self@].attrs.update(
                        j as int,
                        (prev[self@].attrs[j as int].0, w@),
                    );
                    assert(arena@ =~~= prev.update(self@, (NodeView { attrs: na, ..prev[self@] })));
                    assert(w@ == unescaped(orig.attrs[j as int].1));
                }
                j += 1;
            }
            let ghost nv = NodeView {
                pre: pre,
                content: unescaped(orig.content),
                attrs: unescape_attrs(orig.attrs),
                ..orig
            };
            proof {
                assert(arena@[self@].attrs =~= unescape_attrs(orig.attrs));
                assert(arena@[self@] == nv);
                assert(arena@ =~= s.update(self@, nv));
                assert(node_ok(s, self@));
                lemma_attrs_wf_same_keys(orig.attrs, unescape_attrs(orig.attrs));
                lemma_wf_update_data(s, self@, nv);
            }
        } else {
            let ghost nv = NodeView { pre: pre, ..orig };
            proof {
                assert(arena@ =~= s.update(self@, nv));
                assert(node_ok(s, self@));
                lemma_wf_update_data(s, self@, nv);
            }
        }
        self
    }

    /// Removes and returns the child at `index`, clearing its parent
    /// back-reference; nothing happens and nothing is returned when the
    /// index is out of bounds.
    pub fn remove_child(&self, arena: &mut Arena, index: usize) -> (r: Option<Element>)
        requires
            wf(old(arena)@),
            self@ < old(arena)@.len(),
        ensures
            wf(final(arena)@),
            index < old(arena)@[self@].children.len() ==> (r matches Some(e) && e@ == old(
                arena,
            )@[self@].children[index as int] && final(arena)@ == detach_one(
                old(arena)@,
                self@,
                index as int,
            )),
            index >= old(arena)@[self@].children.len() ==> r is None && final(arena)@ == old(
                arena,
            )@,
    {
        let ghost s = old(arena)@;
        proof {
            assert(s[self@] == arena.nodes@[self@]@);
        }
        let n = arena.nodes[self.id].children.len();
        if index < n {
            proof {
                assert(node_ok(s, self@));
                assert(valid_child(s, self@, index as int));
            }
            let ch = arena.nodes[self.id].children.remove(index);
            let ghost s1 = s.update(
                self@,
                (NodeView { children: s[self@].children.remove(index as int), ..s[self@] }),
            );
            proof {
                assert(ids_view(arena.nodes@[self@].children@) =~= s[self@].children.remove(
                    index as int,
                ));
                assert(arena@ =~~= s1);
                assert(ch@ == s[self@].children[index as int]);
            }
            arena.nodes[ch.id].parent_idx = None;
            proof {
                assert(arena@ =~~= detach_one(s, self@, index as int));
                lemma_wf_detach(s, self@, index as int);
            }
            Some(ch)
        } else {
            None
        }
    }

    /// Removes the child that is the same node as `child` (identity, not
    /// structure), clearing its parent back-reference, and reports whether
    /// a removal happened; a handle not among the children is a no-op.
    #[verifier::loop_isolation(false)]
    pub fn remove_child_by_ref(&self, arena: &mut Arena, child: &Element) -> (r: bool)
        requires
            wf(old(arena)@),
            self@ < old(arena)@.len(),
        ensures
            wf(final(arena)@),
            r == old(arena)@[self@].children.contains(child@),
            r ==> final(arena)@ == detach_one(
                old(arena)@,
                self@,
                old(arena)@[self@].children.index_of(child@),
            ),
            !r ==> final(arena)@ == old(arena)@,
    {
        let ghost s = old(arena)@;
        let ghost cs = s[self@].children;
        proof {
            assert(s[self@] == arena.nodes@[self@]@);
        }
        let n = arena.nodes[self.id].children.len();
        let mut idx: usize = 0;
        while idx < n
            invariant
                idx <= n,
                arena@ == s,
                n == arena.nodes@[self@].children@.len(),
                forall|m: int| 0 <= m < idx ==> cs[m] != child@,
            decreases n - idx,
        {
            proof {
                assert(arena@[self@] == arena.nodes@[self@]@);
            }
            if arena.nodes[self.id].children[idx] == *child {
                proof {
                    assert(cs[idx as int] == arena.nodes@[self@].children@[idx as int]@);
                    assert(cs[idx as int] == child@);
                    assert(cs.contains(child@));
                    assert(node_ok(s, self@));
                    let j = cs.index_of(child@);
                    assert(cs[j] == child@);
                    assert(j == idx as int);
                }
                self.remove_child(arena, idx);
                return true;
            }
            idx += 1;
        }
        proof {
            if cs.contains(child@) {
                let j = choose|j: int| 0 <= j < cs.len() && cs[j] == child@;
                assert(cs[j] != child@);
            }
        }
        false
    }

    /// Removes every child, clearing each one's parent back-reference.
    #[verifier::loop_isolation(false)]
    pub fn remove_all_children(&self, arena: &mut Arena)
        requires
            wf(old(arena)@),
            self@ < old(arena)@.len(),
        ensures
            wf(final(arena)@),
            final(arena)@.len() == old(arena)@.len(),
            final(arena)@[self@] == (NodeView {
                children: Seq::empty(),
                ..old(arena)@[self@]
            }),
            forall|m: int|
                0 <= m < old(arena)@[self@].children.len() ==> final(arena)@[(
                #[trigger] old(arena)@[self@].children[m])] == (NodeView {
                    parent: None,
                    ..old(arena)@[old(arena)@[self@].children[m]]
                }),
            forall|x: int|
                0 <= x < old(arena)@.len() && x != self@ && !old(arena)@[self@].children.contains(
                    x,
                ) ==> final(arena)@[x] == old(arena)@[x],
    {
        let ghost s = old(arena)@;
        let ghost cs = s[self@].children;
        proof {
            assert(s[self@] == arena.nodes@[self@]@);
            assert(node_ok(s, self@));
        }
        let n = arena.nodes[self.id].children.len();
        let mut j = n;
        proof {
            assert(cs.take(n as int) =~= cs);
            assert(arena@[self@] =~~= (NodeView { children: cs.take(n as int), ..s[self@] }));
        }
        while j > 0
            invariant
                j <= n,
                arena@.len() == s.len(),
                wf(arena@),
                arena@[self@] == (NodeView { children: cs.take(j as int), ..s[self@] }),
                forall|m: int|
                    j <= m < n ==> arena@[(#[trigger] cs[m])] == (NodeView {
                        parent: None,
                        ..s[cs[m]]
                    }),
                forall|x: int|
                    0 <= x < s.len() && x != self@ && !cs.skip(j as int).contains(x)
                        ==> arena@[x] == s[x],
            decreases j,
        {
            j -= 1;
            let ghost prev = arena@;
            proof {
                assert(valid_child(s, self@, j as int));
                assert(cs.take(j + 1)[j as int] == cs[j as int]);
                assert forall|m1: int, m2: int|
                    0 <= m1 < m2 < n implies cs[m1] != cs[m2] by {}
                assert(!cs.skip(j + 1).contains(cs[j as int])) by {
                    if cs.skip(j + 1).contains(cs[j as int]) {
                        let w = choose|w: int|
                            0 <= w < cs.skip(j + 1).len() && #[trigger] cs.skip(j + 1)[w] == cs[j as int];
                        assert(cs[w + j + 1] == cs[j as int]);
                    }
                }
                assert(prev[cs[j as int]] == s[cs[j as int]]);
            }
            let popped = arena.nodes[self.id].children.pop();
            match popped {
                Some(ch) => {
                    let ghost s1 = prev.update(
                        self@,
                        (NodeView { children: prev[self@].children.remove(j as int), ..prev[self@] }),
                    );
                    proof {
                        assert(ch@ == cs[j as int]);
                        assert(prev[self@].children.remove(j as int) =~= cs.take(j as int));
                        assert(arena@ =~~= s1);
                    }
                    arena.nodes[ch.id].parent_idx = None;
                    proof {
                        assert(arena@ =~~= detach_one(prev, self@, j as int));
                        lemma_wf_detach(prev, self@, j as int);
                        assert(cs.skip(j as int) =~= seq![cs[j as int]] + cs.skip(j + 1));
                        assert(cs[j as int] != self@);
                        assert(arena@[cs[j as int]] =~~= (NodeView {
                            parent: None,
                            ..s[cs[j as int]]
                        }));
                        assert(arena@[self@] =~~= (NodeView {
                            children: cs.take(j as int),
                            ..s[self@]
                        }));
                        assert forall|m: int|
                            j < m < n implies arena@[(#[trigger] cs[m])] == (NodeView {
                            parent: None,
                            ..s[cs[m]]
                        }) by {
                            assert(valid_child(s, self@, m));
                            assert(valid_child(s, self@, j as int));
                            assert(cs[m] != cs[j as int]);
                            assert(cs[m] != self@);
                            assert(arena@[cs[m]] == prev[cs[m]]);
                        }
                        assert forall|x: int|
                            0 <= x < s.len() && x != self@ && !cs.skip(j as int).contains(x)
                            implies arena@[x] == s[x] by {
                            assert(!cs.skip(j + 1).contains(x)) by {
                                if cs.skip(j + 1).contains(x) {
                                    let w = choose|w: int|
                                        0 <= w < cs.skip(j + 1).len() && #[trigger] cs.skip(
                                            j + 1,
                                        )[w] == x;
                                    assert(cs.skip(j as int)[w + 1] == x);
                                    assert(cs.skip(j as int).contains(x));
                                }
                            }
                            assert(cs.skip(j as int)[0] == cs[j as int]);
                            assert(x != cs[j as int]);
                            assert(arena@[x] == prev[x]);
                        }
                    }
                },
                None => {
                    proof {
                        assert(false);
                    }
                },
            }
        }
        proof {
            assert(cs.take(0) =~= Seq::<int>::empty());
            assert(cs.skip(0) =~= cs);
            assert(arena@[self@] =~~= (NodeView { children: Seq::empty(), ..s[self@] }));
        }
    }

    /// Resolves the parent back-reference: the handle of the node this one
    /// is attached to, or nothing for a root or detached node.
    pub fn parent(&self, arena: &Arena) -> (r: Option<Element>)
        requires
            wf(arena@),
            self@ < arena@.len(),
        ensures
            (r is Some) <==> (arena@[self@].parent is Some),
            r matches Some(e) ==> arena@[self@].parent == Some(e@),
    {
        match arena.nodes[self.id].parent_idx {
            Some(p) => Some(Element { id: p }),
            None => None,
        }
    }

    /// A snapshot of the current children, in attachment order; mutating the
    /// returned list does not affect the tree.
    #[verifier::loop_isolation(false)]
    pub fn children(&self, arena: &Arena) -> (r: Vec<Element>)
        requires
            wf(arena@),
            self@ < arena@.len(),
        ensures
            ids_view(r@) == arena@[self@].children,
    {
        let node = &arena.nodes[self.id];
        let n = node.children.len();
        let mut out: Vec<Element> = Vec::new();
        let mut k: usize = 0;
        proof {
            assert(ids_view(out@) =~= arena@[self@].children.take(0));
        }
        while k < n
            invariant
                self@ < arena@.len(),
                n == arena@[self@].children.len(),
                n == arena.nodes@[self@].children@.len(),
                k <= n,
                ids_view(out@) == arena@[self@].children.take(k as int),
            decreases n - k,
        {
            out.push(node.children[k]);
            proof {
                assert(ids_view(out@) =~= arena@[self@].children.take(k + 1));
            }
            k += 1;
        }
        proof {
            assert(arena@[self@].children.take(n as int) =~= arena@[self@].children);
        }
        out
    }

    /// Renders this node and its whole subtree into a markup string, with
    /// `split_s` inserted between fragments. Rendering changes nothing.
    pub fn render(&self, arena: &Arena, split_s: &str) -> (r: String)
        requires
            wf(arena@),
            self@ < arena@.len(),
        ensures
            r@ == render_node(arena@, self@, split_s@),
    {
        render_at(arena, self.id, split_s)
    }

    /// A human-readable dump of this node: its tag, whether a parent is
    /// present, and — when non-empty — its content, attributes and child
    /// count.
    #[verifier::rlimit(100)]
    pub fn debug_string(&self, arena: &Arena) -> (r: String)
        requires
            wf(arena@),
            self@ < arena@.len(),
        ensures
            r@ == debug_view(arena@[self@]),
    {
        proof {
            assert(arena@[self@] == arena.nodes@[self@]@);
            reveal_strlit("Element[\"");
            reveal_strlit("\"]\n");
            reveal_strlit("  parent: HAS\n");
            reveal_strlit("  parent: None\n");
            reveal_strlit("  content: \"");
            reveal_strlit("\"\n");
            reveal_strlit("  kws:");
            reveal_strlit("\n");
            reveal_strlit("  children<");
            reveal_strlit(">\n");
            assert("Element[\""@ =~= seq!['E', 'l', 'e', 'm', 'e', 'n', 't', '[', '"']);
            assert("\"]\n"@ =~= seq!['"', ']', '\n']);
            assert("  parent: HAS\n"@ =~= seq![' ', ' ', 'p', 'a', 'r', 'e', 'n', 't', ':', ' ',
                'H', 'A', 'S', '\n']);
            assert("  parent: None\n"@ =~= seq![' ', ' ', 'p', 'a', 'r', 'e', 'n', 't', ':', ' ',
                'N', 'o', 'n', 'e', '\n']);
            assert("  content: \""@ =~= seq![' ', ' ', 'c', 'o', 'n', 't', 'e', 'n', 't', ':',
                ' ', '"']);
            assert("\"\n"@ =~= seq!['"', '\n']);
            assert("  kws:"@ =~= seq![' ', ' ', 'k', 'w', 's', ':']);
            assert("\n"@ =~= seq!['\n']);
            assert("  children<"@ =~= seq![' ', ' ', 'c', 'h', 'i', 'l', 'd', 'r', 'e', 'n', '<']);
            assert(">\n"@ =~= seq!['>', '\n']);
        }
        let node = &arena.nodes[self.id];
        let mut out = String::new();
        out.append("Element[\"");
        out.append(node.tag.as_str());
        out.append("\"]\n");
        if node.parent_idx.is_some() {
            out.append("  parent: HAS\n");
        } else {
            out.append("  parent: None\n");
        }
        if !node.content.as_str().is_empty() {
            out.append("  content: \"");
            out.append(node.content.as_str());
            out.append("\"\n");
        }
        if node.kws.len() > 0 {
            out.append("  kws:");
            append_attrs(&mut out, &node.kws);
            out.append("\n");
        }
        if node.children.len() > 0 {
            out.append("  children<");
            let cnt = usize_to_string(node.children.len());
            out.append(cnt.as_str());
            out.append(">\n");
        }
        proof {
            assert(out@ =~= debug_view(arena@[self@]));
        }
        out
    }
}

/// Law: raw-mode transcoding undoes construction-time escaping — a node
/// whose stored content is the escaped form of some text (as `new`,
/// `configcnt` and the attribute setters store it outside raw mode) gets
/// exactly that text back when raw mode unescapes it.
pub proof fn lemma_raw_mode_round_trip(s: Seq<NodeView>, i: int, c0: Seq<char>)
    requires
        0 <= i < s.len(),
        s[i].content == escaped(c0),
    ensures
        unescaped(s[i].content) == c0,
{
    crate::codec::lemma_unescape_escape(c0);
}

/// Law: in a well-formed arena every child entry resolves back to the node
/// holding it — the parent reference of the `k`-th child of `p` is `p`.
pub proof fn lemma_child_parent(s: Seq<NodeView>, p: int, k: int)
    requires
        wf(s),
        0 <= p < s.len(),
        0 <= k < s[p].children.len(),
    ensures
        0 <= s[p].children[k] < s.len(),
        s[s[p].children[k]].parent == Some(p),
{
    assert(node_ok(s, p));
    assert(valid_child(s, p, k));
}

/// Law: in a well-formed arena a parent reference is matched by membership —
/// a node whose parent is `p` appears among `p`'s children.
pub proof fn lemma_parent_child(s: Seq<NodeView>, c: int, p: int)
    requires
        wf(s),
        0 <= c < s.len(),
        s[c].parent == Some(p),
    ensures
        0 <= p < s.len(),
        s[p].children.contains(c),
{
    assert(node_ok(s, c));
}

/// Appends each attribute as ` name="value"` in stored order.
#[verifier::loop_isolation(false)]
fn append_attrs(out: &mut String, kws: &Vec<(String, String)>)
    ensures
        final(out)@ == old(out)@ + render_attrs(attrs_view(kws@)),
{
    let ghost base = out@;
    let ghost m = attrs_view(kws@);
    let n = kws.len();
    let mut k: usize = 0;
    proof {
        reveal_strlit(" ");
        reveal_strlit("=\"");
        reveal_strlit("\"");
        assert(" "@ =~= seq![' ']);
        assert("=\""@ =~= seq!['=', '"']);
        assert("\""@ =~= seq!['"']);
        assert(base + render_attrs(m.take(0)) =~= base);
    }
    while k < n
        invariant
            k <= n,
            out@ == base + render_attrs(m.take(k as int)),
        decreases n - k,
    {
        out.append(" ");
        out.append(kws[k].0.as_str());
        out.append("=\"");
        out.append(kws[k].1.as_str());
        out.append("\"");
        proof {
            assert(m.take(k + 1).drop_last() =~= m.take(k as int));
            assert(m.take(k + 1).last() == m[k as int]);
            assert(out@ =~= base + render_attrs(m.take(k + 1)));
        }
        k += 1;
    }
    proof {
        assert(m.take(n as int) =~= m);
    }
}

/// Picks the character for one decimal digit.
fn digit_exec(d: usize) -> (c: char)
    requires
        d < 10,
    ensures
        c == digit_char(d as nat),
{
    if d == 0 {
        '0'
    } else if d == 1 {
        '1'
    } else if d == 2 {
        '2'
    } else if d == 3 {
        '3'
    } else if d == 4 {
        '4'
    } else if d == 5 {
        '5'
    } else if d == 6 {
        '6'
    } else if d == 7 {
        '7'
    } else if d == 8 {
        '8'
    } else {
        '9'
    }
}

/// Writes a number in decimal, most significant digit first.
fn usize_to_string(x: usize) -> (r: String)
    ensures
        r@ == dec_digits(x as nat),
    decreases x,
{
    if x < 10 {
        let mut s = String::new();
        let d = digit_exec(x);
        push_char(&mut s, d);
        proof {
            assert(s@ =~= seq![digit_char(x as nat)]);
        }
        s
    } else {
        let mut s = usize_to_string(x / 10);
        let d = digit_exec(x % 10);
        push_char(&mut s, d);
        proof {
            assert(s@ =~= dec_digits((x / 10) as nat) + seq![digit_char((x % 10) as nat)]);
        }
        s
    }
}

#[verifier::loop_isolation(false)]
fn render_at(arena: &Arena, i: usize, sep: &str) -> (r: String)
    requires
        wf(arena@),
        i < arena@.len(),
    ensures
        r@ == render_node(arena@, i as int, sep@),
    decreases arena@[i as int].height,
{
    proof {
        assert(arena@[i as int] == arena.nodes@[i as int]@);
        assert(node_ok(arena@, i as int));
    }
    let node = &arena.nodes[i];
    if node.tag.as_str().is_empty() {
        let r = node.content.clone();
        return r;
    }
    let ghost s = arena@;
    let ghost nv = s[i as int];
    let mut out = String::new();
    proof {
        reveal_strlit("<");
        reveal_strlit(">");
        reveal_strlit("</");
        assert("<"@ =~= seq!['<']);
        assert(">"@ =~= seq!['>']);
        assert("</"@ =~= seq!['<', '/']);
    }
    out.append("<");
    out.append(node.tag.as_str());
    append_attrs(&mut out, &node.kws);
    out.append(">");
    out.append(node.content.as_str());
    let ghost open_part = seq!['<'] + nv.tag + render_attrs(nv.attrs) + seq!['>'] + nv.content;
    proof {
        assert(out@ =~= open_part);
        assert(out@ =~= open_part + render_children(s, nv.children.take(0), sep@, nv.height));
    }
    let cn = node.children.len();
    let mut k: usize = 0;
    while k < cn
        invariant
            k <= cn,
            out@ == open_part + render_children(s, nv.children.take(k as int), sep@, nv.height),
        decreases cn - k,
    {
        out.append(sep);
        let child = node.children[k];
        proof {
            assert(valid_child(s, i as int, k as int));
        }
        let sub = render_at(arena, child.id, sep);
        out.append(sub.as_str());
        proof {
            assert(nv.children.take(k + 1).drop_last() =~= nv.children.take(k as int));
            assert(nv.children.take(k + 1).last() == nv.children[k as int]);
            assert(out@ =~= open_part + render_children(
                s,
                nv.children.take(k + 1),
                sep@,
                nv.height,
            ));
        }
        k += 1;
    }
    proof {
        assert(nv.children.take(cn as int) =~= nv.children);
    }
    if node.onetag {
        out.append(sep);
    } else if cn > 0 {
        out.append(sep);
        out.append("</");
        out.append(node.tag.as_str());
        out.append(">");
    } else {
        out.append("</");
        out.append(node.tag.as_str());
        out.append(">");
    }
    proof {
        assert(out@ =~= render_node(s, i as int, sep@));
    }
    out
}

} // verus!
