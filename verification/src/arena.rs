//! The owning container of one tree: a dense vector of labeled nodes,
//! addressed by position, with a movable cursor for append-oriented
//! construction.
//!
//! Every public operation preserves the structural invariant [`Arena::wf`]:
//! node positions match their stored indices, all references stay in
//! range, parent and child references mirror one another, exactly one
//! node is parentless, and every parent chain reaches the root.
//!
//! There is deliberately no operation handing out a bare mutable
//! reference to a stored node: such a loan would let a caller break
//! the invariant behind the arena's back. Mutation goes through the
//! arena's own operations, which restate the invariant.

use vstd::prelude::*;

use crate::node::{child_seq, Node, NodeView};
use crate::shape::{
    depth_of, descendants_of, indexed_ok, kids, lemma_child_depth, lemma_lineage_in_range,
    lemma_preorder_list_fuel, lemma_preorder_list_snoc, lemma_rooted_extend, lemma_rooted_mono,
    lineage_of, lineage_within, preorder, preorder_list, rooted_within, wf_links, Link,
};
use crate::text::str_eq;
use crate::value::{parse_kind, ValueKind};

verus! {

/// A recoverable failure of an arena operation.
#[derive(Clone, Copy, Debug, PartialEq, Eq, Structural)]
pub enum ArenaError {
    /// The cursor is unset, so there is no current node to append under.
    NoCurrentPosition,
    /// An explicit position does not address a live node.
    OutOfBounds,
}

/// The structural part of one node.
pub open spec fn node_link(n: NodeView) -> Link {
    Link { index: n.index, parent: n.parent, children: n.children }
}

/// The structural skeleton of a whole node sequence.
pub open spec fn links_of(s: Seq<NodeView>) -> Seq<Link> {
    s.map_values(|n: NodeView| node_link(n))
}

/// `n` with one more child registered.
pub open spec fn with_child(n: NodeView, c: usize) -> NodeView {
    NodeView { children: Some(child_seq(n).push(c)), ..n }
}

/// A fresh childless node under `parent`.
pub open spec fn leaf_node(name: Seq<char>, kind: ValueKind, index: usize, parent: usize) -> NodeView {
    NodeView { name, kind, index, parent: Some(parent), children: None }
}

/// The node sequence after appending a fresh leaf under position `p`:
/// `p` gains the new position as its last child, and the new node sits
/// at the end.
pub open spec fn appended_leaf(s: Seq<NodeView>, p: int, name: Seq<char>, kind: ValueKind) -> Seq<
    NodeView,
> {
    s.update(p, with_child(s[p], s.len() as usize)).push(
        leaf_node(name, kind, s.len() as usize, p as usize),
    )
}

/// An index-addressed tree of labeled nodes.
pub struct Arena {
    nodes: Vec<Node>,
    root: usize,
    curr: Option<usize>,
}

impl View for Arena {
    type V = Seq<NodeView>;

    closed spec fn view(&self) -> Seq<NodeView> {
        Seq::new(self.nodes@.len(), |i: int| self.nodes@[i]@)
    }
}

impl Arena {
    /// The position of the root node; meaningful only when the arena is
    /// not empty.
    pub closed spec fn spec_root(&self) -> usize {
        self.root
    }

    /// The cursor: the current position of the append-oriented
    /// construction interface.
    pub closed spec fn spec_curr(&self) -> Option<usize> {
        self.curr
    }

    /// The structural invariant; every public operation preserves it.
    /// The cursor is not part of it: it walks naively and every read
    /// through it checks bounds itself.
    pub open spec fn wf(&self) -> bool {
        wf_links(links_of(self@), self.spec_root())
    }

    /// An empty arena: no nodes, cursor unset.
    pub fn new() -> (r: Arena)
        ensures
            r@.len() == 0,
            r.wf(),
            r.spec_curr() is None,
            r.spec_root() == 0,
    {
        let r = Arena { nodes: Vec::new(), root: 0, curr: None };
        proof {
            assert(links_of(r@).len() == 0);
        }
        r
    }

    /// An empty arena with a capacity hint for the backing store.
    pub fn new_with_capacity(capacity: usize) -> (r: Arena)
        ensures
            r@.len() == 0,
            r.wf(),
            r.spec_curr() is None,
            r.spec_root() == 0,
    {
        let r = Arena { nodes: Vec::with_capacity(capacity), root: 0, curr: None };
        proof {
            assert(links_of(r@).len() == 0);
        }
        r
    }

    pub fn len(&self) -> (r: usize)
        ensures
            r == self@.len(),
    {
        self.nodes.len()
    }

    pub fn is_empty(&self) -> (r: bool)
        ensures
            r == (self@.len() == 0),
    {
        self.nodes.is_empty()
    }

    pub fn root_index(&self) -> (r: usize)
        ensures
            r == self.spec_root(),
    {
        self.root
    }

    /// The cursor, if it is set.
    pub fn current_position(&self) -> (r: Option<usize>)
        ensures
            r == self.spec_curr(),
    {
        self.curr
    }

    pub fn get_node(&self, index: usize) -> (r: Option<&Node>)
        ensures
            match r {
                Some(n) => index < self@.len() && n@ == self@[index as int],
                None => index >= self@.len(),
            },
    {
        if index < self.nodes.len() {
            Some(&self.nodes[index])
        } else {
            None
        }
    }

    /// The root node of a non-empty arena.
    pub fn get_root(&self) -> (r: &Node)
        requires
            self.wf(),
            self@.len() > 0,
        ensures
            r@ == self@[self.spec_root() as int],
            r@.parent is None,
    {
        proof {
            let ls = links_of(self@);
            assert(ls[self.root as int].parent == self@[self.root as int].parent);
            assert(ls[self.root as int].parent is None);
        }
        &self.nodes[self.root]
    }
}

/// Appending a fresh leaf under a live position keeps the skeleton
/// well-formed.
pub(crate) proof fn lemma_append_leaf_wf(s: Seq<Link>, root: usize, p: int, s2: Seq<Link>, fresh: usize)
    requires
        wf_links(s, root),
        0 <= p < s.len(),
        fresh as int == s.len(),
        s2 =~= s.update(
            p,
            Link { children: Some(kids(s[p]).push(fresh)), ..s[p] },
        ).push(Link { index: fresh, parent: Some(p as usize), children: None }),
    ensures
        wf_links(s2, root),
{
    let n = s.len() as int;
    assert forall|i: int| 0 <= i < s2.len() implies (#[trigger] s2[i].index) == i by {}
    assert forall|i: int|
        0 <= i < s2.len() && s2[i].parent is Some implies (#[trigger] s2[i].parent)->Some_0
        < s2.len() by {
        if i < n {
            assert(s2[i].parent == s[i].parent);
        }
    }
    assert forall|i: int, j: int| 0 <= i < s2.len() && 0 <= j < kids(s2[i]).len() implies (
    #[trigger] kids(s2[i])[j]) < s2.len() by {
        if i == p {
            if j < kids(s[p]).len() {
                assert(kids(s2[i])[j] == kids(s[p])[j]);
            } else {
                assert(kids(s2[i])[j] == fresh);
            }
        } else if i < n {
            assert(kids(s2[i]) == kids(s[i]));
        }
    }
    assert forall|i: int| 0 <= i < s2.len() && (#[trigger] s2[i]).children is Some implies kids(
        s2[i],
    ).len() > 0 by {
        if i < n && i != p {
            assert(s2[i] == s[i]);
        }
    }
    assert forall|i: int, j1: int, j2: int|
        0 <= i < s2.len() && 0 <= j1 < kids(s2[i]).len() && 0 <= j2 < kids(s2[i]).len() && j1
            != j2 implies #[trigger] kids(s2[i])[j1] != #[trigger] kids(s2[i])[j2] by {
        if i == p {
            let old_kids = kids(s[p]);
            if j1 < old_kids.len() && j2 < old_kids.len() {
                assert(kids(s2[i])[j1] == old_kids[j1]);
                assert(kids(s2[i])[j2] == old_kids[j2]);
            } else if j1 < old_kids.len() {
                assert(kids(s2[i])[j1] == old_kids[j1]);
                assert(kids(s2[i])[j2] == fresh);
                assert(old_kids[j1] < s.len());
            } else if j2 < old_kids.len() {
                assert(kids(s2[i])[j1] == fresh);
                assert(kids(s2[i])[j2] == old_kids[j2]);
                assert(old_kids[j2] < s.len());
            }
        } else if i < n {
            assert(kids(s2[i]) == kids(s[i]));
        }
    }
    assert forall|i: int, j: int| 0 <= i < s2.len() && 0 <= j < kids(s2[i]).len() implies s2[
    #[trigger] kids(s2[i])[j] as int].parent == Some(i as usize) by {
        if i == p {
            if j < kids(s[p]).len() {
                assert(kids(s2[i])[j] == kids(s[p])[j]);
                let c = kids(s[p])[j];
                assert(s[c as int].parent == Some(p as usize));
                assert(c < s.len());
                assert(s2[c as int].parent == s[c as int].parent);
            } else {
                assert(kids(s2[i])[j] == fresh);
                assert(s2[n].parent == Some(p as usize));
            }
        } else if i < n {
            assert(kids(s2[i]) == kids(s[i]));
            let c = kids(s[i])[j];
            assert(s[c as int].parent == Some(i as usize));
            assert(c < s.len());
            assert(s2[c as int].parent == s[c as int].parent);
        }
    }
    assert forall|c: int| 0 <= c < s2.len() && (#[trigger] s2[c].parent) is Some implies kids(
        s2[s2[c].parent->Some_0 as int],
    ).contains(c as usize) by {
        if c < n {
            assert(s2[c].parent == s[c].parent);
            let q = s[c].parent->Some_0;
            assert(kids(s[q as int]).contains(c as usize));
            let j = choose|j: int|
                0 <= j < kids(s[q as int]).len() && kids(s[q as int])[j] == c as usize;
            if q as int == p {
                assert(kids(s2[q as int])[j] == c as usize);
            } else {
                assert(kids(s2[q as int]) == kids(s[q as int]));
            }
        } else {
            assert(s2[c].parent == Some(p as usize));
            assert(kids(s2[p])[kids(s[p]).len() as int] == fresh);
        }
    }
    assert(s2.len() > 0);
    assert forall|i: int| 0 <= i < s2.len() implies ((#[trigger] s2[i]).parent is None <==> i
        == root) by {
        if i < n {
            assert(s2[i].parent == s[i].parent);
            assert(s[i].parent is None <==> i == root);
        } else {
            assert(s2[i].parent == Some(p as usize));
            assert(s[root as int].parent is None);
        }
    }
    assert forall|i: int| 0 <= i < s2.len() implies #[trigger] rooted_within(s2, i, s2.len()) by {
        assert forall|k: int| 0 <= k < s.len() implies (#[trigger] s2[k]).parent == s[k].parent by {}
        if i < n {
            assert(rooted_within(s, i, s.len()));
            lemma_rooted_extend(s, s2, i, s.len());
            lemma_rooted_mono(s2, i, s.len(), s2.len());
        } else {
            assert(rooted_within(s, p, s.len()));
            lemma_rooted_extend(s, s2, p, s.len());
            assert(rooted_within(s2, p, s.len()));
            assert(s2[i].parent == Some(p as usize));
            assert(rooted_within(s2, i, s2.len()));
        }
    }
}

impl Arena {
    /// Creates the root node of an empty arena and sets the cursor to
    /// it. On a non-empty arena this is a rejected no-op: the arena
    /// keeps its single existing root, and `false` is returned.
    pub fn add_root_node(&mut self, value: &str, kind: &str) -> (r: bool)
        requires
            old(self).wf(),
            parse_kind(kind@) is Some,
        ensures
            final(self).wf(),
            r == (old(self)@.len() == 0),
            old(self)@.len() == 0 ==> {
                &&& final(self)@ =~= seq![
                    NodeView {
                        name: value@,
                        kind: parse_kind(kind@)->Some_0,
                        index: 0,
                        parent: None,
                        children: None,
                    },
                ]
                &&& final(self).spec_curr() == Some(0usize)
                &&& final(self).spec_root() == 0
            },
            old(self)@.len() > 0 ==> {
                &&& final(self)@ == old(self)@
                &&& final(self).spec_curr() == old(self).spec_curr()
                &&& final(self).spec_root() == old(self).spec_root()
            },
    {
        if !self.nodes.is_empty() {
            return false;
        }
        let node = Node {
            index: 0,
            value: crate::value::Value::from_strs(value, kind),
            parent: None,
            children: None,
        };
        self.nodes.push(node);
        self.root = 0;
        self.curr = Some(0);
        proof {
            let ls = links_of(self@);
            assert(ls.len() == 1);
            assert(ls[0].parent is None);
            assert(rooted_within(ls, 0, 1));
            assert forall|i: int| 0 <= i < ls.len() implies #[trigger] rooted_within(
                ls,
                i,
                ls.len(),
            ) by {
                assert(i == 0);
            }
            assert(wf_links(ls, 0));
        }
        true
    }

    /// Appends a new node labeled `value` under the node at `parent`.
    /// When `parent` does not address a live node nothing changes.
    pub fn add_node(&mut self, value: &str, kind: &str, parent: usize)
        requires
            old(self).wf(),
            parse_kind(kind@) is Some,
        ensures
            final(self).wf(),
            final(self).spec_curr() == old(self).spec_curr(),
            final(self).spec_root() == old(self).spec_root(),
            parent < old(self)@.len() ==> final(self)@ == appended_leaf(
                old(self)@,
                parent as int,
                value@,
                parse_kind(kind@)->Some_0,
            ),
            parent >= old(self)@.len() ==> final(self)@ == old(self)@,
    {
        let index = self.nodes.len();
        if parent < index {
            proof {
                let ls = links_of(self@);
                assert(!child_seq(self@[parent as int]).contains(index)) by {
                    if child_seq(self@[parent as int]).contains(index) {
                        let j = choose|j: int|
                            0 <= j < child_seq(self@[parent as int]).len() && child_seq(
                                self@[parent as int],
                            )[j] == index;
                        assert(kids(ls[parent as int])[j] == index);
                        assert(kids(ls[parent as int])[j] < ls.len());
                    }
                }
            }
            self.nodes[parent].add_child(index);
            let node = Node::new(value, kind, index, parent);
            self.nodes.push(node);
            proof {
                let old_s = old(self)@;
                let s2 = appended_leaf(old_s, parent as int, value@, parse_kind(kind@)->Some_0);
                assert(final(self)@ =~= s2);
                let ls = links_of(old_s);
                let ls2 = links_of(final(self)@);
                assert(ls2 =~= ls.update(
                    parent as int,
                    Link {
                        children: Some(kids(ls[parent as int]).push(index)),
                        ..ls[parent as int]
                    },
                ).push(Link { index, parent: Some(parent), children: None }));
                lemma_append_leaf_wf(ls, old(self).spec_root(), parent as int, ls2, index);
            }
        }
    }

    /// Appends a new node under the cursor and hands back its position;
    /// the cursor stays on the parent. Fails when the cursor is unset —
    /// which happens exactly while the arena is empty of a root — or
    /// when the naive cursor walk has left it past the stored range.
    pub fn add_child_node(&mut self, value: &str, kind: &str) -> (r: Result<usize, ArenaError>)
        requires
            old(self).wf(),
            parse_kind(kind@) is Some,
        ensures
            final(self).wf(),
            final(self).spec_curr() == old(self).spec_curr(),
            final(self).spec_root() == old(self).spec_root(),
            match old(self).spec_curr() {
                Some(c) => if c < old(self)@.len() {
                    r == Ok::<usize, ArenaError>(old(self)@.len() as usize) && final(self)@
                        == appended_leaf(old(self)@, c as int, value@, parse_kind(kind@)->Some_0)
                } else {
                    r == Err::<usize, ArenaError>(ArenaError::OutOfBounds) && final(self)@ == old(
                        self,
                    )@
                },
                None => r == Err::<usize, ArenaError>(ArenaError::NoCurrentPosition) && final(self)@
                    == old(self)@,
            },
    {
        match self.curr {
            Some(c) => {
                let index = self.nodes.len();
                if c >= index {
                    return Err(ArenaError::OutOfBounds);
                }
                self.add_node(value, kind, c);
                Ok(index)
            },
            None => Err(ArenaError::NoCurrentPosition),
        }
    }

    /// Moves the cursor to `current + 1`, or to position 0 when it is
    /// unset. This is the intentionally naive cursor walk: plain index
    /// arithmetic, which may leave the cursor past the stored range;
    /// every read through the cursor checks bounds itself.
    pub fn advance(&mut self)
        requires
            old(self).spec_curr() matches Some(c) ==> c < usize::MAX,
        ensures
            final(self)@ == old(self)@,
            final(self).spec_root() == old(self).spec_root(),
            final(self).spec_curr() == (match old(self).spec_curr() {
                None => Some(0usize),
                Some(c) => Some((c + 1) as usize),
            }),
    {
        match self.curr {
            None => {
                self.curr = Some(0);
            },
            Some(c) => {
                self.curr = Some(c + 1);
            },
        }
    }

    /// Moves the cursor to the parent of the current node; at the root,
    /// with the cursor unset, or with the cursor past the stored range,
    /// nothing changes.
    pub fn move_to_parent(&mut self)
        requires
            old(self).wf(),
        ensures
            final(self).wf(),
            final(self)@ == old(self)@,
            final(self).spec_root() == old(self).spec_root(),
            final(self).spec_curr() == (match old(self).spec_curr() {
                Some(c) => if c < old(self)@.len() {
                    match old(self)@[c as int].parent {
                        Some(p) => Some(p),
                        None => Some(c),
                    }
                } else {
                    Some(c)
                },
                None => None::<usize>,
            }),
    {
        if let Some(c) = self.curr {
            if c >= self.nodes.len() {
                return;
            }
            match self.nodes[c].parent() {
                Some(p) => {
                    proof {
                        let ls = links_of(self@);
                        assert(ls[c as int].parent == self@[c as int].parent);
                    }
                    self.curr = Some(p);
                },
                None => {},
            }
        }
    }

    /// The parent index of the node at `index`: absent for the root and
    /// for positions outside the arena.
    pub fn parent_from_index(&self, index: usize) -> (r: Option<usize>)
        ensures
            r == (if index < self@.len() {
                self@[index as int].parent
            } else {
                None::<usize>
            }),
    {
        match self.get_node(index) {
            Some(node) => node.parent(),
            None => None,
        }
    }

    /// The parent index of the node under the cursor; absent when the
    /// cursor is unset or past the stored range.
    pub fn parent(&self) -> (r: Option<usize>)
        ensures
            r == (match self.spec_curr() {
                Some(c) => if c < self@.len() {
                    self@[c as int].parent
                } else {
                    None::<usize>
                },
                None => None::<usize>,
            }),
    {
        match self.curr {
            Some(c) => self.parent_from_index(c),
            None => None,
        }
    }

    /// The parent node of the node at `index`: absent for the root and
    /// for positions outside the arena.
    pub fn get_parent_node(&self, index: usize) -> (r: Option<&Node>)
        requires
            self.wf(),
        ensures
            match r {
                Some(n) => {
                    &&& index < self@.len()
                    &&& index != self.spec_root()
                    &&& self@[index as int].parent is Some
                    &&& n@ == self@[self@[index as int].parent->Some_0 as int]
                },
                None => index >= self@.len() || index == self.spec_root(),
            },
    {
        if index == self.root {
            return None;
        }
        if index >= self.nodes.len() {
            return None;
        }
        proof {
            let ls = links_of(self@);
            assert(ls[index as int].parent == self@[index as int].parent);
            assert(ls[index as int].parent is Some);
        }
        match self.nodes[index].parent() {
            Some(p) => {
                proof {
                    let ls = links_of(self@);
                    assert(ls[index as int].parent->Some_0 < ls.len());
                }
                Some(&self.nodes[p])
            },
            None => {
                proof {
                    assert(false);
                }
                None
            },
        }
    }

    /// The ancestor positions of the node at `index`, nearest ancestor
    /// first, ending at the root. Empty for the root itself and for
    /// positions outside the arena.
    pub fn lineage_for_index(&self, index: usize) -> (r: Vec<usize>)
        requires
            self.wf(),
        ensures
            r@ == lineage_of(links_of(self@), index as int),
    {
        let ghost ls = links_of(self@);
        let mut r: Vec<usize> = Vec::new();
        if index >= self.nodes.len() {
            proof {
                assert(lineage_of(ls, index as int) =~= Seq::empty());
                assert(r@ =~= lineage_of(ls, index as int));
            }
            return r;
        }
        let mut cur: usize = index;
        let ghost mut fuel: nat = ls.len();
        proof {
            assert(rooted_within(ls, index as int, ls.len()));
            assert(r@ + lineage_within(ls, cur as int, fuel) =~= lineage_of(ls, index as int));
        }
        loop
            invariant
                self.wf(),
                ls == links_of(self@),
                cur < self@.len(),
                rooted_within(ls, cur as int, fuel),
                r@ + lineage_within(ls, cur as int, fuel) == lineage_of(ls, index as int),
            decreases fuel,
        {
            match self.nodes[cur].parent() {
                Some(p) => {
                    proof {
                        assert(ls[cur as int].parent == self@[cur as int].parent);
                        assert(fuel > 0);
                        assert(rooted_within(ls, p as int, (fuel - 1) as nat));
                        assert(lineage_within(ls, cur as int, fuel) == seq![p] + lineage_within(
                            ls,
                            p as int,
                            (fuel - 1) as nat,
                        ));
                        assert(r@.push(p) + lineage_within(ls, p as int, (fuel - 1) as nat) =~= r@
                            + lineage_within(ls, cur as int, fuel));
                    }
                    r.push(p);
                    cur = p;
                    proof {
                        fuel = (fuel - 1) as nat;
                    }
                },
                None => {
                    proof {
                        assert(ls[cur as int].parent == self@[cur as int].parent);
                        assert(lineage_within(ls, cur as int, fuel) =~= Seq::empty());
                        assert(r@ =~= r@ + lineage_within(ls, cur as int, fuel));
                    }
                    return r;
                },
            }
        }
    }

    /// The ancestor positions of the node under the cursor, nearest
    /// first; empty when the cursor is unset.
    pub fn lineage(&self) -> (r: Vec<usize>)
        requires
            self.wf(),
        ensures
            r@ == (match self.spec_curr() {
                Some(c) => lineage_of(links_of(self@), c as int),
                None => Seq::<usize>::empty(),
            }),
    {
        match self.curr {
            Some(c) => self.lineage_for_index(c),
            None => Vec::new(),
        }
    }

    /// Copies of the ancestors of the node at `index`, nearest ancestor
    /// first, ending at the root.
    pub fn get_owned_parent_nodes(&self, index: usize) -> (r: Vec<Node>)
        requires
            self.wf(),
        ensures
            r@.len() == lineage_of(links_of(self@), index as int).len(),
            forall|k: int|
                0 <= k < r@.len() ==> (#[trigger] r@[k])@ == self@[lineage_of(
                    links_of(self@),
                    index as int,
                )[k] as int],
    {
        let ghost ls = links_of(self@);
        let idxs = self.lineage_for_index(index);
        proof {
            if index < self@.len() {
                assert(rooted_within(ls, index as int, ls.len()));
                lemma_lineage_in_range(ls, index as int, ls.len());
            } else {
                assert(lineage_of(ls, index as int) =~= Seq::empty());
            }
        }
        let mut r: Vec<Node> = Vec::new();
        let mut k: usize = 0;
        while k < idxs.len()
            invariant
                self.wf(),
                ls == links_of(self@),
                idxs@ == lineage_of(ls, index as int),
                k <= idxs@.len(),
                forall|j: int| 0 <= j < idxs@.len() ==> (#[trigger] idxs@[j]) < self@.len(),
                r@.len() == k,
                forall|j: int| 0 <= j < k ==> (#[trigger] r@[j])@ == self@[idxs@[j] as int],
            decreases idxs@.len() - k,
        {
            let i = idxs[k];
            r.push(self.nodes[i].duplicate());
            k = k + 1;
        }
        r
    }

    /// References to the ancestors of the node at `index`, nearest
    /// ancestor first, ending at the root.
    pub fn get_parent_nodes(&self, index: usize) -> (r: Vec<&Node>)
        requires
            self.wf(),
        ensures
            r@.len() == lineage_of(links_of(self@), index as int).len(),
            forall|k: int|
                0 <= k < r@.len() ==> (#[trigger] r@[k])@ == self@[lineage_of(
                    links_of(self@),
                    index as int,
                )[k] as int],
    {
        let ghost ls = links_of(self@);
        let idxs = self.lineage_for_index(index);
        proof {
            if index < self@.len() {
                assert(rooted_within(ls, index as int, ls.len()));
                lemma_lineage_in_range(ls, index as int, ls.len());
            } else {
                assert(lineage_of(ls, index as int) =~= Seq::empty());
            }
        }
        let mut r: Vec<&Node> = Vec::new();
        let mut k: usize = 0;
        while k < idxs.len()
            invariant
                self.wf(),
                ls == links_of(self@),
                idxs@ == lineage_of(ls, index as int),
                k <= idxs@.len(),
                forall|j: int| 0 <= j < idxs@.len() ==> (#[trigger] idxs@[j]) < self@.len(),
                r@.len() == k,
                forall|j: int| 0 <= j < k ==> (#[trigger] r@[j])@ == self@[idxs@[j] as int],
            decreases idxs@.len() - k,
        {
            let i = idxs[k];
            r.push(&self.nodes[i]);
            k = k + 1;
        }
        r
    }
}

/// The views of a sequence of stored nodes.
pub open spec fn node_views(s: Seq<Node>) -> Seq<NodeView> {
    s.map_values(|n: Node| n@)
}

/// The views of the nodes at the given positions.
pub open spec fn views_at(s: Seq<NodeView>, idxs: Seq<usize>) -> Seq<NodeView> {
    idxs.map_values(|x: usize| s[x as int])
}

impl Arena {
    /// Copies of the direct children of the node at `index`, in list
    /// order; empty when the node has none or the position is not live.
    pub fn get_children(&self, index: usize) -> (r: Vec<Node>)
        requires
            self.wf(),
        ensures
            r@.len() == (if index < self@.len() {
                child_seq(self@[index as int]).len()
            } else {
                0
            }),
            index < self@.len() ==> forall|q: int|
                0 <= q < r@.len() ==> (#[trigger] r@[q])@ == self@[child_seq(
                    self@[index as int],
                )[q] as int],
    {
        let mut r: Vec<Node> = Vec::new();
        if index >= self.nodes.len() {
            return r;
        }
        let ghost ls = links_of(self@);
        match &self.nodes[index].children {
            Some(cs) => {
                let m = cs.len();
                let mut q: usize = 0;
                while q < m
                    invariant
                        self.wf(),
                        ls == links_of(self@),
                        index < self@.len(),
                        self@[index as int].children is Some,
                        cs@ == child_seq(self@[index as int]),
                        m == cs@.len(),
                        q <= m,
                        r@.len() == q,
                        forall|t: int|
                            0 <= t < q ==> (#[trigger] r@[t])@ == self@[child_seq(
                                self@[index as int],
                            )[t] as int],
                    decreases m - q,
                {
                    let c = cs[q];
                    proof {
                        assert(kids(ls[index as int])[q as int] == c);
                        assert(c < ls.len());
                    }
                    r.push(self.nodes[c].duplicate());
                    q = q + 1;
                }
            },
            None => {},
        }
        r
    }

    /// Appends to `children` a copy of every descendant of the node at
    /// `index`, in depth-first preorder: each child, then that child's
    /// own descendants. A position that is not live contributes nothing.
    pub fn _get_children_nodes(&self, index: usize, children: &mut Vec<Node>)
        requires
            self.wf(),
        ensures
            node_views(final(children)@) == node_views(old(children)@) + views_at(
                self@,
                descendants_of(links_of(self@), index as int),
            ),
        decreases self@.len() - depth_of(links_of(self@), index as int),
    {
        let ghost ls = links_of(self@);
        let ghost d = descendants_of(ls, index as int);
        if index >= self.nodes.len() {
            proof {
                assert(d =~= Seq::<usize>::empty());
                assert(views_at(self@, d) =~= Seq::<NodeView>::empty());
                assert(node_views(children@) =~= node_views(children@) + views_at(self@, d));
            }
            return;
        }
        let total = self.nodes.len();
        proof {
            assert(ls.len() == total);
        }
        match &self.nodes[index].children {
            None => {
                proof {
                    assert(kids(ls[index as int]) =~= Seq::<usize>::empty());
                    assert(d =~= Seq::<usize>::empty());
                    assert(views_at(self@, d) =~= Seq::<NodeView>::empty());
                    assert(node_views(children@) =~= node_views(children@) + views_at(self@, d));
                }
            },
            Some(cs) => {
                let m = cs.len();
                let mut q: usize = 0;
                proof {
                    assert(kids(ls[index as int]) == cs@);
                    assert(cs@.take(0) =~= Seq::<usize>::empty());
                    assert(preorder_list(ls, cs@.take(0), ls.len()) == Seq::<usize>::empty());
                    assert(node_views(children@) =~= node_views(children@) + views_at(
                        self@,
                        preorder_list(ls, cs@.take(0), ls.len()),
                    ));
                }
                while q < m
                    invariant
                        self.wf(),
                        ls == links_of(self@),
                        ls.len() <= usize::MAX,
                        index < self@.len(),
                        kids(ls[index as int]) == cs@,
                        m == cs@.len(),
                        q <= m,
                        node_views(children@) == node_views(old(children)@) + views_at(
                            self@,
                            preorder_list(ls, cs@.take(q as int), ls.len()),
                        ),
                    decreases m - q,
                {
                    let c = cs[q];
                    proof {
                        assert(kids(ls[index as int])[q as int] == c);
                        assert(kids(ls[index as int]).contains(c));
                        lemma_child_depth(ls, self.spec_root(), index as int, c);
                    }
                    let ghost mid = children@;
                    children.push(self.nodes[c].duplicate());
                    proof {
                        assert(node_views(children@) =~= node_views(mid) + seq![self@[c as int]]);
                    }
                    self._get_children_nodes(c, children);
                    proof {
                        let len = ls.len();
                        lemma_preorder_list_snoc(ls, cs@, q as int, len);
                        assert(preorder(ls, c, len) == seq![c] + preorder_list(
                            ls,
                            kids(ls[c as int]),
                            (len - 1) as nat,
                        ));
                        assert forall|t: int|
                            0 <= t < kids(ls[c as int]).len() implies kids(ls[c as int]).contains(
                            #[trigger] kids(ls[c as int])[t],
                        ) by {}
                        lemma_preorder_list_fuel(
                            ls,
                            self.spec_root(),
                            kids(ls[c as int]),
                            c,
                            (len - 1) as nat,
                            len,
                        );
                        assert(descendants_of(ls, c as int) == preorder_list(
                            ls,
                            kids(ls[c as int]),
                            len,
                        ));
                        assert(preorder(ls, c, len) == seq![c] + descendants_of(ls, c as int));
                        assert(views_at(self@, preorder_list(ls, cs@.take(q + 1), len)) =~= views_at(
                            self@,
                            preorder_list(ls, cs@.take(q as int), len),
                        ) + (seq![self@[c as int]] + views_at(
                            self@,
                            descendants_of(ls, c as int),
                        )));
                        assert(node_views(children@) =~= node_views(old(children)@) + views_at(
                            self@,
                            preorder_list(ls, cs@.take(q + 1), len),
                        ));
                    }
                    q = q + 1;
                }
                proof {
                    assert(cs@.take(m as int) =~= cs@);
                }
            },
        }
    }

    /// Copies of every descendant of the node at `index`, in depth-first
    /// preorder.
    pub fn get_children_nodes(&self, index: usize) -> (r: Vec<Node>)
        requires
            self.wf(),
        ensures
            node_views(r@) == views_at(self@, descendants_of(links_of(self@), index as int)),
    {
        let mut children: Vec<Node> = Vec::new();
        proof {
            assert(node_views(children@) =~= Seq::<NodeView>::empty());
        }
        self._get_children_nodes(index, &mut children);
        proof {
            assert(Seq::<NodeView>::empty() + views_at(
                self@,
                descendants_of(links_of(self@), index as int),
            ) =~= views_at(self@, descendants_of(links_of(self@), index as int)));
        }
        children
    }
}

/// The first position at or after `start` whose node is labeled `name`,
/// scanning in storage order.
pub open spec fn find_from(s: Seq<NodeView>, name: Seq<char>, start: int) -> Option<int>
    decreases s.len() - start,
    when 0 <= start
{
    if start >= s.len() {
        None
    } else if s[start].name == name {
        Some(start)
    } else {
        find_from(s, name, start + 1)
    }
}

/// The first position at or after `start` whose node is labeled `name`
/// and carries the kind `kind`.
pub open spec fn find_kind_from(s: Seq<NodeView>, name: Seq<char>, kind: ValueKind, start: int) -> Option<int>
    decreases s.len() - start,
    when 0 <= start
{
    if start >= s.len() {
        None
    } else if s[start].name == name && s[start].kind == kind {
        Some(start)
    } else {
        find_kind_from(s, name, kind, start + 1)
    }
}

/// A scan that has seen no match so far finds whatever a scan from the
/// current position finds.
proof fn lemma_find_skip(s: Seq<NodeView>, name: Seq<char>, start: int, i: int)
    requires
        0 <= start <= i <= s.len(),
        forall|j: int| start <= j < i ==> (#[trigger] s[j]).name != name,
    ensures
        find_from(s, name, start) == find_from(s, name, i),
    decreases i - start,
{
    if start < i {
        assert(s[start].name != name);
        lemma_find_skip(s, name, start + 1, i);
    }
}

proof fn lemma_find_kind_skip(s: Seq<NodeView>, name: Seq<char>, kind: ValueKind, start: int, i: int)
    requires
        0 <= start <= i <= s.len(),
        forall|j: int| start <= j < i ==> !((#[trigger] s[j]).name == name && s[j].kind == kind),
    ensures
        find_kind_from(s, name, kind, start) == find_kind_from(s, name, kind, i),
    decreases i - start,
{
    if start < i {
        lemma_find_kind_skip(s, name, kind, start + 1, i);
    }
}

impl Arena {
    /// The first node at or after position `start`, in storage order,
    /// whose label equals `value`.
    pub fn node_by_value_from_index(&self, value: &str, start: usize) -> (r: Option<&Node>)
        ensures
            match r {
                Some(n) => find_from(self@, value@, start as int) is Some && n@ == self@[find_from(
                    self@,
                    value@,
                    start as int,
                )->Some_0],
                None => find_from(self@, value@, start as int) is None,
            },
    {
        let mut i: usize = start;
        while i < self.nodes.len()
            invariant
                start <= i,
                i <= self@.len() || i == start,
                forall|j: int| start <= j < i ==> (#[trigger] self@[j]).name != value@,
            decreases self@.len() - i,
        {
            if str_eq(self.nodes[i].value_as_str(), value) {
                proof {
                    lemma_find_skip(self@, value@, start as int, i as int);
                }
                return Some(&self.nodes[i]);
            }
            i = i + 1;
        }
        proof {
            if start as int <= self@.len() {
                lemma_find_skip(self@, value@, start as int, self@.len() as int);
            }
        }
        None
    }

    /// The first node, in storage order, whose label equals `value`.
    pub fn find_node_by_value(&self, value: &str) -> (r: Option<&Node>)
        ensures
            match r {
                Some(n) => find_from(self@, value@, 0) is Some && n@ == self@[find_from(
                    self@,
                    value@,
                    0,
                )->Some_0],
                None => find_from(self@, value@, 0) is None,
            },
    {
        self.node_by_value_from_index(value, 0)
    }

    /// The first node, in storage order, whose label equals `value` and
    /// whose kind tag spells `kind`.
    pub fn find_node(&self, value: &str, kind: &str) -> (r: Option<&Node>)
        requires
            parse_kind(kind@) is Some,
        ensures
            match r {
                Some(n) => find_kind_from(self@, value@, parse_kind(kind@)->Some_0, 0) is Some
                    && n@ == self@[find_kind_from(
                    self@,
                    value@,
                    parse_kind(kind@)->Some_0,
                    0,
                )->Some_0],
                None => find_kind_from(self@, value@, parse_kind(kind@)->Some_0, 0) is None,
            },
    {
        let ghost k = parse_kind(kind@)->Some_0;
        let kind_parsed = match ValueKind::parse(kind) {
            Some(kp) => kp,
            None => {
                proof {
                    assert(false);
                }
                ValueKind::System
            },
        };
        let mut i: usize = 0;
        while i < self.nodes.len()
            invariant
                i <= self@.len(),
                kind_parsed == k,
                k == parse_kind(kind@)->Some_0,
                forall|j: int|
                    0 <= j < i ==> !((#[trigger] self@[j]).name == value@ && self@[j].kind == k),
            decreases self@.len() - i,
        {
            let node = &self.nodes[i];
            if str_eq(node.value_as_str(), value) && node.kind() == kind_parsed {
                let result_node = &self.nodes[i];
                proof {
                    lemma_find_kind_skip(self@, value@, k, 0, i as int);
                    assert(self@[i as int].name == value@);
                    assert(self@[i as int].kind == k);
                    assert(find_kind_from(self@, value@, k, i as int) == Some(i as int));
                    assert(k == parse_kind(kind@)->Some_0);
                    assert(find_kind_from(self@, value@, k, 0) == Some(i as int));
                    assert(find_kind_from(self@, value@, parse_kind(kind@)->Some_0, 0) is Some);
                    assert(result_node@ == self@[i as int]);
                }
                return Some(result_node);
            }
            i = i + 1;
        }
        proof {
            lemma_find_kind_skip(self@, value@, k, 0, self@.len() as int);
        }
        None
    }
}

/// The transposition of two positions: `i` and `j` exchange places,
/// everything else stays.
pub open spec fn transpose(x: usize, i: usize, j: usize) -> usize {
    if x == i {
        j
    } else if x == j {
        i
    } else {
        x
    }
}

pub open spec fn transpose_opt(x: Option<usize>, i: usize, j: usize) -> Option<usize> {
    match x {
        Some(v) => Some(transpose(v, i, j)),
        None => None,
    }
}

/// The transposition, applied to a mathematical position.
pub open spec fn transpose_at(k: int, i: usize, j: usize) -> int {
    if k == i as int {
        j as int
    } else if k == j as int {
        i as int
    } else {
        k
    }
}

/// A node as it looks after the swap of positions `i` and `j`, once it
/// has come to rest at position `at`: payload kept, every reference
/// routed through the transposition.
pub open spec fn relabel_node(n: NodeView, i: usize, j: usize, at: usize) -> NodeView {
    NodeView {
        name: n.name,
        kind: n.kind,
        index: at,
        parent: transpose_opt(n.parent, i, j),
        children: match n.children {
            Some(c) => Some(c.map_values(|x: usize| transpose(x, i, j))),
            None => None,
        },
    }
}

/// The whole arena after swapping positions `i` and `j`: contents
/// exchanged, and every inbound reference fixed up to follow them.
pub open spec fn swapped(s: Seq<NodeView>, i: usize, j: usize) -> Seq<NodeView> {
    Seq::new(s.len(), |k: int| relabel_node(s[transpose_at(k, i, j)], i, j, k as usize))
}

/// Parent chains survive the swap: they are merely routed through the
/// transposition.
proof fn lemma_swapped_rooted(s: Seq<Link>, i: usize, j: usize, s2: Seq<Link>, k: int, fuel: nat)
    requires
        i < s.len(),
        j < s.len(),
        s2.len() == s.len(),
        forall|m: int|
            0 <= m < s.len() ==> (#[trigger] s2[m]).parent == transpose_opt(
                s[transpose_at(m, i, j)].parent,
                i,
                j,
            ),
        rooted_within(s, transpose_at(k, i, j), fuel),
        0 <= k < s.len(),
    ensures
        rooted_within(s2, k, fuel),
    decreases fuel,
{
    let src = transpose_at(k, i, j);
    match s[src].parent {
        None => {
            assert(s2[k].parent is None);
        },
        Some(p) => {
            assert(s2[k].parent == Some(transpose(p, i, j)));
            let k2 = transpose(p, i, j);
            assert(rooted_within(s, p as int, (fuel - 1) as nat));
            assert(p < s.len());
            assert(k2 < s.len());
            assert(transpose_at(k2 as int, i, j) == p as int);
            lemma_swapped_rooted(s, i, j, s2, k2 as int, (fuel - 1) as nat);
        },
    }
}

/// The swap keeps the skeleton well-formed; the root moves through the
/// transposition.
proof fn lemma_swapped_wf(s: Seq<Link>, root: usize, i: usize, j: usize, s2: Seq<Link>)
    requires
        wf_links(s, root),
        i < s.len(),
        j < s.len(),
        s.len() <= usize::MAX,
        s2.len() == s.len(),
        forall|k: int| 0 <= k < s.len() ==> (#[trigger] s2[k]).index == k,
        forall|k: int|
            0 <= k < s.len() ==> (#[trigger] s2[k]).parent == transpose_opt(
                s[transpose_at(k, i, j)].parent,
                i,
                j,
            ),
        forall|k: int|
            0 <= k < s.len() ==> kids(#[trigger] s2[k]) == kids(
                s[transpose_at(k, i, j)],
            ).map_values(|x: usize| transpose(x, i, j)),
        forall|k: int|
            0 <= k < s.len() ==> ((#[trigger] s2[k]).children is Some <==> s[transpose_at(
                k,
                i,
                j,
            )].children is Some),
    ensures
        wf_links(s2, transpose(root, i, j)),
{
    let n = s.len();
    assert forall|k: int, j1: int|
        0 <= k < s2.len() && 0 <= j1 < kids(s2[k]).len() implies (#[trigger] kids(s2[k])[j1])
        < s2.len() by {
        let src = transpose_at(k, i, j);
        assert(kids(s[src])[j1] < s.len());
        assert(kids(s2[k])[j1] == transpose(kids(s[src])[j1], i, j));
    }
    assert forall|k: int| 0 <= k < s2.len() && (#[trigger] s2[k]).children is Some implies kids(
        s2[k],
    ).len() > 0 by {
        let src = transpose_at(k, i, j);
        assert(kids(s2[k]).len() == kids(s[src]).len());
    }
    assert forall|k: int, j1: int, j2: int|
        0 <= k < s2.len() && 0 <= j1 < kids(s2[k]).len() && 0 <= j2 < kids(s2[k]).len() && j1
            != j2 implies #[trigger] kids(s2[k])[j1] != #[trigger] kids(s2[k])[j2] by {
        let src = transpose_at(k, i, j);
        assert(kids(s2[k])[j1] == transpose(kids(s[src])[j1], i, j));
        assert(kids(s2[k])[j2] == transpose(kids(s[src])[j2], i, j));
        assert(kids(s[src])[j1] != kids(s[src])[j2]);
    }
    assert forall|k: int, j1: int|
        0 <= k < s2.len() && 0 <= j1 < kids(s2[k]).len() implies s2[#[trigger] kids(
        s2[k],
    )[j1] as int].parent == Some(k as usize) by {
        let src = transpose_at(k, i, j);
        let c = kids(s[src])[j1];
        assert(kids(s2[k])[j1] == transpose(c, i, j));
        let c2 = transpose(c, i, j);
        assert(c < s.len());
        assert(s[c as int].parent == Some(src as usize));
        assert(transpose_at(c2 as int, i, j) == c as int);
        assert(s2[c2 as int].parent == transpose_opt(s[c as int].parent, i, j));
        assert(transpose(src as usize, i, j) == k as usize);
    }
    assert forall|c: int| 0 <= c < s2.len() && (#[trigger] s2[c].parent) is Some implies kids(
        s2[s2[c].parent->Some_0 as int],
    ).contains(c as usize) by {
        let src = transpose_at(c, i, j);
        assert(s2[c].parent == transpose_opt(s[src].parent, i, j));
        let p = s[src].parent->Some_0;
        let p2 = transpose(p, i, j);
        assert(s2[c].parent == Some(p2));
        assert(p < s.len());
        assert(kids(s[p as int]).contains(src as usize));
        let j1 = choose|j1: int|
            0 <= j1 < kids(s[p as int]).len() && kids(s[p as int])[j1] == src as usize;
        assert(transpose_at(p2 as int, i, j) == p as int);
        assert(kids(s2[p2 as int])[j1] == transpose(src as usize, i, j));
        assert(transpose(src as usize, i, j) == c as usize);
        assert(kids(s2[p2 as int]).contains(c as usize));
    }
    let root2 = transpose(root, i, j);
    assert forall|k: int| 0 <= k < s2.len() implies ((#[trigger] s2[k]).parent is None <==> k
        == root2 as int) by {
        let src = transpose_at(k, i, j);
        assert(s2[k].parent == transpose_opt(s[src].parent, i, j));
        assert(s[src].parent is None <==> src == root as int);
        assert(src == root as int <==> k == root2 as int);
    }
    assert forall|k: int| 0 <= k < s2.len() implies #[trigger] rooted_within(s2, k, s2.len()) by {
        let src = transpose_at(k, i, j);
        assert(rooted_within(s, src, s.len()));
        lemma_swapped_rooted(s, i, j, s2, k, s.len());
    }
}

/// Swap involution law: swapping the same two positions twice restores
/// the arena exactly — payloads, parent references and child lists all
/// return to their original state.
pub proof fn lemma_swap_involution(s: Seq<NodeView>, i: usize, j: usize)
    requires
        i < s.len(),
        j < s.len(),
        indexed_ok(links_of(s)),
    ensures
        swapped(swapped(s, i, j), i, j) == s,
{
    let t = swapped(s, i, j);
    let t2 = swapped(t, i, j);
    assert forall|k: int| 0 <= k < s.len() implies t2[k] == s[k] by {
        let back = transpose_at(k, i, j);
        assert(t2[k] == relabel_node(t[back], i, j, k as usize));
        assert(t[back] == relabel_node(s[transpose_at(back, i, j)], i, j, back as usize));
        assert(transpose_at(back, i, j) == k);
        assert(links_of(s)[k].index == k);
        assert(s[k].index == k as usize);
        match s[k].parent {
            None => {},
            Some(p) => {
                assert(transpose(transpose(p, i, j), i, j) == p);
            },
        }
        match s[k].children {
            None => {},
            Some(c) => {
                let once = c.map_values(|x: usize| transpose(x, i, j));
                let twice = once.map_values(|x: usize| transpose(x, i, j));
                assert forall|m: int| 0 <= m < c.len() implies twice[m] == c[m] by {
                    assert(once[m] == transpose(c[m], i, j));
                }
                assert(twice =~= c);
            },
        }
    }
    assert(t2 =~= s);
}

/// The transposition of two positions, executably.
fn transpose_pos(x: usize, i: usize, j: usize) -> (r: usize)
    ensures
        r == transpose(x, i, j),
{
    if x == i {
        j
    } else if x == j {
        i
    } else {
        x
    }
}

impl Arena {
    /// Exchanges the payload, parent reference and child-list content of
    /// the nodes stored at `index1` and `index2`, and fixes up every
    /// inbound reference — including the recorded root position — so
    /// that the tree keeps exactly its old structure with the two nodes'
    /// places exchanged. The whole new state is computed before the old
    /// one is replaced. Out-of-bounds positions are a precondition
    /// violation, not a recoverable error.
    pub fn swap_nodes(&mut self, index1: usize, index2: usize)
        requires
            old(self).wf(),
            index1 < old(self)@.len(),
            index2 < old(self)@.len(),
        ensures
            final(self).wf(),
            final(self)@ == swapped(old(self)@, index1, index2),
            final(self).spec_root() == transpose(old(self).spec_root(), index1, index2),
            final(self).spec_curr() == old(self).spec_curr(),
    {
        let n = self.nodes.len();
        let mut new_nodes: Vec<Node> = Vec::with_capacity(n);
        let mut k: usize = 0;
        while k < n
            invariant
                self@ == old(self)@,
                self.spec_root() == old(self).spec_root(),
                self.spec_curr() == old(self).spec_curr(),
                self.wf(),
                n == self@.len(),
                index1 < n,
                index2 < n,
                k <= n,
                new_nodes@.len() == k,
                forall|m: int|
                    0 <= m < k ==> (#[trigger] new_nodes@[m])@ == swapped(
                        old(self)@,
                        index1,
                        index2,
                    )[m],
            decreases n - k,
        {
            let src = if k == index1 {
                index2
            } else if k == index2 {
                index1
            } else {
                k
            };
            proof {
                assert(src as int == transpose_at(k as int, index1, index2));
            }
            let mut node = self.nodes[src].duplicate();
            node.set_index(k);
            let tp = match node.parent() {
                Some(p) => Some(transpose_pos(p, index1, index2)),
                None => None,
            };
            node.set_opt_parent(tp);
            let ghost before_children = node@.children;
            match &mut node.children {
                Some(ch) => {
                    let ghost oc = ch@;
                    let m = ch.len();
                    let mut t: usize = 0;
                    while t < m
                        invariant
                            t <= m,
                            m == ch@.len(),
                            oc.len() == m,
                            forall|q: int|
                                0 <= q < t ==> (#[trigger] ch@[q]) == transpose(
                                    oc[q],
                                    index1,
                                    index2,
                                ),
                            forall|q: int| t <= q < m ==> (#[trigger] ch@[q]) == oc[q],
                        decreases m - t,
                    {
                        let v = ch[t];
                        let w = transpose_pos(v, index1, index2);
                        ch.set(t, w);
                        t = t + 1;
                    }
                    proof {
                        assert(ch@ =~= oc.map_values(|x: usize| transpose(x, index1, index2)));
                    }
                },
                None => {},
            }
            proof {
                let target = swapped(old(self)@, index1, index2)[k as int];
                assert(target == relabel_node(old(self)@[src as int], index1, index2, k));
                assert(node@.name == old(self)@[src as int].name);
                assert(node@.kind == old(self)@[src as int].kind);
                assert(node@.index == k);
                assert(node@.parent == transpose_opt(
                    old(self)@[src as int].parent,
                    index1,
                    index2,
                ));
                assert(node@.children == target.children);
                assert(node@ == target);
            }
            new_nodes.push(node);
            k = k + 1;
        }
        self.nodes = new_nodes;
        proof {
            let s_old = old(self)@;
            let s_new = self@;
            assert(s_new =~= swapped(s_old, index1, index2));
            let l_old = links_of(s_old);
            let l_new = links_of(s_new);
            assert forall|m: int| 0 <= m < l_old.len() implies (#[trigger] l_new[m]).index
                == m by {
                assert(s_new[m] == relabel_node(
                    s_old[transpose_at(m, index1, index2)],
                    index1,
                    index2,
                    m as usize,
                ));
            }
            assert forall|m: int| 0 <= m < l_old.len() implies (#[trigger] l_new[m]).parent
                == transpose_opt(l_old[transpose_at(m, index1, index2)].parent, index1, index2) by {
                assert(s_new[m] == relabel_node(
                    s_old[transpose_at(m, index1, index2)],
                    index1,
                    index2,
                    m as usize,
                ));
            }
            assert forall|m: int| 0 <= m < l_old.len() implies kids(#[trigger] l_new[m]) == kids(
                l_old[transpose_at(m, index1, index2)],
            ).map_values(|x: usize| transpose(x, index1, index2)) by {
                let src = transpose_at(m, index1, index2);
                assert(s_new[m] == relabel_node(s_old[src], index1, index2, m as usize));
                match s_old[src].children {
                    Some(c) => {},
                    None => {
                        assert(kids(l_new[m]) =~= kids(l_old[src]).map_values(
                            |x: usize| transpose(x, index1, index2),
                        ));
                    },
                }
            }
            assert forall|m: int| 0 <= m < l_old.len() implies ((#[trigger] l_new[m]).children
                is Some <==> l_old[transpose_at(m, index1, index2)].children is Some) by {
                assert(s_new[m] == relabel_node(
                    s_old[transpose_at(m, index1, index2)],
                    index1,
                    index2,
                    m as usize,
                ));
            }
            lemma_swapped_wf(l_old, old(self).spec_root(), index1, index2, l_new);
        }
        self.root = transpose_pos(self.root, index1, index2);
    }
}

/// A run of tab characters.
pub open spec fn tabs(n: nat) -> Seq<char> {
    Seq::new(n, |i: int| '\t')
}

/// One line of the rendering: the node's label, indented by one tab per
/// ancestor, ended by a newline.
pub open spec fn render_line(s: Seq<NodeView>, k: int) -> Seq<char> {
    tabs(depth_of(links_of(s), k)) + s[k].name + seq!['\n']
}

/// The rendering of the first `upto` stored nodes, one line each, in
/// storage order.
pub open spec fn render_spec(s: Seq<NodeView>, upto: int) -> Seq<char>
    decreases upto,
{
    if upto <= 0 {
        Seq::empty()
    } else {
        render_spec(s, upto - 1) + render_line(s, upto - 1)
    }
}

impl Arena {
    /// A linearized, indentation-by-depth rendering: every stored node
    /// on its own line, in storage order, prefixed by one tab per
    /// ancestor.
    pub fn render(&self) -> (r: String)
        requires
            self.wf(),
        ensures
            r@ == render_spec(self@, self@.len() as int),
    {
        let mut r = String::new();
        let n = self.nodes.len();
        let mut k: usize = 0;
        proof {
            assert(r@ =~= render_spec(self@, 0));
        }
        while k < n
            invariant
                self.wf(),
                n == self@.len(),
                k <= n,
                r@ == render_spec(self@, k as int),
            decreases n - k,
        {
            let ghost before = r@;
            let line_depth = self.lineage_for_index(k).len();
            proof {
                assert(line_depth == depth_of(links_of(self@), k as int));
            }
            let mut t: usize = 0;
            while t < line_depth
                invariant
                    t <= line_depth,
                    r@ == before + tabs(t as nat),
                decreases line_depth - t,
            {
                crate::text::push_char(&mut r, '\t');
                proof {
                    assert(before + tabs((t + 1) as nat) =~= (before + tabs(t as nat)).push('\t'));
                }
                t = t + 1;
            }
            r.append(self.nodes[k].value_as_str());
            crate::text::push_char(&mut r, '\n');
            proof {
                assert(r@ =~= render_spec(self@, k as int) + render_line(self@, k as int));
                assert(r@ == render_spec(self@, k + 1));
            }
            k = k + 1;
        }
        r
    }
}

/// Single-root law: in a non-empty well-formed arena the root is
/// parentless, and it is the only parentless node.
pub proof fn lemma_single_root(a: Arena)
    requires
        a.wf(),
        a@.len() > 0,
    ensures
        a.spec_root() < a@.len(),
        a@[a.spec_root() as int].parent is None,
        forall|i: int| 0 <= i < a@.len() ==> ((#[trigger] a@[i]).parent is None <==> i == a.spec_root()),
{
    let ls = links_of(a@);
    assert forall|i: int| 0 <= i < a@.len() implies ((#[trigger] a@[i]).parent is None <==> i
        == a.spec_root()) by {
        assert(ls[i].parent == a@[i].parent);
        assert(ls[i].parent is None <==> i == a.spec_root());
    }
    assert(ls[a.spec_root() as int].parent == a@[a.spec_root() as int].parent);
}

/// Referential symmetry law: a node is listed as a child of another
/// exactly when its parent reference points back at the lister.
pub proof fn lemma_referential_symmetry(a: Arena)
    requires
        a.wf(),
    ensures
        forall|p: int, j: int|
            0 <= p < a@.len() && 0 <= j < child_seq(a@[p]).len() ==> {
                let c = #[trigger] child_seq(a@[p])[j];
                c < a@.len() && a@[c as int].parent == Some(p as usize)
            },
        forall|c: int|
            0 <= c < a@.len() && (#[trigger] a@[c].parent) is Some ==> child_seq(
                a@[a@[c].parent->Some_0 as int],
            ).contains(c as usize),
{
    let ls = links_of(a@);
    assert forall|p: int, j: int|
        0 <= p < a@.len() && 0 <= j < child_seq(a@[p]).len() implies {
        let c = #[trigger] child_seq(a@[p])[j];
        c < a@.len() && a@[c as int].parent == Some(p as usize)
    } by {
        assert(kids(ls[p]) == child_seq(a@[p]));
        let c = kids(ls[p])[j];
        assert(c < ls.len());
        assert(ls[c as int].parent == Some(p as usize));
        assert(ls[c as int].parent == a@[c as int].parent);
    }
    assert forall|c: int|
        0 <= c < a@.len() && (#[trigger] a@[c].parent) is Some implies child_seq(
        a@[a@[c].parent->Some_0 as int],
    ).contains(c as usize) by {
        assert(ls[c].parent == a@[c].parent);
        let q = ls[c].parent->Some_0;
        assert(kids(ls[q as int]).contains(c as usize));
        assert(kids(ls[q as int]) == child_seq(a@[q as int]));
    }
}

} // verus!
