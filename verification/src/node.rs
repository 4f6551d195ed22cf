//! One tree position: a payload plus parent/children index references.
//! Nodes are plain records; the arena that owns them maintains the
//! structural invariants.

use vstd::prelude::*;

use crate::value::{parse_kind, Value, ValueKind};

verus! {

/// The mathematical shape of a node: its label, kind, own position, and
/// the positions it references.
pub struct NodeView {
    pub name: Seq<char>,
    pub kind: ValueKind,
    pub index: usize,
    pub parent: Option<usize>,
    pub children: Option<Seq<usize>>,
}

/// The child list of a node, the empty sequence when absent.
pub open spec fn child_seq(n: NodeView) -> Seq<usize> {
    match n.children {
        Some(c) => c,
        None => Seq::empty(),
    }
}

#[derive(Clone, Debug, PartialEq)]
pub struct Node {
    pub index: usize,
    pub value: Value,
    pub parent: Option<usize>,
    pub children: Option<Vec<usize>>,
}

impl View for Node {
    type V = NodeView;

    open spec fn view(&self) -> NodeView {
        NodeView {
            name: self.value.spec_name(),
            kind: self.value.spec_kind(),
            index: self.index,
            parent: self.parent,
            children: match self.children {
                Some(c) => Some(c@),
                None => None,
            },
        }
    }
}

/// Whether a vector of positions holds the given position.
pub fn positions_contain(v: &Vec<usize>, x: usize) -> (r: bool)
    ensures
        r == v@.contains(x),
{
    let mut i: usize = 0;
    while i < v.len()
        invariant
            i <= v.len(),
            forall|j: int| 0 <= j < i ==> v@[j] != x,
        decreases v.len() - i,
    {
        if v[i] == x {
            return true;
        }
        i = i + 1;
    }
    proof {
        assert(!v@.contains(x));
    }
    false
}

/// Whether every position of `b` also stands in `a`.
fn positions_cover(a: &Vec<usize>, b: &Vec<usize>) -> (r: bool)
    ensures
        r == (forall|j: int| 0 <= j < b@.len() ==> a@.contains(#[trigger] b@[j])),
{
    let mut j: usize = 0;
    while j < b.len()
        invariant
            j <= b@.len(),
            forall|t: int| 0 <= t < j ==> a@.contains(#[trigger] b@[t]),
        decreases b@.len() - j,
    {
        if !positions_contain(a, b[j]) {
            return false;
        }
        j = j + 1;
    }
    true
}

impl Node {
    /// A fresh node under the given parent. The kind tag must be one of
    /// the recognised kinds.
    pub fn new(value: &str, kind: &str, index: usize, parent: usize) -> (r: Node)
        requires
            parse_kind(kind@) is Some,
        ensures
            r@ == (NodeView {
                name: value@,
                kind: parse_kind(kind@)->Some_0,
                index,
                parent: Some(parent),
                children: None,
            }),
    {
        Node { index, value: Value::from_strs(value, kind), parent: Some(parent), children: None }
    }

    /// The conventional default root node.
    pub fn root() -> (r: Node)
        ensures
            r@ == (NodeView {
                name: "root"@,
                kind: ValueKind::System,
                index: 0,
                parent: None,
                children: None,
            }),
    {
        Node { index: 0, value: Value::new("root", ValueKind::System), parent: None, children: None }
    }

    pub fn children(&self) -> (r: Option<&[usize]>)
        ensures
            match r {
                Some(c) => self@.children is Some && c@ == self@.children->Some_0,
                None => self@.children is None,
            },
    {
        match &self.children {
            Some(c) => Some(c.as_slice()),
            None => None,
        }
    }

    /// A copy of the payload.
    pub fn value(&self) -> (r: Value)
        ensures
            r.spec_name() == self@.name,
            r.spec_kind() == self@.kind,
    {
        self.value.duplicate()
    }

    pub fn value_as_str(&self) -> (r: &str)
        ensures
            r@ == self@.name,
    {
        self.value.get_name_ref()
    }

    pub fn index(&self) -> (r: usize)
        ensures
            r == self@.index,
    {
        self.index
    }

    pub fn set_index(&mut self, index: usize)
        ensures
            final(self)@ == (NodeView { index, ..old(self)@ }),
    {
        self.index = index;
    }

    pub fn parent(&self) -> (r: Option<usize>)
        ensures
            r == self@.parent,
    {
        self.parent
    }

    pub fn set_parent(&mut self, index: usize)
        ensures
            final(self)@ == (NodeView { parent: Some(index), ..old(self)@ }),
    {
        self.parent = Some(index);
    }

    pub fn set_opt_parent(&mut self, index: Option<usize>)
        ensures
            final(self)@ == (NodeView { parent: index, ..old(self)@ }),
    {
        self.parent = index;
    }

    /// Clears the parent reference and hands the old one back.
    pub fn pop_parent(&mut self) -> (r: Option<usize>)
        ensures
            r == old(self)@.parent,
            final(self)@ == (NodeView { parent: None, ..old(self)@ }),
    {
        let p = self.parent;
        self.parent = None;
        p
    }

    /// Registers a child position. Adding a position that is already
    /// listed leaves the list as it was; the list is created on first use.
    pub fn add_child(&mut self, index: usize)
        ensures
            final(self)@ == (NodeView {
                children: Some(
                    if child_seq(old(self)@).contains(index) {
                        child_seq(old(self)@)
                    } else {
                        child_seq(old(self)@).push(index)
                    },
                ),
                ..old(self)@
            }),
    {
        match &mut self.children {
            Some(children) => {
                if !positions_contain(children, index) {
                    children.push(index);
                }
            },
            children => {
                let mut v: Vec<usize> = Vec::new();
                v.push(index);
                *children = Some(v);
                proof {
                    assert(child_seq(old(self)@).push(index) =~= final(self)@.children->Some_0);
                }
            },
        }
    }

    pub fn set_children(&mut self, children: Vec<usize>)
        ensures
            final(self)@ == (NodeView { children: Some(children@), ..old(self)@ }),
    {
        self.children = Some(children);
    }

    /// Overwrites every entry of the child list with the given position.
    pub fn update_childrens_parent(&mut self, index: usize)
        ensures
            final(self)@ == (NodeView {
                children: match old(self)@.children {
                    Some(c) => Some(Seq::new(c.len(), |j: int| index)),
                    None => None,
                },
                ..old(self)@
            }),
    {
        match &mut self.children {
            Some(children) => {
                let n = children.len();
                let mut i: usize = 0;
                while i < n
                    invariant
                        i <= n,
                        n == children@.len(),
                        forall|j: int| 0 <= j < i ==> children@[j] == index,
                        forall|j: int| i <= j < n ==> children@[j] == old(self)@.children->Some_0[j],
                    decreases n - i,
                {
                    children.set(i, index);
                    i = i + 1;
                }
                proof {
                    assert(children@ =~= Seq::new(old(self)@.children->Some_0.len(), |j: int| index));
                }
            },
            None => {},
        }
    }

    pub fn remove_children(&mut self)
        ensures
            final(self)@ == (NodeView { children: None, ..old(self)@ }),
    {
        self.children = None;
    }

    /// Exchanges payload, parent reference and child list with `other`;
    /// both nodes keep their own position.
    pub fn swap(&mut self, other: &mut Node)
        ensures
            final(self)@ == (NodeView { index: old(self)@.index, ..old(other)@ }),
            final(other)@ == (NodeView { index: old(other)@.index, ..old(self)@ }),
    {
        core::mem::swap(&mut self.value, &mut other.value);
        core::mem::swap(&mut self.parent, &mut other.parent);
        core::mem::swap(&mut self.children, &mut other.children);
    }

    pub fn kind(&self) -> (r: ValueKind)
        ensures
            r == self@.kind,
    {
        *self.value.get_kind()
    }

    pub fn kind_as_str(&self) -> (r: &str)
        ensures
            r@ == self@.kind.spec_str(),
    {
        self.kind().as_str()
    }

    /// Whether two nodes carry the same position, payload, parent and
    /// children, where the child lists count as the same when they hold
    /// the same set of positions, in whatever order.
    pub fn same_node(&self, other: &Node) -> (r: bool)
        ensures
            r == (self@.index == other@.index && self@.name == other@.name && self@.kind
                == other@.kind && self@.parent == other@.parent && child_seq(self@).to_set()
                == child_seq(other@).to_set()),
    {
        if self.index != other.index {
            return false;
        }
        if !crate::text::str_eq(self.value.get_name_ref(), other.value.get_name_ref()) {
            return false;
        }
        if *self.value.get_kind() != *other.value.get_kind() {
            return false;
        }
        let parents_match = match (self.parent, other.parent) {
            (None, None) => true,
            (Some(a), Some(b)) => a == b,
            _ => false,
        };
        if !parents_match {
            return false;
        }
        match (&self.children, &other.children) {
            (None, None) => {
                proof {
                    assert(child_seq(self@).to_set() =~= child_seq(other@).to_set());
                }
                true
            },
            (Some(mine), None) => {
                proof {
                    if mine@.len() == 0 {
                        assert(child_seq(self@).to_set() =~= child_seq(other@).to_set());
                    } else {
                        assert(child_seq(self@).to_set().contains(mine@[0]));
                    }
                }
                mine.len() == 0
            },
            (None, Some(theirs)) => {
                proof {
                    if theirs@.len() == 0 {
                        assert(child_seq(self@).to_set() =~= child_seq(other@).to_set());
                    } else {
                        assert(child_seq(other@).to_set().contains(theirs@[0]));
                    }
                }
                theirs.len() == 0
            },
            (Some(mine), Some(theirs)) => {
                let covered = positions_cover(mine, theirs) && positions_cover(theirs, mine);
                proof {
                    if covered {
                        assert(child_seq(self@).to_set() =~= child_seq(other@).to_set());
                    } else {
                        if child_seq(self@).to_set() == child_seq(other@).to_set() {
                            assert forall|j: int|
                                0 <= j < theirs@.len() implies mine@.contains(
                                #[trigger] theirs@[j],
                            ) by {
                                assert(child_seq(other@).to_set().contains(theirs@[j]));
                            }
                            assert forall|j: int|
                                0 <= j < mine@.len() implies theirs@.contains(
                                #[trigger] mine@[j],
                            ) by {
                                assert(child_seq(self@).to_set().contains(mine@[j]));
                            }
                        }
                    }
                }
                covered
            },
        }
    }

    /// A structurally equal copy.
    pub fn duplicate(&self) -> (r: Node)
        ensures
            r@ == self@,
    {
        Node {
            index: self.index,
            value: self.value.duplicate(),
            parent: self.parent,
            children: match &self.children {
                Some(c) => Some(clone_positions(c)),
                None => None,
            },
        }
    }
}

/// A copy of a list of positions.
pub fn clone_positions(v: &Vec<usize>) -> (r: Vec<usize>)
    ensures
        r@ == v@,
{
    let mut r: Vec<usize> = Vec::new();
    let mut i: usize = 0;
    while i < v.len()
        invariant
            i <= v.len(),
            r@ =~= v@.subrange(0, i as int),
        decreases v.len() - i,
    {
        r.push(v[i]);
        i = i + 1;
    }
    proof {
        assert(r@ =~= v@);
    }
    r
}

} // verus!
