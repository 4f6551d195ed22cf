//! A cursor-driven arena tree of described objects: append-oriented
//! construction, subtree extraction, and whole-tree merge with
//! index-offset remapping.
//!
//! The root of a non-empty tree always sits at position 0; every public
//! operation preserves the structural invariant [`ArenaTree::wf`].

use vstd::prelude::*;

use crate::arena::{lemma_append_leaf_wf, ArenaError};
use crate::obj::{obj_child_seq, Object, ObjectView};
use crate::obj_desc::Description;
use crate::shape::{
    all_rooted, children_distinct, children_in_range, children_nonempty, depth_of, descendants_of,
    indexed_ok, kids, lemma_child_depth, lemma_depth_bound, lemma_preorder_list_fuel,
    lemma_preorder_list_snoc, lemma_preorder_list_split, lemma_preorder_distinct,
    lemma_preorder_size, lemma_preorder_stable, lemma_rooted_depth, lemma_rooted_extend,
    lemma_rooted_mono,
    parents_in_range, preorder, preorder_list, rooted_within, single_root, subtree_order,
    symmetry_down, symmetry_up, wf_links, Link,
};

verus! {

/// The structural part of one stored object.
pub open spec fn obj_link(o: ObjectView) -> Link {
    Link { index: o.idx, parent: o.parent, children: o.children }
}

/// The structural skeleton of a whole object sequence.
pub open spec fn olinks(s: Seq<ObjectView>) -> Seq<Link> {
    s.map_values(|o: ObjectView| obj_link(o))
}

/// `o` with one more child registered.
pub open spec fn with_child_obj(o: ObjectView, c: usize) -> ObjectView {
    ObjectView { children: Some(obj_child_seq(o).push(c)), ..o }
}

/// A fresh childless object.
pub open spec fn leaf_obj(
    name: Seq<char>,
    display: Option<Seq<char>>,
    index: usize,
    parent: Option<usize>,
) -> ObjectView {
    ObjectView { name, display, idx: index, parent, children: None }
}

/// The object sequence after appending a fresh leaf under position `p`.
pub open spec fn appended_leaf_obj(
    s: Seq<ObjectView>,
    p: int,
    name: Seq<char>,
    display: Option<Seq<char>>,
) -> Seq<ObjectView> {
    s.update(p, with_child_obj(s[p], s.len() as usize)).push(
        leaf_obj(name, display, s.len() as usize, Some(p as usize)),
    )
}

/// An object of the merged-in tree, relocated by `offset`; the incoming
/// root is re-parented under `k`.
pub open spec fn shifted_obj(o: ObjectView, offset: usize, k: usize) -> ObjectView {
    ObjectView {
        name: o.name,
        display: o.display,
        idx: (o.idx + offset) as usize,
        parent: match o.parent {
            Some(p) => Some((p + offset) as usize),
            None => Some(k),
        },
        children: match o.children {
            Some(c) => Some(c.map_values(|x: usize| (x + offset) as usize)),
            None => None,
        },
    }
}

/// The tree `a` with the whole tree `b` spliced in as a new child
/// subtree of the node at `k`: `k` gains `b`'s root (now at position
/// `a.len()`) as its last child, and every node of `b` keeps its
/// internal structure, shifted by `a.len()`.
pub open spec fn merged(a: Seq<ObjectView>, b: Seq<ObjectView>, k: usize) -> Seq<ObjectView> {
    a.update(k as int, with_child_obj(a[k as int], a.len() as usize)) + b.map_values(
        |o: ObjectView| shifted_obj(o, a.len() as usize, k),
    )
}

/// An arena tree with a movable cursor. The root of a non-empty tree is
/// the object at position 0.
pub struct ArenaTree {
    arena: Vec<Object>,
    curr: Option<usize>,
}

impl View for ArenaTree {
    type V = Seq<ObjectView>;

    closed spec fn view(&self) -> Seq<ObjectView> {
        Seq::new(self.arena@.len(), |i: int| self.arena@[i]@)
    }
}

impl ArenaTree {
    /// The cursor: the current position of the append-oriented
    /// construction interface.
    pub closed spec fn spec_curr(&self) -> Option<usize> {
        self.curr
    }

    /// The structural invariant; every public operation preserves it.
    /// The cursor is not part of it: it walks naively and every read
    /// through it checks bounds itself.
    pub open spec fn wf(&self) -> bool {
        wf_links(olinks(self@), 0)
    }

    /// An empty tree, with an optional capacity hint; the cursor is
    /// unset.
    pub fn new(capacity: Option<usize>) -> (r: ArenaTree)
        ensures
            r@.len() == 0,
            r.wf(),
            r.spec_curr() is None,
    {
        let r = match capacity {
            Some(capacity) => ArenaTree { arena: Vec::with_capacity(capacity), curr: None },
            None => ArenaTree { arena: Vec::new(), curr: None },
        };
        proof {
            assert(olinks(r@).len() == 0);
        }
        r
    }

    pub fn len(&self) -> (r: usize)
        ensures
            r == self@.len(),
    {
        self.arena.len()
    }

    pub fn is_empty(&self) -> (r: bool)
        ensures
            r == (self@.len() == 0),
    {
        self.arena.is_empty()
    }

    pub fn current_position(&self) -> (r: Option<usize>)
        ensures
            r == self.spec_curr(),
    {
        self.curr
    }

    /// Moves the cursor to `current + 1`, or to position 0 when it is
    /// unset. This is the intentionally naive cursor walk: plain index
    /// arithmetic, which may leave the cursor past the stored range;
    /// every read through the cursor checks bounds itself.
    pub fn next_position(&mut self)
        requires
            old(self).spec_curr() matches Some(c) ==> c < usize::MAX,
        ensures
            final(self)@ == old(self)@,
            final(self).spec_curr() == (match old(self).spec_curr() {
                Some(c) => Some((c + 1) as usize),
                None => Some(0usize),
            }),
    {
        match self.curr {
            Some(c) => {
                self.curr = Some(c + 1);
            },
            None => {
                self.curr = Some(0);
            },
        }
    }

    /// Places the cursor on an explicit live position; out-of-range
    /// positions are refused and leave the cursor as it was.
    pub fn move_to_position(&mut self, position: usize) -> (r: bool)
        requires
            old(self).wf(),
        ensures
            final(self).wf(),
            final(self)@ == old(self)@,
            r == (position < old(self)@.len()),
            final(self).spec_curr() == (if position < old(self)@.len() {
                Some(position)
            } else {
                old(self).spec_curr()
            }),
    {
        if position < self.arena.len() {
            self.curr = Some(position);
            true
        } else {
            false
        }
    }

    /// A copy of the object under the cursor, if the cursor addresses a
    /// live position.
    pub fn get_object(&self) -> (r: Option<Object>)
        ensures
            match r {
                Some(o) => {
                    &&& self.spec_curr() is Some
                    &&& self.spec_curr()->Some_0 < self@.len()
                    &&& o@ == self@[self.spec_curr()->Some_0 as int]
                },
                None => self.spec_curr() is None || self.spec_curr()->Some_0 >= self@.len(),
            },
    {
        match self.curr {
            Some(c) => {
                if c < self.arena.len() {
                    Some(self.arena[c].duplicate())
                } else {
                    None
                }
            },
            None => None,
        }
    }

    /// A copy of the object at an explicit live position.
    pub fn get_object_from_position(&self, position: usize) -> (r: Object)
        requires
            position < self@.len(),
        ensures
            r@ == self@[position as int],
    {
        self.arena[position].duplicate()
    }

    /// Creates the root object of an empty tree and sets the cursor to
    /// it. On a non-empty tree this is a rejected no-op: the tree keeps
    /// its single existing root.
    pub fn add_node(&mut self, val: &str)
        requires
            old(self).wf(),
        ensures
            final(self).wf(),
            old(self)@.len() == 0 ==> {
                &&& final(self)@ =~= seq![leaf_obj(val@, None, 0, None)]
                &&& final(self).spec_curr() == Some(0usize)
            },
            old(self)@.len() > 0 ==> final(self)@ == old(self)@ && final(self).spec_curr() == old(
                self,
            ).spec_curr(),
    {
        if !self.arena.is_empty() {
            return;
        }
        self.arena.push(Object::new(val, 0, None));
        self.curr = Some(0);
        proof {
            let ls = olinks(self@);
            assert(ls.len() == 1);
            assert(ls[0].parent is None);
            assert(rooted_within(ls, 0, 1));
            assert forall|i: int| 0 <= i < ls.len() implies #[trigger] rooted_within(
                ls,
                i,
                ls.len(),
            ) by {
                assert(i == 0);
            }
            assert(wf_links(ls, 0));
        }
    }

    /// Appends a new object carrying `val` under the object at `parent`;
    /// the cursor stays where it was. When `parent` does not address a
    /// live object nothing changes.
    pub fn add_child_described(&mut self, val: Description, parent: usize)
        requires
            old(self).wf(),
        ensures
            final(self).wf(),
            final(self).spec_curr() == old(self).spec_curr(),
            parent < old(self)@.len() ==> final(self)@ == appended_leaf_obj(
                old(self)@,
                parent as int,
                val.spec_name(),
                val.spec_display(),
            ),
            parent >= old(self)@.len() ==> final(self)@ == old(self)@,
    {
        let index = self.arena.len();
        if parent < index {
            proof {
                let ls = olinks(self@);
                assert(!obj_child_seq(self@[parent as int]).contains(index)) by {
                    if obj_child_seq(self@[parent as int]).contains(index) {
                        let j = choose|j: int|
                            0 <= j < obj_child_seq(self@[parent as int]).len() && obj_child_seq(
                                self@[parent as int],
                            )[j] == index;
                        assert(kids(ls[parent as int])[j] == index);
                        assert(kids(ls[parent as int])[j] < ls.len());
                    }
                }
            }
            self.arena[parent].update_children(index);
            self.arena.push(Object::new_described(val, index, Some(parent)));
            proof {
                let old_s = old(self)@;
                let s2 = appended_leaf_obj(old_s, parent as int, val.spec_name(), val.spec_display());
                assert(final(self)@ =~= s2);
                let ls = olinks(old_s);
                let ls2 = olinks(final(self)@);
                assert(ls2 =~= ls.update(
                    parent as int,
                    Link {
                        children: Some(kids(ls[parent as int]).push(index)),
                        ..ls[parent as int]
                    },
                ).push(Link { index, parent: Some(parent), children: None }));
                lemma_append_leaf_wf(ls, 0, parent as int, ls2, index);
            }
        }
    }

    /// Appends a new object labeled `val` under the object at `parent`.
    /// The explicit bounds check replaces the unchecked access a naive
    /// cursor design would make: an out-of-range parent is a no-op.
    pub fn add_child_node(&mut self, val: &str, parent: usize)
        requires
            old(self).wf(),
        ensures
            final(self).wf(),
            final(self).spec_curr() == old(self).spec_curr(),
            parent < old(self)@.len() ==> final(self)@ == appended_leaf_obj(
                old(self)@,
                parent as int,
                val@,
                None,
            ),
            parent >= old(self)@.len() ==> final(self)@ == old(self)@,
    {
        self.add_child_described(Description::from_str(val), parent);
    }

    /// Copies of the children of the object under the cursor; absent
    /// when the cursor is unset, addresses nothing live, or the object
    /// is childless.
    pub fn get_current_objects_children(&self) -> (r: Option<Vec<Object>>)
        requires
            self.wf(),
        ensures
            match r {
                Some(v) => {
                    &&& self.spec_curr() is Some
                    &&& {
                        let c = self.spec_curr()->Some_0 as int;
                        &&& c < self@.len()
                        &&& self@[c].children is Some
                        &&& v@.len() == obj_child_seq(self@[c]).len()
                        &&& forall|q: int|
                            0 <= q < v@.len() ==> (#[trigger] v@[q])@ == self@[obj_child_seq(
                                self@[c],
                            )[q] as int]
                    }
                },
                None => self.spec_curr() is None || self.spec_curr()->Some_0 >= self@.len()
                    || self@[self.spec_curr()->Some_0 as int].children is None,
            },
    {
        let c = match self.curr {
            Some(c) => c,
            None => {
                return None;
            },
        };
        if c >= self.arena.len() {
            return None;
        }
        let ghost ls = olinks(self@);
        match &self.arena[c].children {
            Some(cs) => {
                let m = cs.len();
                let mut v: Vec<Object> = Vec::new();
                let mut q: usize = 0;
                while q < m
                    invariant
                        self.wf(),
                        ls == olinks(self@),
                        self.spec_curr() == Some(c),
                        c < self@.len(),
                        self@[c as int].children is Some,
                        cs@ == obj_child_seq(self@[c as int]),
                        m == cs@.len(),
                        q <= m,
                        v@.len() == q,
                        forall|t: int|
                            0 <= t < q ==> (#[trigger] v@[t])@ == self@[obj_child_seq(
                                self@[c as int],
                            )[t] as int],
                    decreases m - q,
                {
                    let ch = cs[q];
                    proof {
                        assert(kids(ls[c as int])[q as int] == ch);
                        assert(ch < ls.len());
                    }
                    v.push(self.arena[ch].duplicate());
                    q = q + 1;
                }
                Some(v)
            },
            None => None,
        }
    }
}

/// Single-root law: however a non-empty well-formed tree was built —
/// root creation, child appends, merges — the object at position 0 is
/// parentless, and it is the only parentless object.
pub proof fn lemma_tree_single_root(t: ArenaTree)
    requires
        t.wf(),
        t@.len() > 0,
    ensures
        t@[0].parent is None,
        forall|i: int| 0 <= i < t@.len() ==> ((#[trigger] t@[i]).parent is None <==> i == 0),
{
    let ls = olinks(t@);
    assert forall|i: int| 0 <= i < t@.len() implies ((#[trigger] t@[i]).parent is None <==> i
        == 0) by {
        assert(ls[i].parent == t@[i].parent);
        assert(ls[i].parent is None <==> i == 0);
    }
}

/// Referential symmetry law: an object is listed as a child of another
/// exactly when its parent reference points back at the lister.
pub proof fn lemma_tree_referential_symmetry(t: ArenaTree)
    requires
        t.wf(),
    ensures
        forall|p: int, j: int|
            0 <= p < t@.len() && 0 <= j < obj_child_seq(t@[p]).len() ==> {
                let c = #[trigger] obj_child_seq(t@[p])[j];
                c < t@.len() && t@[c as int].parent == Some(p as usize)
            },
        forall|c: int|
            0 <= c < t@.len() && (#[trigger] t@[c].parent) is Some ==> obj_child_seq(
                t@[t@[c].parent->Some_0 as int],
            ).contains(c as usize),
{
    let ls = olinks(t@);
    assert forall|p: int, j: int|
        0 <= p < t@.len() && 0 <= j < obj_child_seq(t@[p]).len() implies {
        let c = #[trigger] obj_child_seq(t@[p])[j];
        c < t@.len() && t@[c as int].parent == Some(p as usize)
    } by {
        assert(kids(ls[p]) == obj_child_seq(t@[p]));
        let c = kids(ls[p])[j];
        assert(c < ls.len());
        assert(ls[c as int].parent == Some(p as usize));
        assert(ls[c as int].parent == t@[c as int].parent);
    }
    assert forall|c: int|
        0 <= c < t@.len() && (#[trigger] t@[c].parent) is Some implies obj_child_seq(
        t@[t@[c].parent->Some_0 as int],
    ).contains(c as usize) by {
        assert(ls[c].parent == t@[c].parent);
        let q = ls[c].parent->Some_0;
        assert(kids(ls[q as int]).contains(c as usize));
        assert(kids(ls[q as int]) == obj_child_seq(t@[q as int]));
    }
}

/// A chain of the merged-in tree, relocated by `offset`, still reaches
/// the (old) root: it runs inside the shifted block until `b`'s former
/// root, then continues from `k` through `a`.
proof fn lemma_merged_rooted_b(
    b: Seq<Link>,
    k: usize,
    m: Seq<Link>,
    offset: usize,
    x: int,
    fuel: nat,
    fa: nat,
)
    requires
        offset + b.len() == m.len(),
        k < offset,
        forall|y: int|
            0 <= y < b.len() ==> (#[trigger] m[offset + y]).parent == (match b[y].parent {
                Some(p) => Some((p + offset) as usize),
                None => Some(k),
            }),
        rooted_within(b, x, fuel),
        rooted_within(m, k as int, fa),
        offset + b.len() <= usize::MAX,
    ensures
        rooted_within(m, offset + x, fuel + fa + 1),
    decreases fuel,
{
    match b[x].parent {
        None => {
            assert(m[offset + x].parent == Some(k));
            lemma_rooted_mono(m, k as int, fa, fuel + fa);
        },
        Some(p) => {
            assert(rooted_within(b, p as int, (fuel - 1) as nat));
            assert(p < b.len());
            assert(m[offset + x].parent == Some((p + offset) as usize));
            lemma_merged_rooted_b(b, k, m, offset, p as int, (fuel - 1) as nat, fa);
        },
    }
}

/// Splicing a well-formed tree under a live node of another keeps the
/// skeleton well-formed; the receiving tree's root stays the root.
/// The pointwise relationship between the skeletons of the two merged
/// trees and the skeleton of the result.
spec fn merged_shape(a: Seq<Link>, b: Seq<Link>, k: usize, m: Seq<Link>) -> bool {
    &&& k < a.len()
    &&& b.len() > 0
    &&& a.len() + b.len() <= usize::MAX
    &&& m.len() == a.len() + b.len()
    &&& forall|i: int| 0 <= i < a.len() && i != k ==> #[trigger] m[i] == a[i]
    &&& m[k as int] == (Link {
        children: Some(kids(a[k as int]).push(a.len() as usize)),
        ..a[k as int]
    })
    &&& forall|x: int| 0 <= x < b.len() ==> (#[trigger] m[a.len() + x]).index == a.len() + x
    &&& forall|x: int|
        0 <= x < b.len() ==> (#[trigger] m[a.len() + x]).parent == (match b[x].parent {
            Some(p) => Some((p + a.len()) as usize),
            None => Some(k),
        })
    &&& forall|x: int|
        0 <= x < b.len() ==> kids(#[trigger] m[a.len() + x]) == kids(b[x]).map_values(
            |c: usize| (c + a.len()) as usize,
        )
    &&& forall|x: int|
        0 <= x < b.len() ==> ((#[trigger] m[a.len() + x]).children is Some <==> b[x].children
            is Some)
}

/// After the splice, every stored index matches its position and every
/// reference stays in range.
#[verifier::rlimit(100)]
proof fn lemma_merged_wf_ranges(a: Seq<Link>, b: Seq<Link>, k: usize, m: Seq<Link>)
    requires
        wf_links(a, 0),
        wf_links(b, 0),
        merged_shape(a, b, k, m),
    ensures
        indexed_ok(m),
        parents_in_range(m),
        children_in_range(m),
        children_nonempty(m),
{
    let na = a.len() as int;
    let off = a.len() as usize;
    assert forall|i: int| 0 <= i < m.len() implies (#[trigger] m[i].index) == i by {
        if i < na && i != k {
            assert(m[i] == a[i]);
        } else if i == k {
            assert(m[i].index == a[i].index);
        } else {
            let x = i - na;
            assert(m[a.len() + x].index == a.len() + x);
        }
    }
    assert forall|i: int|
        0 <= i < m.len() && m[i].parent is Some implies (#[trigger] m[i].parent)->Some_0
        < m.len() by {
        if i < na {
            if i != k {
                assert(m[i] == a[i]);
            } else {
                assert(m[i].parent == a[i].parent);
            }
            assert(a[i].parent is Some ==> a[i].parent->Some_0 < a.len());
        } else {
            let x = i - na;
            assert(m[a.len() + x].parent == (match b[x].parent {
                Some(p) => Some((p + a.len()) as usize),
                None => Some(k),
            }));
            match b[x].parent {
                Some(p) => {
                    assert(p < b.len());
                },
                None => {},
            }
        }
    }
    assert forall|i: int, j: int| 0 <= i < m.len() && 0 <= j < kids(m[i]).len() implies (
    #[trigger] kids(m[i])[j]) < m.len() by {
        if i < na {
            if i != k {
                assert(m[i] == a[i]);
                assert(kids(a[i])[j] < a.len());
            } else {
                if j < kids(a[i]).len() {
                    assert(kids(m[i])[j] == kids(a[i])[j]);
                    assert(kids(a[i])[j] < a.len());
                } else {
                    assert(kids(m[i])[j] == off);
                }
            }
        } else {
            let x = i - na;
            assert(kids(m[a.len() + x]) == kids(b[x]).map_values(
                |c: usize| (c + a.len()) as usize,
            ));
            assert(kids(m[i])[j] == (kids(b[x])[j] + a.len()) as usize);
            assert(kids(b[x])[j] < b.len());
        }
    }
    assert forall|i: int| 0 <= i < m.len() && (#[trigger] m[i]).children is Some implies kids(
        m[i],
    ).len() > 0 by {
        if i < na {
            if i != k {
                assert(m[i] == a[i]);
            }
        } else {
            let x = i - na;
            assert(kids(m[a.len() + x]) == kids(b[x]).map_values(
                |c: usize| (c + a.len()) as usize,
            ));
            assert(m[a.len() + x].children is Some <==> b[x].children is Some);
            assert(kids(m[i]).len() == kids(b[x]).len());
        }
    }
}

/// After the splice, no child list repeats a position, and the
/// receiving tree's root is still the only parentless node.
#[verifier::rlimit(100)]
proof fn lemma_merged_wf_distinct(a: Seq<Link>, b: Seq<Link>, k: usize, m: Seq<Link>)
    requires
        wf_links(a, 0),
        wf_links(b, 0),
        merged_shape(a, b, k, m),
    ensures
        children_distinct(m),
        single_root(m, 0),
{
    let na = a.len() as int;
    let off = a.len() as usize;
    assert forall|i: int, j1: int, j2: int|
        0 <= i < m.len() && 0 <= j1 < kids(m[i]).len() && 0 <= j2 < kids(m[i]).len() && j1
            != j2 implies #[trigger] kids(m[i])[j1] != #[trigger] kids(m[i])[j2] by {
        if i < na {
            if i != k {
                assert(m[i] == a[i]);
            } else {
                let ok = kids(a[i]);
                if j1 < ok.len() && j2 < ok.len() {
                    assert(kids(m[i])[j1] == ok[j1]);
                    assert(kids(m[i])[j2] == ok[j2]);
                } else if j1 < ok.len() {
                    assert(kids(m[i])[j1] == ok[j1] && ok[j1] < a.len());
                    assert(kids(m[i])[j2] == off);
                } else if j2 < ok.len() {
                    assert(kids(m[i])[j2] == ok[j2] && ok[j2] < a.len());
                    assert(kids(m[i])[j1] == off);
                }
            }
        } else {
            let x = i - na;
            assert(kids(m[a.len() + x]) == kids(b[x]).map_values(
                |c: usize| (c + a.len()) as usize,
            ));
            assert(kids(m[i])[j1] == (kids(b[x])[j1] + a.len()) as usize);
            assert(kids(m[i])[j2] == (kids(b[x])[j2] + a.len()) as usize);
            assert(kids(b[x])[j1] != kids(b[x])[j2]);
            assert(kids(b[x])[j1] < b.len() && kids(b[x])[j2] < b.len());
        }
    }
    assert forall|i: int| 0 <= i < m.len() implies ((#[trigger] m[i]).parent is None <==> i
        == 0) by {
        if i < na {
            if i != k {
                assert(m[i] == a[i]);
            } else {
                assert(m[i].parent == a[i].parent);
            }
            assert(a[i].parent is None <==> i == 0);
        } else {
            let x = i - na;
            assert(m[a.len() + x].parent == (match b[x].parent {
                Some(p) => Some((p + a.len()) as usize),
                None => Some(k),
            }));
            assert(m[i].parent is Some);
        }
    }
}

/// After the splice, whoever is listed as a child points back at the
/// lister.
#[verifier::rlimit(100)]
proof fn lemma_merged_wf_down(a: Seq<Link>, b: Seq<Link>, k: usize, m: Seq<Link>)
    requires
        wf_links(a, 0),
        wf_links(b, 0),
        merged_shape(a, b, k, m),
    ensures
        symmetry_down(m),
{
    let na = a.len() as int;
    let off = a.len() as usize;
    assert forall|i: int, j: int| 0 <= i < m.len() && 0 <= j < kids(m[i]).len() implies m[
    #[trigger] kids(m[i])[j] as int].parent == Some(i as usize) by {
        if i < na {
            let within = i != k || j < kids(a[i]).len();
            if within {
                let c = kids(a[i])[j];
                assert(kids(m[i])[j] == c);
                assert(a[c as int].parent == Some(i as usize));
                assert(c < a.len());
                if c as int != k {
                    assert(m[c as int] == a[c as int]);
                } else {
                    assert(m[c as int].parent == a[c as int].parent);
                }
            } else {
                assert(kids(m[i])[j] == off);
                assert(b[0].parent is None);
                let x0: int = 0;
                assert(m[a.len() + x0].parent == (match b[x0].parent {
                    Some(p) => Some((p + a.len()) as usize),
                    None => Some(k),
                }));
            }
        } else {
            let x = i - na;
            assert(kids(m[a.len() + x]) == kids(b[x]).map_values(
                |c: usize| (c + a.len()) as usize,
            ));
            let c = kids(b[x])[j];
            assert(kids(m[i])[j] == (c + a.len()) as usize);
            assert(c < b.len());
            assert(b[c as int].parent == Some(x as usize));
            assert(m[a.len() + c].parent == (match b[c as int].parent {
                Some(p) => Some((p + a.len()) as usize),
                None => Some(k),
            }));
        }
    }
}

/// After the splice, whoever points at a parent is listed by that
/// parent.
#[verifier::rlimit(100)]
proof fn lemma_merged_wf_up(a: Seq<Link>, b: Seq<Link>, k: usize, m: Seq<Link>)
    requires
        wf_links(a, 0),
        wf_links(b, 0),
        merged_shape(a, b, k, m),
    ensures
        symmetry_up(m),
{
    let na = a.len() as int;
    let off = a.len() as usize;
    assert forall|c: int| 0 <= c < m.len() && (#[trigger] m[c].parent) is Some implies kids(
        m[m[c].parent->Some_0 as int],
    ).contains(c as usize) by {
        if c < na {
            let old_parent = a[c as int].parent;
            if c != k {
                assert(m[c] == a[c]);
            } else {
                assert(m[c].parent == a[c].parent);
            }
            let q = old_parent->Some_0;
            assert(kids(a[q as int]).contains(c as usize));
            let j = choose|j: int|
                0 <= j < kids(a[q as int]).len() && kids(a[q as int])[j] == c as usize;
            if q as int == k {
                assert(kids(m[q as int])[j] == c as usize);
            } else {
                assert(m[q as int] == a[q as int]);
            }
            assert(kids(m[q as int]).contains(c as usize));
        } else {
            let x = c - na;
            assert(m[a.len() + x].parent == (match b[x].parent {
                Some(p) => Some((p + a.len()) as usize),
                None => Some(k),
            }));
            match b[x].parent {
                None => {
                    assert(x == 0) by {
                        assert(b[x].parent is None <==> x == 0);
                    }
                    assert(m[c].parent == Some(k));
                    assert(kids(m[k as int])[kids(a[k as int]).len() as int] == off);
                    assert(kids(m[k as int]).contains(c as usize));
                },
                Some(p) => {
                    assert(m[c].parent == Some((p + a.len()) as usize));
                    assert(p < b.len());
                    assert(kids(b[p as int]).contains(x as usize));
                    let j = choose|j: int|
                        0 <= j < kids(b[p as int]).len() && kids(b[p as int])[j] == x as usize;
                    assert(kids(m[a.len() + p]) == kids(b[p as int]).map_values(
                        |y: usize| (y + a.len()) as usize,
                    ));
                    assert(kids(m[na + p])[j] == (x + a.len()) as usize);
                    assert(kids(m[na + p]).contains(c as usize));
                },
            }
        }
    }
}

/// After the splice, every parent chain still terminates at the root.
#[verifier::rlimit(100)]
proof fn lemma_merged_wf_rooted(a: Seq<Link>, b: Seq<Link>, k: usize, m: Seq<Link>)
    requires
        wf_links(a, 0),
        wf_links(b, 0),
        merged_shape(a, b, k, m),
    ensures
        all_rooted(m),
{
    let na = a.len() as int;
    let off = a.len() as usize;
    assert forall|i: int| 0 <= i < m.len() implies #[trigger] rooted_within(m, i, m.len()) by {
        assert forall|y: int| 0 <= y < a.len() implies (#[trigger] m[y]).parent == a[y].parent by {
            if y != k {
                assert(m[y] == a[y]);
            }
        }
        if i < na {
            assert(rooted_within(a, i, a.len()));
            lemma_rooted_extend(a, m, i, a.len());
            lemma_rooted_mono(m, i, a.len(), m.len());
        } else {
            let x = i - na;
            assert(rooted_within(b, x, b.len()));
            lemma_rooted_depth(b, x, b.len());
            lemma_depth_bound(b, x);
            let db = depth_of(b, x);
            assert(rooted_within(a, k as int, a.len()));
            lemma_rooted_depth(a, k as int, a.len());
            lemma_depth_bound(a, k as int);
            let da = depth_of(a, k as int);
            lemma_rooted_extend(a, m, k as int, da);
            lemma_merged_rooted_b(b, k, m, off, x, db, da);
            assert(db + da + 1 <= m.len());
            lemma_rooted_mono(m, i, db + da + 1, m.len());
        }
    }
}

/// Splicing a well-formed tree under a live node of another keeps the
/// skeleton well-formed; the receiving tree's root stays the root.
proof fn lemma_merged_wf(a: Seq<Link>, b: Seq<Link>, k: usize, m: Seq<Link>)
    requires
        wf_links(a, 0),
        wf_links(b, 0),
        merged_shape(a, b, k, m),
    ensures
        wf_links(m, 0),
{
    lemma_merged_wf_ranges(a, b, k, m);
    lemma_merged_wf_distinct(a, b, k, m);
    lemma_merged_wf_down(a, b, k, m);
    lemma_merged_wf_up(a, b, k, m);
    lemma_merged_wf_rooted(a, b, k, m);
}

/// Merge offset law: after merging `b` into `a` at `k`, the node
/// originally at position `x` of `b` sits at `a.len() + x` with its
/// payload unchanged, its parent reference points into the shifted
/// block — or at `k`, for `b`'s former root — and its child references
/// point only into the shifted block.
pub proof fn lemma_merge_offset(a: Seq<ObjectView>, b: Seq<ObjectView>, k: usize)
    requires
        wf_links(olinks(a), 0),
        wf_links(olinks(b), 0),
        k < a.len(),
        a.len() + b.len() <= usize::MAX,
    ensures
        merged(a, b, k).len() == a.len() + b.len(),
        forall|x: int|
            0 <= x < b.len() ==> #[trigger] merged(a, b, k)[a.len() + x] == shifted_obj(
                b[x],
                a.len() as usize,
                k,
            ),
        forall|x: int|
            0 <= x < b.len() ==> {
                let o = #[trigger] merged(a, b, k)[a.len() + x];
                &&& o.name == b[x].name
                &&& o.display == b[x].display
                &&& o.parent is Some
                &&& (b[x].parent is None ==> o.parent == Some(k))
                &&& (b[x].parent is Some ==> a.len() <= o.parent->Some_0 < a.len() + b.len())
                &&& forall|j: int|
                    0 <= j < obj_child_seq(o).len() ==> a.len() <= #[trigger] obj_child_seq(o)[j]
                        < a.len() + b.len()
            },
{
    let m = merged(a, b, k);
    assert forall|x: int| 0 <= x < b.len() implies #[trigger] m[a.len() + x] == shifted_obj(
        b[x],
        a.len() as usize,
        k,
    ) by {}
    assert forall|x: int| 0 <= x < b.len() implies {
        let o = #[trigger] m[a.len() + x];
        &&& o.name == b[x].name
        &&& o.display == b[x].display
        &&& o.parent is Some
        &&& (b[x].parent is None ==> o.parent == Some(k))
        &&& (b[x].parent is Some ==> a.len() <= o.parent->Some_0 < a.len() + b.len())
        &&& forall|j: int|
            0 <= j < obj_child_seq(o).len() ==> a.len() <= #[trigger] obj_child_seq(o)[j] < a.len()
                + b.len()
    } by {
        let o = m[a.len() + x];
        assert(o == shifted_obj(b[x], a.len() as usize, k));
        let lb = olinks(b);
        match b[x].parent {
            Some(p) => {
                assert(lb[x].parent == b[x].parent);
                assert(lb[x].parent->Some_0 < lb.len());
            },
            None => {},
        }
        assert forall|j: int|
            0 <= j < obj_child_seq(o).len() implies a.len() <= #[trigger] obj_child_seq(o)[j]
            < a.len() + b.len() by {
            assert(obj_child_seq(o)[j] == (obj_child_seq(b[x])[j] + a.len()) as usize);
            assert(kids(lb[x])[j] == obj_child_seq(b[x])[j]);
            assert(kids(lb[x])[j] < lb.len());
        }
    }
}

impl ArenaTree {
    /// Splices the whole independent tree `other` into this one as a new
    /// child subtree of the node at `merge_index`, which must address a
    /// live node (otherwise an out-of-bounds error is reported and
    /// nothing changes). An empty `other` is a no-op. Every position of
    /// `other` is shifted by the old length of this tree; `other`'s
    /// former root becomes the last child of `merge_index`. `other` is
    /// consumed.
    pub fn merge(&mut self, other: ArenaTree, merge_index: usize) -> (r: Result<(), ArenaError>)
        requires
            old(self).wf(),
            other.wf(),
            old(self)@.len() + other@.len() <= usize::MAX,
        ensures
            final(self).wf(),
            final(self).spec_curr() == old(self).spec_curr(),
            merge_index >= old(self)@.len() ==> r == Err::<(), ArenaError>(ArenaError::OutOfBounds)
                && final(self)@ == old(self)@,
            merge_index < old(self)@.len() && other@.len() == 0 ==> r == Ok::<(), ArenaError>(())
                && final(self)@ == old(self)@,
            merge_index < old(self)@.len() && other@.len() > 0 ==> {
                &&& r == Ok::<(), ArenaError>(())
                &&& final(self)@ == merged(old(self)@, other@, merge_index)
                &&& final(self)@.len() == old(self)@.len() + other@.len()
            },
    {
        if merge_index >= self.arena.len() {
            return Err(ArenaError::OutOfBounds);
        }
        if other.arena.is_empty() {
            return Ok(());
        }
        let offset = self.arena.len();
        proof {
            let ls = olinks(self@);
            assert(!obj_child_seq(self@[merge_index as int]).contains(offset)) by {
                if obj_child_seq(self@[merge_index as int]).contains(offset) {
                    let j = choose|j: int|
                        0 <= j < obj_child_seq(self@[merge_index as int]).len() && obj_child_seq(
                            self@[merge_index as int],
                        )[j] == offset;
                    assert(kids(ls[merge_index as int])[j] == offset);
                    assert(kids(ls[merge_index as int])[j] < ls.len());
                }
            }
        }
        self.arena[merge_index].update_children(offset);
        let ghost base = old(self)@.update(
            merge_index as int,
            with_child_obj(old(self)@[merge_index as int], offset),
        );
        let m = other.arena.len();
        let mut q: usize = 0;
        while q < m
            invariant
                other.wf(),
                m == other@.len(),
                q <= m,
                offset + m <= usize::MAX,
                merge_index < offset,
                base == old(self)@.update(
                    merge_index as int,
                    with_child_obj(old(self)@[merge_index as int], offset),
                ),
                offset == old(self)@.len(),
                self.spec_curr() == old(self).spec_curr(),
                self@ == base + other@.take(q as int).map_values(
                    |o: ObjectView| shifted_obj(o, offset, merge_index),
                ),
            decreases m - q,
        {
            let mut node = other.arena[q].duplicate();
            proof {
                let lb = olinks(other@);
                assert(lb[q as int].index == q);
            }
            node.idx = node.idx + offset;
            node.parent = match node.parent {
                Some(p) => {
                    proof {
                        let lb = olinks(other@);
                        assert(lb[q as int].parent == other@[q as int].parent);
                        assert(lb[q as int].parent->Some_0 < lb.len());
                    }
                    Some(p + offset)
                },
                None => Some(merge_index),
            };
            match &mut node.children {
                Some(ch) => {
                    let ghost oc = ch@;
                    proof {
                        let lb = olinks(other@);
                        assert(kids(lb[q as int]) == oc);
                    }
                    let cn = ch.len();
                    let mut t: usize = 0;
                    while t < cn
                        invariant
                            t <= cn,
                            cn == ch@.len(),
                            oc.len() == cn,
                            offset + m <= usize::MAX,
                            forall|u: int|
                                0 <= u < oc.len() ==> (#[trigger] oc[u]) < m,
                            forall|u: int|
                                0 <= u < t ==> (#[trigger] ch@[u]) == (oc[u] + offset) as usize,
                            forall|u: int| t <= u < cn ==> (#[trigger] ch@[u]) == oc[u],
                        decreases cn - t,
                    {
                        let v = ch[t];
                        ch.set(t, v + offset);
                        t = t + 1;
                    }
                    proof {
                        assert(ch@ =~= oc.map_values(|x: usize| (x + offset) as usize));
                    }
                },
                None => {},
            }
            proof {
                assert(node@ == shifted_obj(other@[q as int], offset, merge_index));
            }
            let ghost prev = self@;
            self.arena.push(node);
            proof {
                assert(self@ =~= prev.push(shifted_obj(other@[q as int], offset, merge_index)));
                assert(other@.take(q + 1).map_values(
                    |o: ObjectView| shifted_obj(o, offset, merge_index),
                ) =~= other@.take(q as int).map_values(
                    |o: ObjectView| shifted_obj(o, offset, merge_index),
                ).push(shifted_obj(other@[q as int], offset, merge_index)));
                assert((base + other@.take(q as int).map_values(
                    |o: ObjectView| shifted_obj(o, offset, merge_index),
                )).push(shifted_obj(other@[q as int], offset, merge_index)) =~= base
                    + other@.take(q + 1).map_values(
                    |o: ObjectView| shifted_obj(o, offset, merge_index),
                ));
                assert(self@ =~= base + other@.take(q + 1).map_values(
                    |o: ObjectView| shifted_obj(o, offset, merge_index),
                ));
            }
            q = q + 1;
        }
        proof {
            assert(other@.take(m as int) =~= other@);
            assert(self@ =~= merged(old(self)@, other@, merge_index));
            let la = olinks(old(self)@);
            let lb = olinks(other@);
            let lm = olinks(self@);
            assert(lm.len() == la.len() + lb.len());
            assert forall|i: int| 0 <= i < la.len() && i != merge_index implies #[trigger] lm[i]
                == la[i] by {
                assert(self@[i] == old(self)@[i]);
            }
            assert(lm[merge_index as int] == (Link {
                children: Some(kids(la[merge_index as int]).push(offset)),
                ..la[merge_index as int]
            }));
            assert forall|x: int| 0 <= x < lb.len() implies (#[trigger] lm[la.len() + x]).index
                == la.len() + x by {
                assert(self@[la.len() + x] == shifted_obj(other@[x], offset, merge_index));
                assert(lb[x].index == x);
            }
            assert forall|x: int| 0 <= x < lb.len() implies (#[trigger] lm[la.len() + x]).parent
                == (match lb[x].parent {
                Some(p) => Some((p + la.len()) as usize),
                None => Some(merge_index),
            }) by {
                assert(self@[la.len() + x] == shifted_obj(other@[x], offset, merge_index));
            }
            assert forall|x: int| 0 <= x < lb.len() implies kids(#[trigger] lm[la.len() + x])
                == kids(lb[x]).map_values(|c: usize| (c + la.len()) as usize) by {
                assert(self@[la.len() + x] == shifted_obj(other@[x], offset, merge_index));
                match other@[x].children {
                    Some(c) => {},
                    None => {
                        assert(kids(lm[la.len() + x]) =~= kids(lb[x]).map_values(
                            |c: usize| (c + la.len()) as usize,
                        ));
                    },
                }
            }
            assert forall|x: int| 0 <= x < lb.len() implies ((#[trigger] lm[la.len() + x]).children
                is Some <==> lb[x].children is Some) by {
                assert(self@[la.len() + x] == shifted_obj(other@[x], offset, merge_index));
            }
            assert(merged_shape(la, lb, merge_index, lm));
            lemma_merged_wf(la, lb, merge_index, lm);
        }
        Ok(())
    }
}

/// The payload of one stored object: its name and display name.
pub open spec fn payload_of(o: ObjectView) -> (Seq<char>, Option<Seq<char>>) {
    (o.name, o.display)
}

/// The payloads of a sequence of objects.
pub open spec fn payloads(s: Seq<ObjectView>) -> Seq<(Seq<char>, Option<Seq<char>>)> {
    s.map_values(|o: ObjectView| payload_of(o))
}

/// The payloads of the objects at the given positions.
pub open spec fn payloads_at(s: Seq<ObjectView>, idxs: Seq<usize>) -> Seq<
    (Seq<char>, Option<Seq<char>>),
> {
    idxs.map_values(|x: usize| payload_of(s[x as int]))
}

/// Where the copy of the `j`-th direct child of a source node comes to
/// rest, relative to the start of its copied block: right after the
/// complete walks of its earlier siblings.
pub open spec fn block_offset(s: Seq<Link>, cs: Seq<usize>, j: int, fuel: nat) -> int {
    preorder_list(s, cs.take(j), fuel).len() as int
}

/// The destination positions of the copies of a source node's direct
/// children, for a copied block starting at `base`.
pub open spec fn copied_child_positions(ls: Seq<Link>, src: usize, base: int) -> Seq<usize> {
    if src < ls.len() {
        Seq::new(
            kids(ls[src as int]).len(),
            |j: int| (base + block_offset(ls, kids(ls[src as int]), j, ls.len())) as usize,
        )
    } else {
        Seq::empty()
    }
}

/// The copy's child lists mirror the source's under the dense
/// renumbering along the discovery order `ord`: the `j`-th child of the
/// copy at position `q` sits inside the copy and stands, through `ord`,
/// for the `j`-th child of the source node `ord[q]`. Together with the
/// copy's own well-formedness this pins the copied parent/child
/// structure completely.
pub open spec fn mirrors_children(ls: Seq<Link>, ord: Seq<usize>, copy: Seq<ObjectView>) -> bool {
    &&& copy.len() == ord.len()
    &&& forall|q: int|
        0 <= q < ord.len() ==> ((#[trigger] copy[q]).children is Some <==> ls[ord[q] as int].children
            is Some)
    &&& forall|q: int|
        0 <= q < ord.len() ==> obj_child_seq(#[trigger] copy[q]).len() == kids(
            ls[ord[q] as int],
        ).len()
    &&& forall|q: int, j: int|
        0 <= q < ord.len() && 0 <= j < kids(ls[ord[q] as int]).len() ==> {
            let cpos = #[trigger] obj_child_seq(copy[q])[j];
            cpos < ord.len() && ord[cpos as int] == kids(ls[ord[q] as int])[j]
        }
}

/// What one copying step leaves behind: every existing node keeps its
/// child list — except `dst_parent`, which gains exactly the copied
/// direct children, at their block offsets — and inside the appended
/// block the child lists mirror the source subtree's, entry for entry,
/// through the discovery order.
pub open spec fn copied_block(
    ls: Seq<Link>,
    src: usize,
    before: Seq<ObjectView>,
    after: Seq<ObjectView>,
    dst_parent: usize,
) -> bool {
    let base = before.len() as int;
    let d = descendants_of(ls, src as int);
    &&& forall|t: int|
        0 <= t < base && t != dst_parent ==> (#[trigger] after[t]).children == before[t].children
    &&& obj_child_seq(after[dst_parent as int]) == obj_child_seq(before[dst_parent as int])
        + copied_child_positions(ls, src, base)
    &&& (after[dst_parent as int].children is Some <==> (before[dst_parent as int].children is Some
        || copied_child_positions(ls, src, base).len() > 0))
    &&& forall|q: int|
        0 <= q < d.len() ==> ((#[trigger] after[base + q]).children is Some <==> ls[d[q] as int].children
            is Some)
    &&& forall|q: int|
        0 <= q < d.len() ==> obj_child_seq(#[trigger] after[base + q]).len() == kids(
            ls[d[q] as int],
        ).len()
    &&& forall|q: int, j: int|
        0 <= q < d.len() && 0 <= j < kids(ls[d[q] as int]).len() ==> {
            let cpos = #[trigger] obj_child_seq(after[base + q])[j];
            base <= cpos < base + d.len() && d[cpos - base] == kids(ls[d[q] as int])[j]
        }
}

/// Each direct child heads its own block of the concatenated walk.
proof fn lemma_block_head(s: Seq<Link>, cs: Seq<usize>, j: int, fuel: nat)
    requires
        0 <= j < cs.len(),
    ensures
        0 <= block_offset(s, cs, j, fuel),
        block_offset(s, cs, j, fuel) < preorder_list(s, cs, fuel).len(),
        preorder_list(s, cs, fuel)[block_offset(s, cs, j, fuel)] == cs[j],
{
    lemma_preorder_list_split(s, cs, j, fuel);
    assert(cs.skip(j).len() > 0);
    assert(cs.skip(j)[0] == cs[j]);
    assert(preorder_list(s, cs.skip(j), fuel) == preorder(s, cs[j], fuel) + preorder_list(
        s,
        cs.skip(j).drop_first(),
        fuel,
    ));
    if fuel == 0 {
        assert(preorder(s, cs[j], fuel) == seq![cs[j]]);
    }
    assert(preorder(s, cs[j], fuel)[0] == cs[j]);
    assert(preorder_list(s, cs.skip(j), fuel)[0] == cs[j]);
    assert(preorder_list(s, cs, fuel)[block_offset(s, cs, j, fuel)] == preorder_list(
        s,
        cs.skip(j),
        fuel,
    )[0]);
}

/// The link-level restatement of a children mirror: position `t` of
/// the copy has as many children as its source `ord[t]`, and they map
/// through `ord`, entry for entry.
spec fn mirror_links(ls: Seq<Link>, ord: Seq<usize>, cl: Seq<Link>) -> bool {
    &&& cl.len() == ord.len()
    &&& forall|t: int|
        0 <= t < cl.len() ==> kids(#[trigger] cl[t]).len() == kids(ls[ord[t] as int]).len()
    &&& forall|t: int, j: int|
        0 <= t < cl.len() && 0 <= j < kids(ls[ord[t] as int]).len() ==> (#[trigger] kids(
            cl[t],
        )[j]) < cl.len() && ord[kids(cl[t])[j] as int] == kids(ls[ord[t] as int])[j]
}

/// A preorder walk of the copy is, position for position, the `ord`
/// image of the corresponding walk of the source — at every fuel.
proof fn lemma_mirror_preorder(ls: Seq<Link>, ord: Seq<usize>, cl: Seq<Link>, q: usize, f: nat)
    requires
        mirror_links(ls, ord, cl),
        q < cl.len(),
    ensures
        preorder(cl, q, f).len() == preorder(ls, ord[q as int], f).len(),
        forall|t: int|
            0 <= t < preorder(cl, q, f).len() ==> (#[trigger] preorder(cl, q, f)[t]) < cl.len()
                && ord[preorder(cl, q, f)[t] as int] == preorder(ls, ord[q as int], f)[t],
    decreases f, 0int,
{
    if f == 0 {
        assert(preorder(cl, q, f) == seq![q]);
        assert(preorder(ls, ord[q as int], f) == seq![ord[q as int]]);
    } else {
        let csc = kids(cl[q as int]);
        let css = kids(ls[ord[q as int] as int]);
        assert(csc.len() == css.len());
        assert forall|j: int| 0 <= j < csc.len() implies (#[trigger] csc[j]) < cl.len()
            && ord[csc[j] as int] == css[j] by {}
        lemma_mirror_preorder_list(ls, ord, cl, csc, css, (f - 1) as nat);
        let restc = preorder_list(cl, csc, (f - 1) as nat);
        let rests = preorder_list(ls, css, (f - 1) as nat);
        assert(preorder(cl, q, f) == seq![q] + restc);
        assert(preorder(ls, ord[q as int], f) == seq![ord[q as int]] + rests);
        assert forall|t: int| 0 <= t < preorder(cl, q, f).len() implies (#[trigger] preorder(
            cl,
            q,
            f,
        )[t]) < cl.len() && ord[preorder(cl, q, f)[t] as int] == preorder(
            ls,
            ord[q as int],
            f,
        )[t] by {
            if t == 0 {
                assert(preorder(cl, q, f)[0] == q);
                assert(preorder(ls, ord[q as int], f)[0] == ord[q as int]);
            } else {
                assert(preorder(cl, q, f)[t] == restc[t - 1]);
                assert(preorder(ls, ord[q as int], f)[t] == rests[t - 1]);
            }
        }
    }
}

proof fn lemma_mirror_preorder_list(
    ls: Seq<Link>,
    ord: Seq<usize>,
    cl: Seq<Link>,
    csc: Seq<usize>,
    css: Seq<usize>,
    f: nat,
)
    requires
        mirror_links(ls, ord, cl),
        csc.len() == css.len(),
        forall|j: int|
            0 <= j < csc.len() ==> (#[trigger] csc[j]) < cl.len() && ord[csc[j] as int] == css[j],
    ensures
        preorder_list(cl, csc, f).len() == preorder_list(ls, css, f).len(),
        forall|t: int|
            0 <= t < preorder_list(cl, csc, f).len() ==> (#[trigger] preorder_list(
                cl,
                csc,
                f,
            )[t]) < cl.len() && ord[preorder_list(cl, csc, f)[t] as int] == preorder_list(
                ls,
                css,
                f,
            )[t],
    decreases f, csc.len() + 1,
{
    if csc.len() > 0 {
        assert(ord[csc[0] as int] == css[0]);
        lemma_mirror_preorder(ls, ord, cl, csc[0], f);
        assert forall|j: int| 0 <= j < csc.drop_first().len() implies (
        #[trigger] csc.drop_first()[j]) < cl.len() && ord[csc.drop_first()[j] as int]
            == css.drop_first()[j] by {
            assert(csc.drop_first()[j] == csc[j + 1]);
            assert(css.drop_first()[j] == css[j + 1]);
        }
        lemma_mirror_preorder_list(ls, ord, cl, csc.drop_first(), css.drop_first(), f);
        let headc = preorder(cl, csc[0], f);
        let heads = preorder(ls, css[0], f);
        let restc = preorder_list(cl, csc.drop_first(), f);
        let rests = preorder_list(ls, css.drop_first(), f);
        assert(preorder_list(cl, csc, f) == headc + restc);
        assert(preorder_list(ls, css, f) == heads + rests);
        assert forall|t: int| 0 <= t < preorder_list(cl, csc, f).len() implies (
        #[trigger] preorder_list(cl, csc, f)[t]) < cl.len() && ord[preorder_list(
            cl,
            csc,
            f,
        )[t] as int] == preorder_list(ls, css, f)[t] by {
            if t < headc.len() {
                assert(preorder_list(cl, csc, f)[t] == headc[t]);
                assert(preorder_list(ls, css, f)[t] == heads[t]);
            } else {
                assert(preorder_list(cl, csc, f)[t] == restc[t - headc.len()]);
                assert(preorder_list(ls, css, f)[t] == rests[t - headc.len()]);
            }
        }
    }
}

/// A copy whose child lists mirror a source subtree is laid out in its
/// own discovery order: walking it from its root visits 0, 1, 2, … in
/// exactly that order.
proof fn lemma_mirror_identity(ls: Seq<Link>, i: usize, copy: Seq<ObjectView>)
    requires
        wf_links(ls, 0),
        ls.len() <= usize::MAX,
        i < ls.len(),
        mirrors_children(ls, subtree_order(ls, i), copy),
    ensures
        subtree_order(olinks(copy), 0) == Seq::new(copy.len() as nat, |q: int| q as usize),
{
    let ord = subtree_order(ls, i);
    let cl = olinks(copy);
    let n = ord.len();
    assert(cl.len() == n);
    assert(ord[0] == i);
    assert(n >= 1);
    assert(mirror_links(ls, ord, cl)) by {
        assert forall|t: int| 0 <= t < cl.len() implies kids(#[trigger] cl[t]).len() == kids(
            ls[ord[t] as int],
        ).len() by {
            assert(kids(cl[t]) == obj_child_seq(copy[t]));
        }
        assert forall|t: int, j: int|
            0 <= t < cl.len() && 0 <= j < kids(ls[ord[t] as int]).len() implies (#[trigger] kids(
            cl[t],
        )[j]) < cl.len() && ord[kids(cl[t])[j] as int] == kids(ls[ord[t] as int])[j] by {
            assert(kids(cl[t]) == obj_child_seq(copy[t]));
            assert(obj_child_seq(copy[t])[j] < ord.len() && ord[obj_child_seq(
                copy[t],
            )[j] as int] == kids(ls[ord[t] as int])[j]);
        }
    }
    lemma_mirror_preorder(ls, ord, cl, 0, n as nat);
    lemma_preorder_size(ls, 0, i, ls.len());
    lemma_preorder_stable(ls, i, n as nat, ls.len());
    assert(preorder(ls, i, n as nat) == ord);
    lemma_preorder_distinct(ls, 0, i, ls.len());
    assert(preorder(cl, 0, n as nat).len() == n);
    assert forall|t: int| 0 <= t < n implies (#[trigger] preorder(cl, 0, n as nat)[t]) as int
        == t by {
        let e = preorder(cl, 0, n as nat)[t];
        assert(ord[e as int] == preorder(ls, i, n as nat)[t]);
        assert(ord[e as int] == ord[t]);
    }
    assert(cl.len() as nat == n as nat);
    assert(subtree_order(cl, 0) == preorder(cl, 0, n as nat));
    assert(subtree_order(cl, 0) =~= Seq::new(copy.len() as nat, |q: int| q as usize));
}

/// The joint hypotheses of the re-extraction law: what two calls of
/// [`ArenaTree::sub_tree`] ensure about a copy `r` of the subtree of
/// `s` at `i`, and about a copy `r2` of the whole of `r`.
pub open spec fn reextraction_setup(
    s: Seq<ObjectView>,
    i: usize,
    r: Seq<ObjectView>,
    r2: Seq<ObjectView>,
) -> bool {
    &&& wf_links(olinks(s), 0)
    &&& s.len() <= usize::MAX
    &&& i < s.len()
    &&& wf_links(olinks(r), 0)
    &&& payloads(r) == payloads_at(s, subtree_order(olinks(s), i))
    &&& mirrors_children(olinks(s), subtree_order(olinks(s), i), r)
    &&& r.len() > 0
    &&& r[0].parent is None
    &&& wf_links(olinks(r2), 0)
    &&& payloads(r2) == payloads_at(r, subtree_order(olinks(r), 0))
    &&& mirrors_children(olinks(r), subtree_order(olinks(r), 0), r2)
    &&& r2.len() > 0
    &&& r2[0].parent is None
}

proof fn lemma_reextraction_order(s: Seq<ObjectView>, i: usize, r: Seq<ObjectView>, r2: Seq<ObjectView>)
    requires
        reextraction_setup(s, i, r, r2),
    ensures
        subtree_order(olinks(r), 0) == Seq::new(r.len() as nat, |q: int| q as usize),
        r2.len() == r.len(),
        r.len() <= usize::MAX,
{
    lemma_mirror_identity(olinks(s), i, r);
    lemma_preorder_size(olinks(s), 0, i, olinks(s).len());
    assert(r.len() == subtree_order(olinks(s), i).len());
}

/// For a copy laid out in its own discovery order, the mirror collapses
/// to plain equality of child lists.
proof fn lemma_identity_mirror_children(r: Seq<ObjectView>, r2: Seq<ObjectView>)
    requires
        r.len() <= usize::MAX,
        r2.len() == r.len(),
        subtree_order(olinks(r), 0) == Seq::new(r.len() as nat, |q: int| q as usize),
        mirrors_children(olinks(r), subtree_order(olinks(r), 0), r2),
    ensures
        forall|q: int| 0 <= q < r.len() ==> (#[trigger] r2[q]).children == r[q].children,
{
    let rl = olinks(r);
    let ident = Seq::new(r.len() as nat, |q: int| q as usize);
    assert forall|q: int| 0 <= q < r.len() implies (#[trigger] r2[q]).children
        == r[q].children by {
        assert(ident[q] == q as usize);
        assert(kids(rl[ident[q] as int]) == obj_child_seq(r[q]));
        assert(r2[q].children is Some <==> rl[ident[q] as int].children is Some);
        assert(rl[q].children == r[q].children);
        assert(obj_child_seq(r2[q]).len() == obj_child_seq(r[q]).len());
        assert forall|j: int| 0 <= j < obj_child_seq(r[q]).len() implies #[trigger] obj_child_seq(
            r2[q],
        )[j] == obj_child_seq(r[q])[j] by {
            let cpos = obj_child_seq(r2[q])[j];
            assert(ident[cpos as int] == kids(rl[ident[q] as int])[j]);
            assert(ident[cpos as int] == cpos);
        }
        match (r2[q].children, r[q].children) {
            (Some(a), Some(b)) => {
                assert(a =~= b);
            },
            (None, None) => {},
            (Some(a), None) => {
                assert(false);
            },
            (None, Some(b)) => {
                assert(false);
            },
        }
    }
}

/// Two well-formed trees with identical child lists and parentless
/// roots carry identical parent references: symmetry pins the parents.
proof fn lemma_same_children_same_parents(r: Seq<ObjectView>, r2: Seq<ObjectView>)
    requires
        r2.len() == r.len(),
        wf_links(olinks(r), 0),
        wf_links(olinks(r2), 0),
        forall|q: int| 0 <= q < r.len() ==> (#[trigger] r2[q]).children == r[q].children,
    ensures
        forall|q: int| 0 <= q < r.len() ==> (#[trigger] r2[q]).parent == r[q].parent,
{
    let rl = olinks(r);
    let r2l = olinks(r2);
    assert forall|q: int| 0 <= q < r.len() implies (#[trigger] r2[q]).parent == r[q].parent by {
        assert(rl[q].parent == r[q].parent);
        assert(r2l[q].parent == r2[q].parent);
        if r.len() > 0 {
            assert(rl[q].parent is None <==> q == 0);
            assert(r2l[q].parent is None <==> q == 0);
            if q > 0 {
                let p = rl[q].parent->Some_0;
                let p2 = r2l[q].parent->Some_0;
                assert(kids(r2l[p2 as int]).contains(q as usize));
                assert(p2 < r2l.len());
                assert(kids(r2l[p2 as int]) == obj_child_seq(r2[p2 as int]));
                assert(r2[p2 as int].children == r[p2 as int].children);
                assert(kids(rl[p2 as int]).contains(q as usize));
                let jj = choose|jj: int|
                    0 <= jj < kids(rl[p2 as int]).len() && kids(rl[p2 as int])[jj] == q as usize;
                assert(rl[kids(rl[p2 as int])[jj] as int].parent == Some(p2));
            }
        }
    }
}

/// Subtree extraction is a structural copy: extracting a subtree and
/// then extracting the whole of the copy from its new root yields the
/// copy again, node for node — payloads, parent references and child
/// lists alike. (That the source is untouched needs no law: extraction
/// borrows it immutably.) The hypotheses are exactly what two calls of
/// [`ArenaTree::sub_tree`] ensure.
pub proof fn lemma_subtree_reextraction(
    s: Seq<ObjectView>,
    i: usize,
    r: Seq<ObjectView>,
    r2: Seq<ObjectView>,
)
    requires
        reextraction_setup(s, i, r, r2),
    ensures
        r2 == r,
{
    let rl = olinks(r);
    let r2l = olinks(r2);
    lemma_reextraction_order(s, i, r, r2);
    lemma_identity_mirror_children(r, r2);
    lemma_same_children_same_parents(r, r2);
    let ident = Seq::new(r.len() as nat, |q: int| q as usize);
    assert forall|q: int| 0 <= q < r.len() implies #[trigger] r2[q] == r[q] by {
        assert(rl[q].index == q);
        assert(r2l[q].index == q);
        assert(rl[q].index == r[q].idx);
        assert(r2l[q].index == r2[q].idx);
        assert(payloads(r2)[q] == payload_of(r2[q]));
        assert(payloads_at(r, subtree_order(rl, 0))[q] == payload_of(r[ident[q] as int]));
        assert(ident[q] == q as usize);
        assert(payload_of(r2[q]) == payload_of(r[q]));
        assert(r2[q].name == r[q].name && r2[q].display == r[q].display);
    }
    assert(r2 =~= r);
}

impl ArenaTree {
    /// Seeds an empty tree with its root object and puts the cursor on
    /// it.
    pub(crate) fn seed_root(&mut self, val: Description)
        requires
            old(self).wf(),
            old(self)@.len() == 0,
        ensures
            final(self).wf(),
            final(self)@ =~= seq![leaf_obj(val.spec_name(), val.spec_display(), 0, None)],
            final(self).spec_curr() == Some(0usize),
    {
        self.arena.push(Object::new_described(val, 0, None));
        self.curr = Some(0);
        proof {
            let ls = olinks(self@);
            assert(ls.len() == 1);
            assert(ls[0].parent is None);
            assert(rooted_within(ls, 0, 1));
            assert forall|i: int| 0 <= i < ls.len() implies #[trigger] rooted_within(
                ls,
                i,
                ls.len(),
            ) by {
                assert(i == 0);
            }
            assert(wf_links(ls, 0));
        }
    }

    /// Appends to `dst`, under `dst_parent`, a copy of every descendant
    /// of the node at `src`, in depth-first discovery order. Beyond the
    /// copied payloads, the contract pins the copied structure: only
    /// `dst_parent`'s child list among the existing nodes changes, and
    /// the appended block's child lists mirror the source subtree's.
    #[verifier::rlimit(80)]
    fn copy_descendants(&self, src: usize, dst: &mut ArenaTree, dst_parent: usize)
        requires
            self.wf(),
            old(dst).wf(),
            src < self@.len(),
            dst_parent < old(dst)@.len(),
        ensures
            final(dst).wf(),
            final(dst).spec_curr() == old(dst).spec_curr(),
            payloads(final(dst)@) == payloads(old(dst)@) + payloads_at(
                self@,
                descendants_of(olinks(self@), src as int),
            ),
            forall|t: int|
                0 <= t < old(dst)@.len() ==> (#[trigger] final(dst)@[t]).parent == old(
                    dst,
                )@[t].parent,
            copied_block(olinks(self@), src, old(dst)@, final(dst)@, dst_parent),
        decreases self@.len() - depth_of(olinks(self@), src as int),
    {
        let ghost ls = olinks(self@);
        let ghost d = descendants_of(ls, src as int);
        let ghost base = old(dst)@.len() as int;
        let total = self.arena.len();
        proof {
            assert(ls.len() == total);
        }
        match &self.arena[src].children {
            None => {
                proof {
                    assert(kids(ls[src as int]) =~= Seq::<usize>::empty());
                    assert(d =~= Seq::<usize>::empty());
                    assert(payloads_at(self@, d) =~= Seq::<
                        (Seq<char>, Option<Seq<char>>),
                    >::empty());
                    assert(payloads(dst@) =~= payloads(dst@) + payloads_at(self@, d));
                    assert(copied_child_positions(ls, src, base) =~= Seq::<usize>::empty());
                    assert(obj_child_seq(dst@[dst_parent as int]) =~= obj_child_seq(
                        dst@[dst_parent as int],
                    ) + copied_child_positions(ls, src, base));
                }
            },
            Some(cs) => {
                let m = cs.len();
                let mut q: usize = 0;
                proof {
                    assert(kids(ls[src as int]) == cs@);
                    assert(cs@.take(0) =~= Seq::<usize>::empty());
                    assert(preorder_list(ls, cs@.take(0), ls.len()) == Seq::<usize>::empty());
                    assert(payloads(dst@) =~= payloads(dst@) + payloads_at(
                        self@,
                        preorder_list(ls, cs@.take(0), ls.len()),
                    ));
                    assert(obj_child_seq(dst@[dst_parent as int]) =~= obj_child_seq(
                        dst@[dst_parent as int],
                    ) + Seq::new(0, |j: int| (base + block_offset(ls, cs@, j, ls.len())) as usize));
                }
                while q < m
                    invariant
                        self.wf(),
                        dst.wf(),
                        ls == olinks(self@),
                        ls.len() <= usize::MAX,
                        base == old(dst)@.len() as int,
                        src < self@.len(),
                        dst_parent < old(dst)@.len(),
                        kids(ls[src as int]) == cs@,
                        m == cs@.len(),
                        q <= m,
                        dst.spec_curr() == old(dst).spec_curr(),
                        dst@.len() == base + preorder_list(ls, cs@.take(q as int), ls.len()).len(),
                        payloads(dst@) == payloads(old(dst)@) + payloads_at(
                            self@,
                            preorder_list(ls, cs@.take(q as int), ls.len()),
                        ),
                        forall|t: int|
                            0 <= t < old(dst)@.len() ==> (#[trigger] dst@[t]).parent == old(
                                dst,
                            )@[t].parent,
                        forall|t: int|
                            0 <= t < old(dst)@.len() && t != dst_parent ==> (
                            #[trigger] dst@[t]).children == old(dst)@[t].children,
                        obj_child_seq(dst@[dst_parent as int]) == obj_child_seq(
                            old(dst)@[dst_parent as int],
                        ) + Seq::new(
                            q as nat,
                            |j: int| (base + block_offset(ls, cs@, j, ls.len())) as usize,
                        ),
                        (dst@[dst_parent as int].children is Some <==> (old(
                            dst,
                        )@[dst_parent as int].children is Some || q > 0)),
                        forall|p: int|
                            0 <= p < preorder_list(ls, cs@.take(q as int), ls.len()).len() ==> ((
                            #[trigger] dst@[base + p]).children is Some <==> ls[preorder_list(
                                ls,
                                cs@.take(q as int),
                                ls.len(),
                            )[p] as int].children is Some),
                        forall|p: int|
                            0 <= p < preorder_list(ls, cs@.take(q as int), ls.len()).len()
                                ==> obj_child_seq(#[trigger] dst@[base + p]).len() == kids(
                                ls[preorder_list(ls, cs@.take(q as int), ls.len())[p] as int],
                            ).len(),
                        forall|p: int, j: int|
                            0 <= p < preorder_list(ls, cs@.take(q as int), ls.len()).len() && 0 <= j
                                < kids(
                                ls[preorder_list(ls, cs@.take(q as int), ls.len())[p] as int],
                            ).len() ==> {
                                let cpos = #[trigger] obj_child_seq(dst@[base + p])[j];
                                base <= cpos < base + preorder_list(
                                    ls,
                                    cs@.take(q as int),
                                    ls.len(),
                                ).len() && preorder_list(ls, cs@.take(q as int), ls.len())[cpos
                                    - base] == kids(
                                    ls[preorder_list(ls, cs@.take(q as int), ls.len())[p] as int],
                                )[j]
                            },
                    decreases m - q,
                {
                    let c = cs[q];
                    proof {
                        assert(kids(ls[src as int])[q as int] == c);
                        assert(kids(ls[src as int]).contains(c));
                        lemma_child_depth(ls, 0, src as int, c);
                    }
                    let new_idx = dst.len();
                    let ghost dpre = preorder_list(ls, cs@.take(q as int), ls.len());
                    let ghost mid = dst@;
                    dst.add_child_described(self.arena[c].describe(), dst_parent);
                    proof {
                        assert(dst_parent < mid.len());
                        assert(dst@ == appended_leaf_obj(
                            mid,
                            dst_parent as int,
                            self@[c as int].name,
                            self@[c as int].display,
                        ));
                        assert(payloads(dst@) =~= payloads(mid).push(payload_of(self@[c as int])));
                        assert(dst@.len() == mid.len() + 1);
                        assert(dst@[new_idx as int].name == self@[c as int].name);
                        assert(dst@[new_idx as int].children is None);
                    }
                    let ghost mid2 = dst@;
                    self.copy_descendants(c, dst, new_idx);
                    let total_now = dst.len();
                    proof {
                        let len = ls.len();
                        let dsub = descendants_of(ls, c as int);
                        let dpre1 = preorder_list(ls, cs@.take(q + 1), len);
                        lemma_preorder_list_snoc(ls, cs@, q as int, len);
                        assert(preorder(ls, c, len) == seq![c] + preorder_list(
                            ls,
                            kids(ls[c as int]),
                            (len - 1) as nat,
                        ));
                        assert forall|t: int|
                            0 <= t < kids(ls[c as int]).len() implies kids(ls[c as int]).contains(
                            #[trigger] kids(ls[c as int])[t],
                        ) by {}
                        lemma_preorder_list_fuel(
                            ls,
                            0,
                            kids(ls[c as int]),
                            c,
                            (len - 1) as nat,
                            len,
                        );
                        assert(dsub == preorder_list(ls, kids(ls[c as int]), len));
                        assert(preorder(ls, c, len) == seq![c] + dsub);
                        assert(dpre1 == dpre + (seq![c] + dsub));
                        assert(dpre1.len() == dpre.len() + 1 + dsub.len());
                        assert forall|p: int| 0 <= p < dpre.len() implies #[trigger] dpre1[p]
                            == dpre[p] by {}
                        assert(dpre1[dpre.len() as int] == c);
                        assert forall|p: int| 0 <= p < dsub.len() implies #[trigger] dsub[p]
                            == dpre1[dpre.len() + 1 + p] by {}
                        assert(payloads_at(self@, dpre1) =~= payloads_at(self@, dpre) + (seq![
                            payload_of(self@[c as int]),
                        ] + payloads_at(self@, dsub)));
                        assert(payloads(dst@) =~= payloads(old(dst)@) + payloads_at(self@, dpre1));
                        assert(new_idx as int == base + dpre.len());
                        assert(mid2.len() as int == base + dpre.len() + 1);
                        assert(dst@.len() == mid2.len() + dsub.len());
                        assert(dst@.len() == base + dpre1.len());
                        assert(dst@.len() == total_now as int);
                        assert forall|t: int|
                            0 <= t < old(dst)@.len() implies (#[trigger] dst@[t]).parent == old(
                            dst,
                        )@[t].parent by {
                            assert(dst@[t].parent == mid2[t].parent);
                            assert(mid2[t].parent == mid[t].parent);
                        }
                        assert forall|t: int|
                            0 <= t < old(dst)@.len() && t != dst_parent implies (
                        #[trigger] dst@[t]).children == old(dst)@[t].children by {
                            assert(t < mid2.len() && t != new_idx as int);
                            assert(dst@[t].children == mid2[t].children);
                            assert(mid2[t].children == mid[t].children);
                        }
                        assert(dst_parent as int != new_idx as int);
                        assert(dst@[dst_parent as int].children == mid2[dst_parent as int].children);
                        assert(obj_child_seq(dst@[dst_parent as int]) == obj_child_seq(
                            old(dst)@[dst_parent as int],
                        ) + Seq::new(
                            q as nat,
                            |j: int| (base + block_offset(ls, cs@, j, len)) as usize,
                        ).push(new_idx));
                        assert(block_offset(ls, cs@, q as int, len) == dpre.len());
                        assert(Seq::new(
                            (q + 1) as nat,
                            |j: int| (base + block_offset(ls, cs@, j, len)) as usize,
                        ) =~= Seq::new(
                            q as nat,
                            |j: int| (base + block_offset(ls, cs@, j, len)) as usize,
                        ).push(new_idx));
                        assert(obj_child_seq(dst@[dst_parent as int]) == obj_child_seq(
                            old(dst)@[dst_parent as int],
                        ) + Seq::new(
                            (q + 1) as nat,
                            |j: int| (base + block_offset(ls, cs@, j, len)) as usize,
                        ));
                        // the head of the new block: the copy of `c` itself
                        assert(mid2[new_idx as int].children is None);
                        assert(obj_child_seq(mid2[new_idx as int]) =~= Seq::<usize>::empty());
                        assert(copied_child_positions(ls, c, mid2.len() as int).len() == kids(
                            ls[c as int],
                        ).len());
                        assert(obj_child_seq(dst@[new_idx as int]) =~= copied_child_positions(
                            ls,
                            c,
                            mid2.len() as int,
                        ));
                        assert(ls[c as int].children is Some <==> kids(ls[c as int]).len() > 0) by {
                            if ls[c as int].children is None {
                                assert(kids(ls[c as int]) =~= Seq::<usize>::empty());
                            }
                        }
                        assert forall|p: int| 0 <= p < dpre1.len() implies ((
                        #[trigger] dst@[base + p]).children is Some <==> ls[dpre1[p] as int].children
                            is Some) by {
                            if p < dpre.len() {
                                assert(dpre1[p] == dpre[p]);
                                assert(base + p < mid.len() && base + p != dst_parent as int
                                    && base + p != new_idx as int);
                                assert(dst@[base + p].children == mid2[base + p].children);
                                assert(mid2[base + p].children == mid[base + p].children);
                            } else if p == dpre.len() {
                                assert(dpre1[p] == c);
                                assert(base + p == new_idx as int);
                            } else {
                                let pp = p - dpre.len() - 1;
                                assert(dpre1[p] == dsub[pp]);
                                assert(base + p == mid2.len() + pp);
                            }
                        }
                        assert forall|p: int| 0 <= p < dpre1.len() implies obj_child_seq(
                            #[trigger] dst@[base + p],
                        ).len() == kids(ls[dpre1[p] as int]).len() by {
                            if p < dpre.len() {
                                assert(dpre1[p] == dpre[p]);
                                assert(base + p < mid.len() && base + p != dst_parent as int
                                    && base + p != new_idx as int);
                                assert(dst@[base + p].children == mid2[base + p].children);
                                assert(mid2[base + p].children == mid[base + p].children);
                            } else if p == dpre.len() {
                                assert(dpre1[p] == c);
                                assert(base + p == new_idx as int);
                            } else {
                                let pp = p - dpre.len() - 1;
                                assert(dpre1[p] == dsub[pp]);
                                assert(base + p == mid2.len() + pp);
                            }
                        }
                        assert forall|p: int, j: int|
                            0 <= p < dpre1.len() && 0 <= j < kids(ls[dpre1[p] as int]).len() implies {
                            let cpos = #[trigger] obj_child_seq(dst@[base + p])[j];
                            base <= cpos < base + dpre1.len() && dpre1[cpos - base] == kids(
                                ls[dpre1[p] as int],
                            )[j]
                        } by {
                            if p < dpre.len() {
                                assert(dpre1[p] == dpre[p]);
                                assert(base + p < mid.len() && base + p != dst_parent as int
                                    && base + p != new_idx as int);
                                assert(dst@[base + p].children == mid2[base + p].children);
                                assert(mid2[base + p].children == mid[base + p].children);
                                let cpos = obj_child_seq(dst@[base + p])[j];
                                assert(base <= cpos < base + dpre.len());
                                assert(dpre[cpos - base] == kids(ls[dpre[p] as int])[j]);
                                assert(dpre1[cpos - base] == dpre[cpos - base]);
                            } else if p == dpre.len() {
                                assert(dpre1[p] == c);
                                assert(base + p == new_idx as int);
                                lemma_block_head(ls, kids(ls[c as int]), j, len);
                                let bo = block_offset(ls, kids(ls[c as int]), j, len);
                                assert(0 <= bo < dsub.len());
                                assert(dsub[bo] == kids(ls[c as int])[j]);
                                assert(mid2.len() + bo < dst@.len());
                                let cpos = obj_child_seq(dst@[base + p])[j];
                                assert(cpos == copied_child_positions(
                                    ls,
                                    c,
                                    mid2.len() as int,
                                )[j]);
                                assert(cpos as int == mid2.len() + bo);
                                assert(cpos - base == dpre.len() + 1 + bo);
                                assert(dpre1[cpos - base] == dsub[bo]);
                            } else {
                                let pp = p - dpre.len() - 1;
                                assert(dpre1[p] == dsub[pp]);
                                assert(base + p == mid2.len() + pp);
                                let cpos = obj_child_seq(dst@[base + p])[j];
                                assert(mid2.len() as int <= cpos < mid2.len() + dsub.len());
                                assert(dsub[cpos - mid2.len() as int] == kids(
                                    ls[dsub[pp] as int],
                                )[j]);
                                assert(cpos - base == dpre.len() + 1 + (cpos
                                    - mid2.len() as int));
                                assert(dpre1[cpos - base] == dsub[cpos - mid2.len() as int]);
                            }
                        }
                    }
                    q = q + 1;
                }
                proof {
                    assert(cs@.take(m as int) =~= cs@);
                    assert(d == preorder_list(ls, cs@, ls.len()));
                    assert(copied_child_positions(ls, src, base) =~= Seq::new(
                        m as nat,
                        |j: int| (base + block_offset(ls, cs@, j, ls.len())) as usize,
                    ));
                    assert(kids(ls[src as int]).len() > 0 <==> m > 0);
                    assert(copied_child_positions(ls, src, base).len() == m as int);
                }
            },
        }
    }

    /// An independent tree holding a copy of the node at `from_position`
    /// and every one of its descendants, renumbered densely from 0 in
    /// depth-first discovery order. The extracted node becomes the new
    /// root: its parent reference is cleared and the new tree's cursor
    /// rests on it. The source tree is left untouched.
    pub fn sub_tree(&self, from_position: usize) -> (r: ArenaTree)
        requires
            self.wf(),
            from_position < self@.len(),
        ensures
            r.wf(),
            r.spec_curr() == Some(0usize),
            payloads(r@) == payloads_at(
                self@,
                subtree_order(olinks(self@), from_position),
            ),
            mirrors_children(olinks(self@), subtree_order(olinks(self@), from_position), r@),
            r@.len() > 0,
            r@[0].parent is None,
    {
        let ghost ls = olinks(self@);
        let total = self.arena.len();
        proof {
            assert(ls.len() == total);
        }
        let mut r = ArenaTree::new(None);
        r.seed_root(self.arena[from_position].describe());
        let ghost seeded = r@;
        proof {
            assert(payloads(r@) =~= seq![payload_of(self@[from_position as int])]);
        }
        self.copy_descendants(from_position, &mut r, 0);
        let r_total = r.len();
        proof {
            assert(r@.len() == r_total as int);
            let len = ls.len();
            assert(len > 0);
            assert(preorder(ls, from_position, len) == seq![from_position] + preorder_list(
                ls,
                kids(ls[from_position as int]),
                (len - 1) as nat,
            ));
            assert forall|t: int|
                0 <= t < kids(ls[from_position as int]).len() implies kids(
                ls[from_position as int],
            ).contains(#[trigger] kids(ls[from_position as int])[t]) by {}
            lemma_preorder_list_fuel(
                ls,
                0,
                kids(ls[from_position as int]),
                from_position,
                (len - 1) as nat,
                len,
            );
            assert(descendants_of(ls, from_position as int) == preorder_list(
                ls,
                kids(ls[from_position as int]),
                len,
            ));
            assert(subtree_order(ls, from_position) == seq![from_position] + descendants_of(
                ls,
                from_position as int,
            ));
            assert(payloads_at(self@, subtree_order(ls, from_position)) =~= seq![
                payload_of(self@[from_position as int]),
            ] + payloads_at(self@, descendants_of(ls, from_position as int)));
            assert(payloads(r@) =~= payloads_at(self@, subtree_order(ls, from_position)));
            assert(r@.len() == payloads(r@).len());
            assert(r@[0].parent is None);
            // assemble the structural mirror over the discovery order
            let ord = subtree_order(ls, from_position);
            let dsc = descendants_of(ls, from_position as int);
            let cs = kids(ls[from_position as int]);
            assert(seeded.len() == 1);
            assert(ord == seq![from_position] + dsc);
            assert(ord[0] == from_position);
            assert forall|p: int| 0 <= p < dsc.len() implies #[trigger] ord[1 + p] == dsc[p] by {}
            assert(r@.len() == ord.len());
            assert(obj_child_seq(seeded[0]) =~= Seq::<usize>::empty());
            assert(obj_child_seq(r@[0]) =~= copied_child_positions(ls, from_position, 1));
            assert(ls[from_position as int].children is Some <==> cs.len() > 0) by {
                if ls[from_position as int].children is None {
                    assert(cs =~= Seq::<usize>::empty());
                }
            }
            assert forall|q: int| 0 <= q < ord.len() implies ((#[trigger] r@[q]).children is Some
                <==> ls[ord[q] as int].children is Some) by {
                if q == 0 {
                    assert(copied_child_positions(ls, from_position, 1).len() == cs.len());
                } else {
                    assert(ord[q] == dsc[q - 1]);
                    assert(r@[1 + (q - 1)].children is Some <==> ls[dsc[q - 1] as int].children
                        is Some);
                }
            }
            assert forall|q: int| 0 <= q < ord.len() implies obj_child_seq(#[trigger] r@[q]).len()
                == kids(ls[ord[q] as int]).len() by {
                if q == 0 {
                    assert(copied_child_positions(ls, from_position, 1).len() == cs.len());
                } else {
                    assert(ord[q] == dsc[q - 1]);
                    assert(obj_child_seq(r@[1 + (q - 1)]).len() == kids(
                        ls[dsc[q - 1] as int],
                    ).len());
                }
            }
            assert forall|q: int, j: int|
                0 <= q < ord.len() && 0 <= j < kids(ls[ord[q] as int]).len() implies {
                let cpos = #[trigger] obj_child_seq(r@[q])[j];
                cpos < ord.len() && ord[cpos as int] == kids(ls[ord[q] as int])[j]
            } by {
                if q == 0 {
                    let cpos = obj_child_seq(r@[q])[j];
                    assert(cpos == copied_child_positions(ls, from_position, 1)[j]);
                    lemma_block_head(ls, cs, j, ls.len());
                    let bo = block_offset(ls, cs, j, ls.len());
                    assert(0 <= bo < dsc.len());
                    assert(dsc[bo] == cs[j]);
                    assert(1 + bo < r@.len());
                    assert(r@.len() <= usize::MAX);
                    assert(cpos as int == 1 + bo);
                    assert(ord[cpos as int] == dsc[bo]);
                } else {
                    assert(ord[q] == dsc[q - 1]);
                    let cpos = obj_child_seq(r@[1 + (q - 1)])[j];
                    assert(1 <= cpos < 1 + dsc.len());
                    assert(dsc[cpos - 1] == kids(ls[dsc[q - 1] as int])[j]);
                    assert(ord[cpos as int] == dsc[cpos - 1]);
                }
            }
        }
        r
    }
}

} // verus!
