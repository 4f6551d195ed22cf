//! The structural skeleton shared by every arena in this crate: each stored
//! node, seen only as its own position plus the positions it references.
//! The well-formedness predicate and the lemmas about parent chains live
//! here, independent of the payload a concrete arena carries.

use vstd::prelude::*;
use vstd::seq_lib::*;
use vstd::set_lib::{lemma_int_range, lemma_len_subset, set_int_range};

verus! {

/// The structural part of one stored node.
pub struct Link {
    pub index: usize,
    pub parent: Option<usize>,
    pub children: Option<Seq<usize>>,
}

/// The child list of a link, the empty sequence when absent.
pub open spec fn kids(l: Link) -> Seq<usize> {
    match l.children {
        Some(c) => c,
        None => Seq::empty(),
    }
}

/// Every stored node records the position it occupies.
pub open spec fn indexed_ok(s: Seq<Link>) -> bool {
    forall|i: int| 0 <= i < s.len() ==> (#[trigger] s[i].index) == i
}

/// Every parent reference addresses a live position.
pub open spec fn parents_in_range(s: Seq<Link>) -> bool {
    forall|i: int|
        0 <= i < s.len() && s[i].parent is Some ==> (#[trigger] s[i].parent)->Some_0 < s.len()
}

/// Every child reference addresses a live position.
pub open spec fn children_in_range(s: Seq<Link>) -> bool {
    forall|i: int, j: int|
        0 <= i < s.len() && 0 <= j < kids(s[i]).len() ==> (#[trigger] kids(s[i])[j]) < s.len()
}

/// A child list is absent rather than empty.
pub open spec fn children_nonempty(s: Seq<Link>) -> bool {
    forall|i: int| 0 <= i < s.len() && (#[trigger] s[i]).children is Some ==> kids(s[i]).len() > 0
}

/// No position is listed twice in one child list.
pub open spec fn children_distinct(s: Seq<Link>) -> bool {
    forall|i: int, j1: int, j2: int|
        0 <= i < s.len() && 0 <= j1 < kids(s[i]).len() && 0 <= j2 < kids(s[i]).len() && j1 != j2
            ==> #[trigger] kids(s[i])[j1] != #[trigger] kids(s[i])[j2]
}

/// Whoever is listed as a child points back at the lister.
pub open spec fn symmetry_down(s: Seq<Link>) -> bool {
    forall|i: int, j: int|
        0 <= i < s.len() && 0 <= j < kids(s[i]).len() ==> s[#[trigger] kids(s[i])[j] as int].parent
            == Some(i as usize)
}

/// Whoever points at a parent is listed by that parent.
pub open spec fn symmetry_up(s: Seq<Link>) -> bool {
    forall|c: int|
        0 <= c < s.len() && (#[trigger] s[c].parent) is Some ==> kids(
            s[s[c].parent->Some_0 as int],
        ).contains(c as usize)
}

/// Exactly one node, the one at `root`, has no parent (unless the arena
/// is empty).
pub open spec fn single_root(s: Seq<Link>, root: usize) -> bool {
    s.len() > 0 ==> root < s.len() && (forall|i: int|
        0 <= i < s.len() ==> ((#[trigger] s[i]).parent is None <==> i == root))
}

/// Following parent references from `i` reaches a parentless node in at
/// most `fuel` steps, staying inside the arena.
pub open spec fn rooted_within(s: Seq<Link>, i: int, fuel: nat) -> bool
    decreases fuel,
{
    0 <= i < s.len() && match s[i].parent {
        None => true,
        Some(p) => fuel > 0 && rooted_within(s, p as int, (fuel - 1) as nat),
    }
}

/// Every node's parent chain terminates within the size of the arena.
pub open spec fn all_rooted(s: Seq<Link>) -> bool {
    forall|i: int| 0 <= i < s.len() ==> #[trigger] rooted_within(s, i, s.len())
}

/// The structural invariant every arena of this crate maintains.
pub open spec fn wf_links(s: Seq<Link>, root: usize) -> bool {
    &&& indexed_ok(s)
    &&& parents_in_range(s)
    &&& children_in_range(s)
    &&& children_nonempty(s)
    &&& children_distinct(s)
    &&& symmetry_down(s)
    &&& symmetry_up(s)
    &&& single_root(s, root)
    &&& all_rooted(s)
}

/// More fuel never hurts a terminating parent chain.
pub proof fn lemma_rooted_mono(s: Seq<Link>, i: int, f1: nat, f2: nat)
    requires
        rooted_within(s, i, f1),
        f1 <= f2,
    ensures
        rooted_within(s, i, f2),
    decreases f1,
{
    match s[i].parent {
        None => {},
        Some(p) => {
            lemma_rooted_mono(s, p as int, (f1 - 1) as nat, (f2 - 1) as nat);
        },
    }
}

/// A parent chain survives any change that keeps every old node's parent
/// reference, even if nodes are appended after the old ones.
pub proof fn lemma_rooted_extend(s1: Seq<Link>, s2: Seq<Link>, i: int, fuel: nat)
    requires
        rooted_within(s1, i, fuel),
        s1.len() <= s2.len(),
        forall|k: int| 0 <= k < s1.len() ==> (#[trigger] s2[k]).parent == s1[k].parent,
    ensures
        rooted_within(s2, i, fuel),
    decreases fuel,
{
    match s1[i].parent {
        None => {},
        Some(p) => {
            lemma_rooted_extend(s1, s2, p as int, (fuel - 1) as nat);
        },
    }
}

/// The ancestors of `i`, nearest first: its parent, then the parent's
/// parent, up to the root.
pub open spec fn lineage_within(s: Seq<Link>, i: int, fuel: nat) -> Seq<usize>
    decreases fuel,
{
    if 0 <= i < s.len() {
        match s[i].parent {
            None => Seq::empty(),
            Some(p) => if fuel > 0 {
                seq![p] + lineage_within(s, p as int, (fuel - 1) as nat)
            } else {
                Seq::empty()
            },
        }
    } else {
        Seq::empty()
    }
}

/// Once the chain terminates within the fuel, more fuel does not change
/// the lineage.
pub proof fn lemma_lineage_fuel(s: Seq<Link>, i: int, f1: nat, f2: nat)
    requires
        rooted_within(s, i, f1),
        f1 <= f2,
    ensures
        lineage_within(s, i, f2) == lineage_within(s, i, f1),
    decreases f1,
{
    match s[i].parent {
        None => {},
        Some(p) => {
            lemma_lineage_fuel(s, p as int, (f1 - 1) as nat, (f2 - 1) as nat);
        },
    }
}

/// The ancestors of `i`, nearest first. Meaningful whenever the chain
/// from `i` terminates within the size of the arena, which
/// well-formedness guarantees.
pub open spec fn lineage_of(s: Seq<Link>, i: int) -> Seq<usize> {
    lineage_within(s, i, s.len())
}

/// A lineage never exceeds its fuel.
pub proof fn lemma_lineage_len(s: Seq<Link>, i: int, fuel: nat)
    ensures
        lineage_within(s, i, fuel).len() <= fuel,
    decreases fuel,
{
    if 0 <= i < s.len() {
        match s[i].parent {
            None => {},
            Some(p) => {
                if fuel > 0 {
                    lemma_lineage_len(s, p as int, (fuel - 1) as nat);
                }
            },
        }
    }
}

/// The number of ancestors of the node at `i`: its depth in the tree.
pub open spec fn depth_of(s: Seq<Link>, i: int) -> nat {
    lineage_of(s, i).len()
}

/// A child sits one step deeper than its parent, and depth never
/// exceeds the size of the arena.
pub proof fn lemma_child_depth(s: Seq<Link>, root: usize, i: int, c: usize)
    requires
        wf_links(s, root),
        s.len() <= usize::MAX,
        0 <= i < s.len(),
        kids(s[i]).contains(c),
    ensures
        c < s.len(),
        depth_of(s, c as int) == depth_of(s, i) + 1,
        depth_of(s, i) + 1 <= s.len(),
{
    let q = choose|q: int| 0 <= q < kids(s[i]).len() && kids(s[i])[q] == c;
    assert(kids(s[i])[q] < s.len());
    assert(s[c as int].parent == Some(i as usize));
    assert(rooted_within(s, c as int, s.len()));
    assert(rooted_within(s, i, (s.len() - 1) as nat));
    lemma_lineage_fuel(s, i, (s.len() - 1) as nat, s.len());
    assert(lineage_within(s, c as int, s.len()) == seq![i as usize] + lineage_within(
        s,
        i,
        (s.len() - 1) as nat,
    ));
    lemma_lineage_len(s, c as int, s.len());
}

/// A chain that terminates at all terminates within exactly its own
/// length.
pub proof fn lemma_rooted_depth(s: Seq<Link>, i: int, fuel: nat)
    requires
        rooted_within(s, i, fuel),
    ensures
        rooted_within(s, i, lineage_within(s, i, fuel).len()),
    decreases fuel,
{
    match s[i].parent {
        None => {},
        Some(p) => {
            lemma_rooted_depth(s, p as int, (fuel - 1) as nat);
            assert(lineage_within(s, i, fuel) == seq![p] + lineage_within(
                s,
                p as int,
                (fuel - 1) as nat,
            ));
        },
    }
}

/// A node with a parent sits exactly one step deeper than that parent.
pub proof fn lemma_parent_depth(s: Seq<Link>, i: int)
    requires
        0 <= i < s.len(),
        rooted_within(s, i, s.len()),
        s[i].parent is Some,
    ensures
        lineage_of(s, i) == seq![s[i].parent->Some_0] + lineage_of(s, s[i].parent->Some_0 as int),
        depth_of(s, i) == depth_of(s, s[i].parent->Some_0 as int) + 1,
        rooted_within(s, s[i].parent->Some_0 as int, s.len()),
{
    let p = s[i].parent->Some_0;
    assert(rooted_within(s, p as int, (s.len() - 1) as nat));
    lemma_lineage_fuel(s, p as int, (s.len() - 1) as nat, s.len());
    lemma_rooted_mono(s, p as int, (s.len() - 1) as nat, s.len());
    assert(lineage_within(s, i, s.len()) == seq![p] + lineage_within(
        s,
        p as int,
        (s.len() - 1) as nat,
    ));
}

/// Walking up a lineage, each ancestor sits exactly one step less deep
/// than the node before it.
pub proof fn lemma_lineage_depths(s: Seq<Link>, i: int)
    requires
        0 <= i < s.len(),
        rooted_within(s, i, s.len()),
    ensures
        forall|m: int|
            0 <= m < lineage_of(s, i).len() ==> depth_of(s, #[trigger] lineage_of(s, i)[m] as int)
                == depth_of(s, i) - 1 - m,
    decreases depth_of(s, i),
{
    match s[i].parent {
        None => {},
        Some(p) => {
            lemma_parent_depth(s, i);
            lemma_lineage_depths(s, p as int);
            assert forall|m: int| 0 <= m < lineage_of(s, i).len() implies depth_of(
                s,
                #[trigger] lineage_of(s, i)[m] as int,
            ) == depth_of(s, i) - 1 - m by {
                if m == 0 {
                    assert(lineage_of(s, i)[0] == p);
                } else {
                    assert(lineage_of(s, i)[m] == lineage_of(s, p as int)[m - 1]);
                }
            }
        },
    }
}

/// No node of a finite arena sits deeper than the arena is large: a
/// terminating parent chain never revisits a position.
pub proof fn lemma_depth_bound(s: Seq<Link>, i: int)
    requires
        0 <= i < s.len(),
        rooted_within(s, i, s.len()),
    ensures
        depth_of(s, i) < s.len(),
{
    let lin = lineage_of(s, i);
    lemma_lineage_depths(s, i);
    lemma_lineage_in_range(s, i, s.len());
    let entries = lin.map_values(|x: usize| x as int).push(i);
    assert(entries.no_duplicates()) by {
        assert forall|m1: int, m2: int|
            0 <= m1 < entries.len() && 0 <= m2 < entries.len() && m1 != m2 implies entries[m1]
            != entries[m2] by {
            if m1 < lin.len() && m2 < lin.len() {
                assert(entries[m1] == lin[m1] as int);
                assert(entries[m2] == lin[m2] as int);
                assert(depth_of(s, lin[m1] as int) == depth_of(s, i) - 1 - m1);
                assert(depth_of(s, lin[m2] as int) == depth_of(s, i) - 1 - m2);
            } else if m1 < lin.len() {
                assert(entries[m1] == lin[m1] as int);
                assert(entries[m2] == i);
                assert(depth_of(s, lin[m1] as int) == depth_of(s, i) - 1 - m1);
            } else if m2 < lin.len() {
                assert(entries[m1] == i);
                assert(entries[m2] == lin[m2] as int);
                assert(depth_of(s, lin[m2] as int) == depth_of(s, i) - 1 - m2);
            }
        }
    }
    entries.unique_seq_to_set();
    assert(entries.to_set().subset_of(set_int_range(0, s.len() as int))) by {
        assert forall|x: int| entries.to_set().contains(x) implies set_int_range(
            0,
            s.len() as int,
        ).contains(x) by {
            let m = choose|m: int| 0 <= m < entries.len() && entries[m] == x;
            if m < lin.len() {
                assert(entries[m] == lin[m] as int);
            }
        }
    }
    lemma_int_range(0, s.len() as int);
    lemma_len_subset(entries.to_set(), set_int_range(0, s.len() as int));
}

/// The node at `i`, then the descendants of each of its children in
/// order: a depth-first preorder walk, bounded by `fuel`.
pub open spec fn preorder(s: Seq<Link>, i: usize, fuel: nat) -> Seq<usize>
    decreases fuel, 0int,
{
    if fuel == 0 {
        seq![i]
    } else {
        seq![i] + preorder_list(s, kids(s[i as int]), (fuel - 1) as nat)
    }
}

/// The preorder walks of the nodes in `cs`, one after the other.
pub open spec fn preorder_list(s: Seq<Link>, cs: Seq<usize>, fuel: nat) -> Seq<usize>
    decreases fuel, cs.len() + 1,
{
    if cs.len() == 0 {
        Seq::empty()
    } else {
        preorder(s, cs[0], fuel) + preorder_list(s, cs.drop_first(), fuel)
    }
}

/// Everything below the node at `i`, in depth-first preorder: the
/// concatenated walks of its children. The node itself is not included.
pub open spec fn descendants_of(s: Seq<Link>, i: int) -> Seq<usize> {
    if 0 <= i < s.len() {
        preorder_list(s, kids(s[i]), s.len())
    } else {
        Seq::empty()
    }
}

/// The whole subtree at `i`: the node itself, then its descendants.
pub open spec fn subtree_order(s: Seq<Link>, i: usize) -> Seq<usize> {
    preorder(s, i, s.len())
}

/// Once the fuel covers the height below a node, more fuel does not
/// change its preorder walk.
pub proof fn lemma_preorder_fuel(s: Seq<Link>, root: usize, i: usize, f1: nat, f2: nat)
    requires
        wf_links(s, root),
        s.len() <= usize::MAX,
        i < s.len(),
        f1 + depth_of(s, i as int) >= s.len(),
        f2 + depth_of(s, i as int) >= s.len(),
    ensures
        preorder(s, i, f1) == preorder(s, i, f2),
    decreases f1 + f2, 0int,
{
    if kids(s[i as int]).len() == 0 {
        assert(preorder_list(s, kids(s[i as int]), (f1 - 1) as nat) == Seq::<usize>::empty());
        assert(preorder_list(s, kids(s[i as int]), (f2 - 1) as nat) == Seq::<usize>::empty());
        if f1 == 0 {
            assert(preorder(s, i, f1) == seq![i]);
        } else {
            assert(preorder(s, i, f1) =~= seq![i]);
        }
        if f2 == 0 {
            assert(preorder(s, i, f2) == seq![i]);
        } else {
            assert(preorder(s, i, f2) =~= seq![i]);
        }
    } else {
        let c0 = kids(s[i as int])[0];
        assert(kids(s[i as int]).contains(c0));
        lemma_child_depth(s, root, i as int, c0);
        assert(f1 > 0 && f2 > 0);
        lemma_preorder_list_fuel(
            s,
            root,
            kids(s[i as int]),
            i,
            (f1 - 1) as nat,
            (f2 - 1) as nat,
        );
    }
}

/// The companion of [`lemma_preorder_fuel`] for a list of children of
/// one parent `p`.
pub proof fn lemma_preorder_list_fuel(
    s: Seq<Link>,
    root: usize,
    cs: Seq<usize>,
    p: usize,
    f1: nat,
    f2: nat,
)
    requires
        wf_links(s, root),
        s.len() <= usize::MAX,
        p < s.len(),
        forall|q: int| 0 <= q < cs.len() ==> kids(s[p as int]).contains(#[trigger] cs[q]),
        f1 + depth_of(s, p as int) + 1 >= s.len(),
        f2 + depth_of(s, p as int) + 1 >= s.len(),
    ensures
        preorder_list(s, cs, f1) == preorder_list(s, cs, f2),
    decreases f1 + f2, cs.len() + 1,
{
    if cs.len() > 0 {
        assert(kids(s[p as int]).contains(cs[0]));
        lemma_child_depth(s, root, p as int, cs[0]);
        lemma_preorder_fuel(s, root, cs[0], f1, f2);
        assert(forall|q: int|
            0 <= q < cs.drop_first().len() ==> kids(s[p as int]).contains(
                #[trigger] cs.drop_first()[q],
            ));
        lemma_preorder_list_fuel(s, root, cs.drop_first(), p, f1, f2);
    }
}

/// A preorder walk of a child list splits at any point.
pub proof fn lemma_preorder_list_split(s: Seq<Link>, cs: Seq<usize>, q: int, fuel: nat)
    requires
        0 <= q <= cs.len(),
    ensures
        preorder_list(s, cs, fuel) == preorder_list(s, cs.take(q), fuel) + preorder_list(
            s,
            cs.skip(q),
            fuel,
        ),
    decreases q,
{
    if q == 0 {
        assert(cs.take(0).len() == 0);
        assert(cs.skip(0) =~= cs);
        assert(preorder_list(s, cs, fuel) =~= Seq::empty() + preorder_list(s, cs, fuel));
    } else {
        assert(cs.len() > 0);
        lemma_preorder_list_split(s, cs.drop_first(), q - 1, fuel);
        assert(cs.take(q).drop_first() =~= cs.drop_first().take(q - 1));
        assert(cs.take(q).len() > 0);
        assert(cs.take(q)[0] == cs[0]);
        assert(preorder_list(s, cs.take(q), fuel) == preorder(s, cs[0], fuel) + preorder_list(
            s,
            cs.drop_first().take(q - 1),
            fuel,
        ));
        assert(cs.skip(q) =~= cs.drop_first().skip(q - 1));
        assert((preorder(s, cs[0], fuel) + preorder_list(s, cs.drop_first().take(q - 1), fuel))
            + preorder_list(s, cs.drop_first().skip(q - 1), fuel) =~= preorder(s, cs[0], fuel) + (
        preorder_list(s, cs.drop_first().take(q - 1), fuel) + preorder_list(
            s,
            cs.drop_first().skip(q - 1),
            fuel,
        )));
    }
}

/// More fuel never shortens a preorder walk.
pub proof fn lemma_preorder_len_mono(s: Seq<Link>, i: usize, f1: nat, f2: nat)
    requires
        f1 <= f2,
    ensures
        preorder(s, i, f1).len() <= preorder(s, i, f2).len(),
    decreases f1 + f2, 0int,
{
    if f1 > 0 {
        lemma_preorder_list_len_mono(
            s,
            kids(s[i as int]),
            (f1 - 1) as nat,
            (f2 - 1) as nat,
        );
    } else {
        assert(preorder(s, i, f1).len() == 1);
        if f2 > 0 {
            assert(preorder(s, i, f2).len() == 1 + preorder_list(
                s,
                kids(s[i as int]),
                (f2 - 1) as nat,
            ).len());
        }
    }
}

pub proof fn lemma_preorder_list_len_mono(s: Seq<Link>, cs: Seq<usize>, f1: nat, f2: nat)
    requires
        f1 <= f2,
    ensures
        preorder_list(s, cs, f1).len() <= preorder_list(s, cs, f2).len(),
    decreases f1 + f2, cs.len() + 1,
{
    if cs.len() > 0 {
        lemma_preorder_len_mono(s, cs[0], f1, f2);
        lemma_preorder_list_len_mono(s, cs.drop_first(), f1, f2);
    }
}

/// One more unit of fuel either leaves a preorder walk as it is, or the
/// walk already holds more entries than it had fuel: a truncated walk
/// carries a full-length spine.
pub proof fn lemma_preorder_step(s: Seq<Link>, i: usize, f: nat)
    ensures
        preorder(s, i, (f + 1) as nat) == preorder(s, i, f) || preorder(s, i, f).len() >= f + 1,
    decreases f, 0int,
{
    if f == 0 {
        assert(preorder(s, i, f).len() >= 1);
    } else {
        lemma_preorder_list_step(s, kids(s[i as int]), (f - 1) as nat);
        if preorder_list(s, kids(s[i as int]), f) == preorder_list(
            s,
            kids(s[i as int]),
            (f - 1) as nat,
        ) {
            assert(preorder(s, i, (f + 1) as nat) == seq![i] + preorder_list(
                s,
                kids(s[i as int]),
                f,
            ));
            assert(preorder(s, i, f) == seq![i] + preorder_list(
                s,
                kids(s[i as int]),
                (f - 1) as nat,
            ));
        } else {
            assert(preorder_list(s, kids(s[i as int]), (f - 1) as nat).len() >= f);
            assert(preorder(s, i, f).len() == 1 + preorder_list(
                s,
                kids(s[i as int]),
                (f - 1) as nat,
            ).len());
        }
    }
}

pub proof fn lemma_preorder_list_step(s: Seq<Link>, cs: Seq<usize>, f: nat)
    ensures
        preorder_list(s, cs, (f + 1) as nat) == preorder_list(s, cs, f) || preorder_list(
            s,
            cs,
            f,
        ).len() >= f + 1,
    decreases f, cs.len() + 1,
{
    if cs.len() > 0 {
        lemma_preorder_step(s, cs[0], f);
        lemma_preorder_list_step(s, cs.drop_first(), f);
        if preorder(s, cs[0], (f + 1) as nat) == preorder(s, cs[0], f) && preorder_list(
            s,
            cs.drop_first(),
            (f + 1) as nat,
        ) == preorder_list(s, cs.drop_first(), f) {
            assert(preorder_list(s, cs, (f + 1) as nat) == preorder_list(s, cs, f));
        } else {
            assert(preorder_list(s, cs, f).len() == preorder(s, cs[0], f).len() + preorder_list(
                s,
                cs.drop_first(),
                f,
            ).len());
        }
    }
}

/// Once a preorder walk fits inside its fuel, adding fuel changes
/// nothing: the walk has stabilized.
pub proof fn lemma_preorder_stable(s: Seq<Link>, i: usize, f1: nat, f2: nat)
    requires
        f1 <= f2,
        preorder(s, i, f2).len() <= f1,
    ensures
        preorder(s, i, f1) == preorder(s, i, f2),
    decreases f2 - f1,
{
    if f1 < f2 {
        lemma_preorder_len_mono(s, i, f1, f2);
        lemma_preorder_step(s, i, f1);
        if preorder(s, i, (f1 + 1) as nat) == preorder(s, i, f1) {
            lemma_preorder_stable(s, i, (f1 + 1) as nat, f2);
        } else {
            assert(preorder(s, i, f1).len() >= f1 + 1);
            assert(preorder(s, i, f1).len() <= preorder(s, i, f2).len());
            assert(false);
        }
    }
}

/// An ancestor's own parent is an ancestor too: lineages are closed
/// under taking parents.
pub proof fn lemma_lineage_closed(s: Seq<Link>, x: int, y: usize)
    requires
        0 <= x < s.len(),
        rooted_within(s, x, s.len()),
        lineage_of(s, x).contains(y),
        y < s.len(),
        s[y as int].parent is Some,
    ensures
        lineage_of(s, x).contains(s[y as int].parent->Some_0),
    decreases depth_of(s, x),
{
    assert(lineage_of(s, x).len() > 0);
    assert(s[x].parent is Some);
    let px = s[x].parent->Some_0;
    lemma_parent_depth(s, x);
    assert(lineage_of(s, x) == seq![px] + lineage_of(s, px as int));
    if y == px {
        assert(s[px as int].parent is Some);
        let ppx = s[px as int].parent->Some_0;
        lemma_parent_depth(s, px as int);
        assert(lineage_of(s, px as int) == seq![ppx] + lineage_of(s, ppx as int));
        assert(lineage_of(s, px as int)[0] == ppx);
        assert(lineage_of(s, x)[1] == ppx);
        assert(lineage_of(s, x).contains(ppx));
    } else {
        let m = choose|m: int| 0 <= m < lineage_of(s, x).len() && lineage_of(s, x)[m] == y;
        assert(m > 0);
        assert(lineage_of(s, px as int)[m - 1] == y);
        assert(lineage_of(s, px as int).contains(y));
        lemma_lineage_closed(s, px as int, y);
        let p = s[y as int].parent->Some_0;
        let m2 = choose|m2: int|
            0 <= m2 < lineage_of(s, px as int).len() && lineage_of(s, px as int)[m2] == p;
        assert(lineage_of(s, x)[m2 + 1] == p);
        assert(lineage_of(s, x).contains(p));
    }
}

/// Everything a preorder walk visits lies below its start: each visited
/// position either is the start itself, or counts the start among its
/// ancestors.
pub proof fn lemma_preorder_below(s: Seq<Link>, root: usize, c: usize, f: nat)
    requires
        wf_links(s, root),
        s.len() <= usize::MAX,
        c < s.len(),
    ensures
        forall|t: int|
            0 <= t < preorder(s, c, f).len() ==> {
                let x = #[trigger] preorder(s, c, f)[t];
                x < s.len() && (x == c || lineage_of(s, x as int).contains(c))
            },
    decreases f, 0int,
{
    if f > 0 {
        lemma_preorder_list_below(s, root, c, kids(s[c as int]), (f - 1) as nat);
        let rest = preorder_list(s, kids(s[c as int]), (f - 1) as nat);
        assert(preorder(s, c, f) == seq![c] + rest);
        assert forall|t: int| 0 <= t < preorder(s, c, f).len() implies {
            let x = #[trigger] preorder(s, c, f)[t];
            x < s.len() && (x == c || lineage_of(s, x as int).contains(c))
        } by {
            if t == 0 {
                assert(preorder(s, c, f)[0] == c);
            } else {
                let x = preorder(s, c, f)[t];
                assert(x == rest[t - 1]);
                let j = choose|j: int|
                    0 <= j < kids(s[c as int]).len() && (rest[t - 1] == kids(s[c as int])[j]
                        || lineage_of(s, rest[t - 1] as int).contains(kids(s[c as int])[j]));
                let ch = kids(s[c as int])[j];
                assert(s[ch as int].parent == Some(c));
                assert(ch < s.len());
                if x == ch {
                    assert(rooted_within(s, x as int, s.len()));
                    lemma_parent_depth(s, x as int);
                    assert(lineage_of(s, x as int)[0] == c);
                    assert(lineage_of(s, x as int).contains(c));
                } else {
                    assert(lineage_of(s, x as int).contains(ch));
                    assert(rooted_within(s, x as int, s.len()));
                    lemma_lineage_closed(s, x as int, ch);
                }
            }
        }
    }
}

/// The companion of [`lemma_preorder_below`] for a list of children of
/// one node `p`: each visited position is one of the listed children,
/// or has one of them among its ancestors.
pub proof fn lemma_preorder_list_below(
    s: Seq<Link>,
    root: usize,
    p: usize,
    cs: Seq<usize>,
    f: nat,
)
    requires
        wf_links(s, root),
        s.len() <= usize::MAX,
        p < s.len(),
        forall|j: int| 0 <= j < cs.len() ==> kids(s[p as int]).contains(#[trigger] cs[j]),
    ensures
        forall|t: int|
            0 <= t < preorder_list(s, cs, f).len() ==> {
                let x = #[trigger] preorder_list(s, cs, f)[t];
                x < s.len() && exists|j: int|
                    0 <= j < cs.len() && (x == cs[j] || lineage_of(s, x as int).contains(cs[j]))
            },
    decreases f, cs.len() + 1,
{
    if cs.len() > 0 {
        assert(kids(s[p as int]).contains(cs[0]));
        lemma_child_depth(s, root, p as int, cs[0]);
        lemma_preorder_below(s, root, cs[0], f);
        assert(forall|j: int|
            0 <= j < cs.drop_first().len() ==> kids(s[p as int]).contains(
                #[trigger] cs.drop_first()[j],
            ));
        lemma_preorder_list_below(s, root, p, cs.drop_first(), f);
        let head = preorder(s, cs[0], f);
        let rest = preorder_list(s, cs.drop_first(), f);
        assert(preorder_list(s, cs, f) == head + rest);
        assert forall|t: int| 0 <= t < preorder_list(s, cs, f).len() implies {
            let x = #[trigger] preorder_list(s, cs, f)[t];
            x < s.len() && exists|j: int|
                0 <= j < cs.len() && (x == cs[j] || lineage_of(s, x as int).contains(cs[j]))
        } by {
            let x = preorder_list(s, cs, f)[t];
            if t < head.len() {
                assert(x == head[t]);
                assert(x == cs[0] || lineage_of(s, x as int).contains(cs[0]));
            } else {
                assert(x == rest[t - head.len()]);
                let j = choose|j: int|
                    0 <= j < cs.drop_first().len() && (x == cs.drop_first()[j] || lineage_of(
                        s,
                        x as int,
                    ).contains(cs.drop_first()[j]));
                assert(cs.drop_first()[j] == cs[j + 1]);
                assert(x == cs[j + 1] || lineage_of(s, x as int).contains(cs[j + 1]));
            }
        }
    }
}

/// A node strictly above another (an ancestor) sits at a strictly
/// smaller depth.
proof fn lemma_ancestor_shallower(s: Seq<Link>, x: int, y: usize)
    requires
        0 <= x < s.len(),
        rooted_within(s, x, s.len()),
        lineage_of(s, x).contains(y),
    ensures
        depth_of(s, y as int) < depth_of(s, x),
{
    lemma_lineage_depths(s, x);
    let m = choose|m: int| 0 <= m < lineage_of(s, x).len() && lineage_of(s, x)[m] == y;
    assert(depth_of(s, lineage_of(s, x)[m] as int) == depth_of(s, x) - 1 - m);
}

/// A preorder walk never visits a position twice.
pub proof fn lemma_preorder_distinct(s: Seq<Link>, root: usize, c: usize, f: nat)
    requires
        wf_links(s, root),
        s.len() <= usize::MAX,
        c < s.len(),
    ensures
        preorder(s, c, f).no_duplicates(),
    decreases f, 0int,
{
    if f == 0 {
        assert(preorder(s, c, f) == seq![c]);
    } else {
        let cs = kids(s[c as int]);
        assert(cs.no_duplicates());
        assert(forall|j: int| 0 <= j < cs.len() ==> cs.contains(#[trigger] cs[j]));
        lemma_preorder_list_distinct(s, root, c, cs, (f - 1) as nat);
        lemma_preorder_list_below(s, root, c, cs, (f - 1) as nat);
        let rest = preorder_list(s, cs, (f - 1) as nat);
        assert(preorder(s, c, f) == seq![c] + rest);
        assert forall|t: int| 0 <= t < rest.len() implies #[trigger] rest[t] != c by {
            if rest[t] == c {
                let j = choose|j: int|
                    0 <= j < cs.len() && (rest[t] == cs[j] || lineage_of(
                        s,
                        rest[t] as int,
                    ).contains(cs[j]));
                assert(kids(s[c as int]).contains(cs[j]));
                lemma_child_depth(s, root, c as int, cs[j]);
                if c == cs[j] {
                    assert(depth_of(s, c as int) == depth_of(s, c as int) + 1);
                } else {
                    assert(lineage_of(s, c as int).contains(cs[j]));
                    assert(rooted_within(s, c as int, s.len()));
                    lemma_ancestor_shallower(s, c as int, cs[j]);
                }
            }
        }
        assert forall|t1: int, t2: int|
            0 <= t1 < preorder(s, c, f).len() && 0 <= t2 < preorder(s, c, f).len() && t1
                != t2 implies #[trigger] preorder(s, c, f)[t1] != #[trigger] preorder(
            s,
            c,
            f,
        )[t2] by {
            if t1 > 0 && t2 > 0 {
                assert(preorder(s, c, f)[t1] == rest[t1 - 1]);
                assert(preorder(s, c, f)[t2] == rest[t2 - 1]);
            } else if t1 == 0 {
                assert(preorder(s, c, f)[t2] == rest[t2 - 1]);
            } else {
                assert(preorder(s, c, f)[t1] == rest[t1 - 1]);
            }
        }
    }
}

/// The walks of distinct children of one node are pairwise disjoint,
/// so their concatenation never repeats a position either.
pub proof fn lemma_preorder_list_distinct(
    s: Seq<Link>,
    root: usize,
    p: usize,
    cs: Seq<usize>,
    f: nat,
)
    requires
        wf_links(s, root),
        s.len() <= usize::MAX,
        p < s.len(),
        forall|j: int| 0 <= j < cs.len() ==> kids(s[p as int]).contains(#[trigger] cs[j]),
        cs.no_duplicates(),
    ensures
        preorder_list(s, cs, f).no_duplicates(),
    decreases f, cs.len() + 1,
{
    if cs.len() > 0 {
        assert(kids(s[p as int]).contains(cs[0]));
        lemma_child_depth(s, root, p as int, cs[0]);
        lemma_preorder_distinct(s, root, cs[0], f);
        lemma_preorder_below(s, root, cs[0], f);
        assert(forall|j: int|
            0 <= j < cs.drop_first().len() ==> kids(s[p as int]).contains(
                #[trigger] cs.drop_first()[j],
            ));
        assert(cs.drop_first().no_duplicates());
        lemma_preorder_list_distinct(s, root, p, cs.drop_first(), f);
        lemma_preorder_list_below(s, root, p, cs.drop_first(), f);
        let head = preorder(s, cs[0], f);
        let rest = preorder_list(s, cs.drop_first(), f);
        assert(preorder_list(s, cs, f) == head + rest);
        assert forall|t1: int, t2: int|
            0 <= t1 < head.len() && 0 <= t2 < rest.len() implies #[trigger] head[t1]
            != #[trigger] rest[t2] by {
            if head[t1] == rest[t2] {
                let x = head[t1];
                let j = choose|j: int|
                    0 <= j < cs.drop_first().len() && (x == cs.drop_first()[j] || lineage_of(
                        s,
                        x as int,
                    ).contains(cs.drop_first()[j]));
                let c1 = cs[0];
                let c2 = cs.drop_first()[j];
                assert(c2 == cs[j + 1]);
                assert(c1 != c2);
                assert(kids(s[p as int]).contains(c2));
                lemma_child_depth(s, root, p as int, c2);
                assert(depth_of(s, c1 as int) == depth_of(s, c2 as int));
                assert(rooted_within(s, x as int, s.len()));
                if x == c1 && x == c2 {
                } else if x == c1 {
                    assert(lineage_of(s, x as int).contains(c2));
                    lemma_ancestor_shallower(s, x as int, c2);
                } else if x == c2 {
                    assert(lineage_of(s, x as int).contains(c1));
                    lemma_ancestor_shallower(s, x as int, c1);
                } else {
                    assert(lineage_of(s, x as int).contains(c1));
                    assert(lineage_of(s, x as int).contains(c2));
                    lemma_lineage_depths(s, x as int);
                    let m1 = choose|m: int|
                        0 <= m < lineage_of(s, x as int).len() && lineage_of(s, x as int)[m] == c1;
                    let m2 = choose|m: int|
                        0 <= m < lineage_of(s, x as int).len() && lineage_of(s, x as int)[m] == c2;
                    assert(depth_of(s, lineage_of(s, x as int)[m1] as int) == depth_of(
                        s,
                        x as int,
                    ) - 1 - m1);
                    assert(depth_of(s, lineage_of(s, x as int)[m2] as int) == depth_of(
                        s,
                        x as int,
                    ) - 1 - m2);
                    assert(m1 == m2);
                }
            }
        }
        assert forall|t1: int, t2: int|
            0 <= t1 < preorder_list(s, cs, f).len() && 0 <= t2 < preorder_list(s, cs, f).len()
                && t1 != t2 implies #[trigger] preorder_list(s, cs, f)[t1]
            != #[trigger] preorder_list(s, cs, f)[t2] by {
            if t1 < head.len() && t2 < head.len() {
                assert(preorder_list(s, cs, f)[t1] == head[t1]);
                assert(preorder_list(s, cs, f)[t2] == head[t2]);
            } else if t1 < head.len() {
                assert(preorder_list(s, cs, f)[t1] == head[t1]);
                assert(preorder_list(s, cs, f)[t2] == rest[t2 - head.len()]);
            } else if t2 < head.len() {
                assert(preorder_list(s, cs, f)[t1] == rest[t1 - head.len()]);
                assert(preorder_list(s, cs, f)[t2] == head[t2]);
            } else {
                assert(preorder_list(s, cs, f)[t1] == rest[t1 - head.len()]);
                assert(preorder_list(s, cs, f)[t2] == rest[t2 - head.len()]);
            }
        }
    }
}

/// A preorder walk of a well-formed arena never exceeds the arena's
/// size: it visits distinct live positions.
pub proof fn lemma_preorder_size(s: Seq<Link>, root: usize, c: usize, f: nat)
    requires
        wf_links(s, root),
        s.len() <= usize::MAX,
        c < s.len(),
    ensures
        preorder(s, c, f).len() <= s.len(),
{
    lemma_preorder_distinct(s, root, c, f);
    lemma_preorder_below(s, root, c, f);
    let w = preorder(s, c, f);
    let entries = w.map_values(|x: usize| x as int);
    assert(entries.no_duplicates()) by {
        assert forall|t1: int, t2: int|
            0 <= t1 < entries.len() && 0 <= t2 < entries.len() && t1 != t2 implies entries[t1]
            != entries[t2] by {
            assert(entries[t1] == w[t1] as int);
            assert(entries[t2] == w[t2] as int);
        }
    }
    entries.unique_seq_to_set();
    assert(entries.to_set().subset_of(set_int_range(0, s.len() as int))) by {
        assert forall|v: int| entries.to_set().contains(v) implies set_int_range(
            0,
            s.len() as int,
        ).contains(v) by {
            let t = choose|t: int| 0 <= t < entries.len() && entries[t] == v;
            assert(w[t] < s.len());
        }
    }
    lemma_int_range(0, s.len() as int);
    lemma_len_subset(entries.to_set(), set_int_range(0, s.len() as int));
}

/// Extending the walked prefix of a child list by one child appends
/// that child's whole walk.
pub proof fn lemma_preorder_list_snoc(s: Seq<Link>, cs: Seq<usize>, q: int, fuel: nat)
    requires
        0 <= q < cs.len(),
    ensures
        preorder_list(s, cs.take(q + 1), fuel) == preorder_list(s, cs.take(q), fuel) + preorder(
            s,
            cs[q],
            fuel,
        ),
{
    lemma_preorder_list_split(s, cs.take(q + 1), q, fuel);
    assert(cs.take(q + 1).take(q) =~= cs.take(q));
    assert(cs.take(q + 1).skip(q) =~= seq![cs[q]]);
    assert(seq![cs[q]].drop_first() =~= Seq::<usize>::empty());
    assert(preorder_list(s, seq![cs[q]], fuel) == preorder(s, cs[q], fuel) + preorder_list(
        s,
        seq![cs[q]].drop_first(),
        fuel,
    ));
    assert(preorder(s, cs[q], fuel) + preorder_list(s, Seq::<usize>::empty(), fuel) =~= preorder(
        s,
        cs[q],
        fuel,
    ));
}

/// Every lineage entry is a live position.
pub proof fn lemma_lineage_in_range(s: Seq<Link>, i: int, fuel: nat)
    requires
        rooted_within(s, i, fuel),
    ensures
        forall|k: int|
            0 <= k < lineage_within(s, i, fuel).len() ==> (#[trigger] lineage_within(s, i, fuel)[k])
                < s.len(),
    decreases fuel,
{
    match s[i].parent {
        None => {},
        Some(p) => {
            lemma_lineage_in_range(s, p as int, (fuel - 1) as nat);
            let tail = lineage_within(s, p as int, (fuel - 1) as nat);
            assert(lineage_within(s, i, fuel) == seq![p] + tail);
            assert forall|k: int| 0 <= k < lineage_within(s, i, fuel).len() implies (
            #[trigger] lineage_within(s, i, fuel)[k]) < s.len() by {
                if k == 0 {
                    assert(rooted_within(s, p as int, (fuel - 1) as nat));
                    assert(p < s.len());
                    assert(lineage_within(s, i, fuel)[k] == p);
                } else {
                    assert(lineage_within(s, i, fuel)[k] == tail[k - 1]);
                    assert(tail[k - 1] < s.len());
                }
            }
        },
    }
}

} // verus!
