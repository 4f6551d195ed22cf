//! Construction of a whole tree from a nested associative input: a
//! mapping of labels to labels, nested two to six levels deep, supplied
//! wholesale instead of through the incremental interface.
//!
//! The first top-level key becomes the root; every further top-level
//! key is built as an independent single-rooted subtree and then
//! spliced onto the root with [`ArenaTree::merge`] at position 0, so
//! that the same index-remapping logic serves incremental and bulk
//! construction alike. A key of the innermost level carries its leaf
//! value as the display name of the key's node; an empty mapping at any
//! depth yields an empty tree.

use vstd::prelude::*;

use crate::obj_desc::Description;
use crate::obj::ObjectView;
use crate::tree::{leaf_obj, merged, with_child_obj, ArenaTree};

verus! {

/// How many nodes an innermost mapping contributes: one per entry.
pub open spec fn count_depth1(m: Seq<(String, String)>) -> nat {
    m.len()
}

/// How many nodes a mapping nested 2 levels deep contributes: one per
/// key, at every level.
pub open spec fn count_depth2(m: Seq<(String, Vec<(String, String)>)>) -> nat
    decreases m.len(),
{
    if m.len() == 0 {
        0
    } else {
        1 + count_depth1(m[0].1@) + count_depth2(m.drop_first())
    }
}

/// How many nodes a mapping nested 3 levels deep contributes: one per
/// key, at every level.
pub open spec fn count_depth3(m: Seq<(String, Vec<(String, Vec<(String, String)>)>)>) -> nat
    decreases m.len(),
{
    if m.len() == 0 {
        0
    } else {
        1 + count_depth2(m[0].1@) + count_depth3(m.drop_first())
    }
}

/// How many nodes a mapping nested 4 levels deep contributes: one per
/// key, at every level.
pub open spec fn count_depth4(m: Seq<(String, Vec<(String, Vec<(String, Vec<(String, String)>)>)>)>) -> nat
    decreases m.len(),
{
    if m.len() == 0 {
        0
    } else {
        1 + count_depth3(m[0].1@) + count_depth4(m.drop_first())
    }
}

/// How many nodes a mapping nested 5 levels deep contributes: one per
/// key, at every level.
pub open spec fn count_depth5(m: Seq<(String, Vec<(String, Vec<(String, Vec<(String, Vec<(String, String)>)>)>)>)>) -> nat
    decreases m.len(),
{
    if m.len() == 0 {
        0
    } else {
        1 + count_depth4(m[0].1@) + count_depth5(m.drop_first())
    }
}

/// How many nodes a mapping nested 6 levels deep contributes: one per
/// key, at every level.
pub open spec fn count_depth6(m: Seq<(String, Vec<(String, Vec<(String, Vec<(String, Vec<(String, Vec<(String, String)>)>)>)>)>)>) -> nat
    decreases m.len(),
{
    if m.len() == 0 {
        0
    } else {
        1 + count_depth5(m[0].1@) + count_depth6(m.drop_first())
    }
}

/// The node count of a mapping splits at any point.
proof fn lemma_count2_split(m: Seq<(String, Vec<(String, String)>)>, q: int)
    requires
        0 <= q <= m.len(),
    ensures
        count_depth2(m) == count_depth2(m.take(q)) + count_depth2(m.skip(q)),
    decreases q,
{
    if q == 0 {
        assert(m.take(0) =~= Seq::<(String, Vec<(String, String)>)>::empty());
        assert(m.skip(0) =~= m);
        assert(count_depth2(m.take(0)) == 0);
    } else {
        lemma_count2_split(m.drop_first(), q - 1);
        assert(m.take(q).drop_first() =~= m.drop_first().take(q - 1));
        assert(m.take(q).len() > 0);
        assert(m.take(q)[0] == m[0]);
        assert(m.skip(q) =~= m.drop_first().skip(q - 1));
        assert(count_depth2(m.take(q)) == 1 + count_depth1(m[0].1@) + count_depth2(
            m.drop_first().take(q - 1),
        ));
    }
}

/// The node count of a mapping splits at any point.
proof fn lemma_count3_split(m: Seq<(String, Vec<(String, Vec<(String, String)>)>)>, q: int)
    requires
        0 <= q <= m.len(),
    ensures
        count_depth3(m) == count_depth3(m.take(q)) + count_depth3(m.skip(q)),
    decreases q,
{
    if q == 0 {
        assert(m.take(0) =~= Seq::<(String, Vec<(String, Vec<(String, String)>)>)>::empty());
        assert(m.skip(0) =~= m);
        assert(count_depth3(m.take(0)) == 0);
    } else {
        lemma_count3_split(m.drop_first(), q - 1);
        assert(m.take(q).drop_first() =~= m.drop_first().take(q - 1));
        assert(m.take(q).len() > 0);
        assert(m.take(q)[0] == m[0]);
        assert(m.skip(q) =~= m.drop_first().skip(q - 1));
        assert(count_depth3(m.take(q)) == 1 + count_depth2(m[0].1@) + count_depth3(
            m.drop_first().take(q - 1),
        ));
    }
}

/// The node count of a mapping splits at any point.
proof fn lemma_count4_split(m: Seq<(String, Vec<(String, Vec<(String, Vec<(String, String)>)>)>)>, q: int)
    requires
        0 <= q <= m.len(),
    ensures
        count_depth4(m) == count_depth4(m.take(q)) + count_depth4(m.skip(q)),
    decreases q,
{
    if q == 0 {
        assert(m.take(0) =~= Seq::<(String, Vec<(String, Vec<(String, Vec<(String, String)>)>)>)>::empty());
        assert(m.skip(0) =~= m);
        assert(count_depth4(m.take(0)) == 0);
    } else {
        lemma_count4_split(m.drop_first(), q - 1);
        assert(m.take(q).drop_first() =~= m.drop_first().take(q - 1));
        assert(m.take(q).len() > 0);
        assert(m.take(q)[0] == m[0]);
        assert(m.skip(q) =~= m.drop_first().skip(q - 1));
        assert(count_depth4(m.take(q)) == 1 + count_depth3(m[0].1@) + count_depth4(
            m.drop_first().take(q - 1),
        ));
    }
}

/// The node count of a mapping splits at any point.
proof fn lemma_count5_split(m: Seq<(String, Vec<(String, Vec<(String, Vec<(String, Vec<(String, String)>)>)>)>)>, q: int)
    requires
        0 <= q <= m.len(),
    ensures
        count_depth5(m) == count_depth5(m.take(q)) + count_depth5(m.skip(q)),
    decreases q,
{
    if q == 0 {
        assert(m.take(0) =~= Seq::<(String, Vec<(String, Vec<(String, Vec<(String, Vec<(String, String)>)>)>)>)>::empty());
        assert(m.skip(0) =~= m);
        assert(count_depth5(m.take(0)) == 0);
    } else {
        lemma_count5_split(m.drop_first(), q - 1);
        assert(m.take(q).drop_first() =~= m.drop_first().take(q - 1));
        assert(m.take(q).len() > 0);
        assert(m.take(q)[0] == m[0]);
        assert(m.skip(q) =~= m.drop_first().skip(q - 1));
        assert(count_depth5(m.take(q)) == 1 + count_depth4(m[0].1@) + count_depth5(
            m.drop_first().take(q - 1),
        ));
    }
}

/// The node count of a mapping splits at any point.
proof fn lemma_count6_split(m: Seq<(String, Vec<(String, Vec<(String, Vec<(String, Vec<(String, Vec<(String, String)>)>)>)>)>)>, q: int)
    requires
        0 <= q <= m.len(),
    ensures
        count_depth6(m) == count_depth6(m.take(q)) + count_depth6(m.skip(q)),
    decreases q,
{
    if q == 0 {
        assert(m.take(0) =~= Seq::<(String, Vec<(String, Vec<(String, Vec<(String, Vec<(String, Vec<(String, String)>)>)>)>)>)>::empty());
        assert(m.skip(0) =~= m);
        assert(count_depth6(m.take(0)) == 0);
    } else {
        lemma_count6_split(m.drop_first(), q - 1);
        assert(m.take(q).drop_first() =~= m.drop_first().take(q - 1));
        assert(m.take(q).len() > 0);
        assert(m.take(q)[0] == m[0]);
        assert(m.skip(q) =~= m.drop_first().skip(q - 1));
        assert(count_depth6(m.take(q)) == 1 + count_depth5(m[0].1@) + count_depth6(
            m.drop_first().take(q - 1),
        ));
    }
}


/// The spec-level image of one innermost entry: a single node carrying
/// the key, with the leaf value as its display name.
pub open spec fn stree1(key: Seq<char>, leaf: Seq<char>) -> Seq<ObjectView> {
    seq![leaf_obj(key, Some(leaf), 0, None)]
}

/// The spec-level image of the subtree for one key 2 levels deep: the
/// key's node, then each entry's image merged under it, in order.
pub open spec fn stree2_upto(key: Seq<char>, m: Seq<(String, String)>, q: int) -> Seq<ObjectView>
    decreases q,
{
    if q <= 0 {
        seq![leaf_obj(key, None, 0, None)]
    } else {
        merged(stree2_upto(key, m, q - 1), stree1(m[q - 1].0@, m[q - 1].1@), 0)
    }
}

pub open spec fn stree2(key: Seq<char>, m: Seq<(String, String)>) -> Seq<ObjectView> {
    stree2_upto(key, m, m.len() as int)
}

/// The spec-level image of the subtree for one key 3 levels deep: the
/// key's node, then each entry's image merged under it, in order.
pub open spec fn stree3_upto(key: Seq<char>, m: Seq<(String, Vec<(String, String)>)>, q: int) -> Seq<ObjectView>
    decreases q,
{
    if q <= 0 {
        seq![leaf_obj(key, None, 0, None)]
    } else {
        merged(stree3_upto(key, m, q - 1), stree2(m[q - 1].0@, m[q - 1].1@), 0)
    }
}

pub open spec fn stree3(key: Seq<char>, m: Seq<(String, Vec<(String, String)>)>) -> Seq<ObjectView> {
    stree3_upto(key, m, m.len() as int)
}

/// The spec-level image of the subtree for one key 4 levels deep: the
/// key's node, then each entry's image merged under it, in order.
pub open spec fn stree4_upto(key: Seq<char>, m: Seq<(String, Vec<(String, Vec<(String, String)>)>)>, q: int) -> Seq<ObjectView>
    decreases q,
{
    if q <= 0 {
        seq![leaf_obj(key, None, 0, None)]
    } else {
        merged(stree4_upto(key, m, q - 1), stree3(m[q - 1].0@, m[q - 1].1@), 0)
    }
}

pub open spec fn stree4(key: Seq<char>, m: Seq<(String, Vec<(String, Vec<(String, String)>)>)>) -> Seq<ObjectView> {
    stree4_upto(key, m, m.len() as int)
}

/// The spec-level image of the subtree for one key 5 levels deep: the
/// key's node, then each entry's image merged under it, in order.
pub open spec fn stree5_upto(key: Seq<char>, m: Seq<(String, Vec<(String, Vec<(String, Vec<(String, String)>)>)>)>, q: int) -> Seq<ObjectView>
    decreases q,
{
    if q <= 0 {
        seq![leaf_obj(key, None, 0, None)]
    } else {
        merged(stree5_upto(key, m, q - 1), stree4(m[q - 1].0@, m[q - 1].1@), 0)
    }
}

pub open spec fn stree5(key: Seq<char>, m: Seq<(String, Vec<(String, Vec<(String, Vec<(String, String)>)>)>)>) -> Seq<ObjectView> {
    stree5_upto(key, m, m.len() as int)
}

/// The spec-level image of the subtree for one key 6 levels deep: the
/// key's node, then each entry's image merged under it, in order.
pub open spec fn stree6_upto(key: Seq<char>, m: Seq<(String, Vec<(String, Vec<(String, Vec<(String, Vec<(String, String)>)>)>)>)>, q: int) -> Seq<ObjectView>
    decreases q,
{
    if q <= 0 {
        seq![leaf_obj(key, None, 0, None)]
    } else {
        merged(stree6_upto(key, m, q - 1), stree5(m[q - 1].0@, m[q - 1].1@), 0)
    }
}

pub open spec fn stree6(key: Seq<char>, m: Seq<(String, Vec<(String, Vec<(String, Vec<(String, Vec<(String, String)>)>)>)>)>) -> Seq<ObjectView> {
    stree6_upto(key, m, m.len() as int)
}

/// The spec-level image of a whole depth-2 mapping: the first key's
/// subtree, with every further key's subtree merged onto its root.
pub open spec fn nested2_upto(m: Seq<(String, Vec<(String, String)>)>, q: int) -> Seq<ObjectView>
    decreases q,
{
    if q <= 1 {
        stree2(m[0].0@, m[0].1@)
    } else {
        merged(nested2_upto(m, q - 1), stree2(m[q - 1].0@, m[q - 1].1@), 0)
    }
}

pub open spec fn built_depth2(m: Seq<(String, Vec<(String, String)>)>) -> Seq<ObjectView> {
    if m.len() == 0 {
        Seq::empty()
    } else {
        nested2_upto(m, m.len() as int)
    }
}

/// The spec-level image of a whole depth-3 mapping: the first key's
/// subtree, with every further key's subtree merged onto its root.
pub open spec fn nested3_upto(m: Seq<(String, Vec<(String, Vec<(String, String)>)>)>, q: int) -> Seq<ObjectView>
    decreases q,
{
    if q <= 1 {
        stree3(m[0].0@, m[0].1@)
    } else {
        merged(nested3_upto(m, q - 1), stree3(m[q - 1].0@, m[q - 1].1@), 0)
    }
}

pub open spec fn built_depth3(m: Seq<(String, Vec<(String, Vec<(String, String)>)>)>) -> Seq<ObjectView> {
    if m.len() == 0 {
        Seq::empty()
    } else {
        nested3_upto(m, m.len() as int)
    }
}

/// The spec-level image of a whole depth-4 mapping: the first key's
/// subtree, with every further key's subtree merged onto its root.
pub open spec fn nested4_upto(m: Seq<(String, Vec<(String, Vec<(String, Vec<(String, String)>)>)>)>, q: int) -> Seq<ObjectView>
    decreases q,
{
    if q <= 1 {
        stree4(m[0].0@, m[0].1@)
    } else {
        merged(nested4_upto(m, q - 1), stree4(m[q - 1].0@, m[q - 1].1@), 0)
    }
}

pub open spec fn built_depth4(m: Seq<(String, Vec<(String, Vec<(String, Vec<(String, String)>)>)>)>) -> Seq<ObjectView> {
    if m.len() == 0 {
        Seq::empty()
    } else {
        nested4_upto(m, m.len() as int)
    }
}

/// The spec-level image of a whole depth-5 mapping: the first key's
/// subtree, with every further key's subtree merged onto its root.
pub open spec fn nested5_upto(m: Seq<(String, Vec<(String, Vec<(String, Vec<(String, Vec<(String, String)>)>)>)>)>, q: int) -> Seq<ObjectView>
    decreases q,
{
    if q <= 1 {
        stree5(m[0].0@, m[0].1@)
    } else {
        merged(nested5_upto(m, q - 1), stree5(m[q - 1].0@, m[q - 1].1@), 0)
    }
}

pub open spec fn built_depth5(m: Seq<(String, Vec<(String, Vec<(String, Vec<(String, Vec<(String, String)>)>)>)>)>) -> Seq<ObjectView> {
    if m.len() == 0 {
        Seq::empty()
    } else {
        nested5_upto(m, m.len() as int)
    }
}

/// The spec-level image of a whole depth-6 mapping: the first key's
/// subtree, with every further key's subtree merged onto its root.
pub open spec fn nested6_upto(m: Seq<(String, Vec<(String, Vec<(String, Vec<(String, Vec<(String, Vec<(String, String)>)>)>)>)>)>, q: int) -> Seq<ObjectView>
    decreases q,
{
    if q <= 1 {
        stree6(m[0].0@, m[0].1@)
    } else {
        merged(nested6_upto(m, q - 1), stree6(m[q - 1].0@, m[q - 1].1@), 0)
    }
}

pub open spec fn built_depth6(m: Seq<(String, Vec<(String, Vec<(String, Vec<(String, Vec<(String, Vec<(String, String)>)>)>)>)>)>) -> Seq<ObjectView> {
    if m.len() == 0 {
        Seq::empty()
    } else {
        nested6_upto(m, m.len() as int)
    }
}

/// A one-node tree: the innermost key as root, its leaf value as the
/// root's display name.
fn single_tree1(key: &str, leaf: &str) -> (r: ArenaTree)
    ensures
        r.wf(),
        r@ == stree1(key@, leaf@),
        r@.len() == 1,
        r@[0].name == key@,
        r@[0].parent is None,
        r.spec_curr() == Some(0usize),
{
    let mut t = ArenaTree::new(None);
    t.seed_root(Description::with_display(key, leaf));
    proof {
        assert(t@ =~= stree1(key@, leaf@));
    }
    t
}

/// An independent single-rooted tree for one key nested 2 levels deep:
/// the key becomes the root, each entry of its value the next level
/// down.
fn single_tree2(key: &str, m: &Vec<(String, String)>) -> (r: ArenaTree)
    requires
        1 + count_depth1(m@) <= usize::MAX,
    ensures
        r.wf(),
        r@ == stree2(key@, m@),
        r@.len() == 1 + count_depth1(m@),
        r@[0].name == key@,
        r@[0].parent is None,
        r.spec_curr() == Some(0usize),
{
    let mut t = ArenaTree::new(None);
    t.seed_root(Description::from_str(key));
    let n = m.len();
    proof {
        assert(t@ =~= seq![leaf_obj(key@, None, 0, None)]);
        assert(m@.take(0) =~= Seq::<(String, String)>::empty());
        assert(count_depth1(m@.take(0)) == 0);
    }
    let mut q: usize = 0;
    while q < n
        invariant
            t.wf(),
            n == m@.len(),
            q <= n,
            1 + count_depth1(m@) <= usize::MAX,
            t@ == stree2_upto(key@, m@, q as int),
            t@.len() == 1 + count_depth1(m@.take(q as int)),
            t@.len() > 0,
            t@[0].name == key@,
            t@[0].parent is None,
            t.spec_curr() == Some(0usize),
        decreases n - q,
    {
        let entry = &m[q];
            proof {
            assert(m@.skip(q as int).len() > 0);
            }
        let sub = single_tree1(entry.0.as_str(), entry.1.as_str());
        let ghost pre = t@;
        let res = t.merge(sub, 0);
        proof {
            assert(res is Ok);
            assert(t@ == merged(pre, sub@, 0));
            assert(t@[0] == with_child_obj(pre[0], pre.len() as usize));
            assert(sub@ == stree1(m@[q as int].0@, m@[q as int].1@));
            assert(t@ == stree2_upto(key@, m@, q + 1));

            assert(count_depth1(m@.take(q + 1)) == q + 1);
        }
        q = q + 1;
    }
    proof {
        assert(m@.take(n as int) =~= m@);
        assert(t@ == stree2(key@, m@));

    }
    t
}

/// An independent single-rooted tree for one key nested 3 levels deep:
/// the key becomes the root, each entry of its value the next level
/// down.
fn single_tree3(key: &str, m: &Vec<(String, Vec<(String, String)>)>) -> (r: ArenaTree)
    requires
        1 + count_depth2(m@) <= usize::MAX,
    ensures
        r.wf(),
        r@ == stree3(key@, m@),
        r@.len() == 1 + count_depth2(m@),
        r@[0].name == key@,
        r@[0].parent is None,
        r.spec_curr() == Some(0usize),
{
    let mut t = ArenaTree::new(None);
    t.seed_root(Description::from_str(key));
    let n = m.len();
    proof {
        assert(t@ =~= seq![leaf_obj(key@, None, 0, None)]);
        assert(m@.take(0) =~= Seq::<(String, Vec<(String, String)>)>::empty());
        assert(count_depth2(m@.take(0)) == 0);
    }
    let mut q: usize = 0;
    while q < n
        invariant
            t.wf(),
            n == m@.len(),
            q <= n,
            1 + count_depth2(m@) <= usize::MAX,
            t@ == stree3_upto(key@, m@, q as int),
            t@.len() == 1 + count_depth2(m@.take(q as int)),
            t@.len() > 0,
            t@[0].name == key@,
            t@[0].parent is None,
            t.spec_curr() == Some(0usize),
        decreases n - q,
    {
        let entry = &m[q];
        proof {
            lemma_count2_split(m@, q as int);
            assert(m@.skip(q as int).len() > 0);
            assert(m@.skip(q as int)[0] == m@[q as int]);
            assert(count_depth2(m@.skip(q as int)) == 1 + count_depth1(
                m@[q as int].1@,
            ) + count_depth2(m@.skip(q as int).drop_first()));
        }
        let sub = single_tree2(entry.0.as_str(), &entry.1);
        let ghost pre = t@;
        let res = t.merge(sub, 0);
        proof {
            assert(res is Ok);
            assert(t@ == merged(pre, sub@, 0));
            assert(t@[0] == with_child_obj(pre[0], pre.len() as usize));
            assert(sub@ == stree2(m@[q as int].0@, m@[q as int].1@));
            assert(t@ == stree3_upto(key@, m@, q + 1));

            lemma_count2_split(m@.take(q + 1), q as int);
            assert(m@.take(q + 1).take(q as int) =~= m@.take(q as int));
            assert(m@.take(q + 1).skip(q as int) =~= seq![m@[q as int]]);
            assert(seq![m@[q as int]].drop_first() =~= Seq::<(String, Vec<(String, String)>)>::empty());
            assert(count_depth2(Seq::<(String, Vec<(String, String)>)>::empty()) == 0);
            assert(count_depth2(seq![m@[q as int]]) == 1 + count_depth1(
                m@[q as int].1@,
            ));
        }
        q = q + 1;
    }
    proof {
        assert(m@.take(n as int) =~= m@);
        assert(t@ == stree3(key@, m@));

    }
    t
}

/// An independent single-rooted tree for one key nested 4 levels deep:
/// the key becomes the root, each entry of its value the next level
/// down.
fn single_tree4(key: &str, m: &Vec<(String, Vec<(String, Vec<(String, String)>)>)>) -> (r: ArenaTree)
    requires
        1 + count_depth3(m@) <= usize::MAX,
    ensures
        r.wf(),
        r@ == stree4(key@, m@),
        r@.len() == 1 + count_depth3(m@),
        r@[0].name == key@,
        r@[0].parent is None,
        r.spec_curr() == Some(0usize),
{
    let mut t = ArenaTree::new(None);
    t.seed_root(Description::from_str(key));
    let n = m.len();
    proof {
        assert(t@ =~= seq![leaf_obj(key@, None, 0, None)]);
        assert(m@.take(0) =~= Seq::<(String, Vec<(String, Vec<(String, String)>)>)>::empty());
        assert(count_depth3(m@.take(0)) == 0);
    }
    let mut q: usize = 0;
    while q < n
        invariant
            t.wf(),
            n == m@.len(),
            q <= n,
            1 + count_depth3(m@) <= usize::MAX,
            t@ == stree4_upto(key@, m@, q as int),
            t@.len() == 1 + count_depth3(m@.take(q as int)),
            t@.len() > 0,
            t@[0].name == key@,
            t@[0].parent is None,
            t.spec_curr() == Some(0usize),
        decreases n - q,
    {
        let entry = &m[q];
        proof {
            lemma_count3_split(m@, q as int);
            assert(m@.skip(q as int).len() > 0);
            assert(m@.skip(q as int)[0] == m@[q as int]);
            assert(count_depth3(m@.skip(q as int)) == 1 + count_depth2(
                m@[q as int].1@,
            ) + count_depth3(m@.skip(q as int).drop_first()));
        }
        let sub = single_tree3(entry.0.as_str(), &entry.1);
        let ghost pre = t@;
        let res = t.merge(sub, 0);
        proof {
            assert(res is Ok);
            assert(t@ == merged(pre, sub@, 0));
            assert(t@[0] == with_child_obj(pre[0], pre.len() as usize));
            assert(sub@ == stree3(m@[q as int].0@, m@[q as int].1@));
            assert(t@ == stree4_upto(key@, m@, q + 1));

            lemma_count3_split(m@.take(q + 1), q as int);
            assert(m@.take(q + 1).take(q as int) =~= m@.take(q as int));
            assert(m@.take(q + 1).skip(q as int) =~= seq![m@[q as int]]);
            assert(seq![m@[q as int]].drop_first() =~= Seq::<(String, Vec<(String, Vec<(String, String)>)>)>::empty());
            assert(count_depth3(Seq::<(String, Vec<(String, Vec<(String, String)>)>)>::empty()) == 0);
            assert(count_depth3(seq![m@[q as int]]) == 1 + count_depth2(
                m@[q as int].1@,
            ));
        }
        q = q + 1;
    }
    proof {
        assert(m@.take(n as int) =~= m@);
        assert(t@ == stree4(key@, m@));

    }
    t
}

/// An independent single-rooted tree for one key nested 5 levels deep:
/// the key becomes the root, each entry of its value the next level
/// down.
fn single_tree5(key: &str, m: &Vec<(String, Vec<(String, Vec<(String, Vec<(String, String)>)>)>)>) -> (r: ArenaTree)
    requires
        1 + count_depth4(m@) <= usize::MAX,
    ensures
        r.wf(),
        r@ == stree5(key@, m@),
        r@.len() == 1 + count_depth4(m@),
        r@[0].name == key@,
        r@[0].parent is None,
        r.spec_curr() == Some(0usize),
{
    let mut t = ArenaTree::new(None);
    t.seed_root(Description::from_str(key));
    let n = m.len();
    proof {
        assert(t@ =~= seq![leaf_obj(key@, None, 0, None)]);
        assert(m@.take(0) =~= Seq::<(String, Vec<(String, Vec<(String, Vec<(String, String)>)>)>)>::empty());
        assert(count_depth4(m@.take(0)) == 0);
    }
    let mut q: usize = 0;
    while q < n
        invariant
            t.wf(),
            n == m@.len(),
            q <= n,
            1 + count_depth4(m@) <= usize::MAX,
            t@ == stree5_upto(key@, m@, q as int),
            t@.len() == 1 + count_depth4(m@.take(q as int)),
            t@.len() > 0,
            t@[0].name == key@,
            t@[0].parent is None,
            t.spec_curr() == Some(0usize),
        decreases n - q,
    {
        let entry = &m[q];
        proof {
            lemma_count4_split(m@, q as int);
            assert(m@.skip(q as int).len() > 0);
            assert(m@.skip(q as int)[0] == m@[q as int]);
            assert(count_depth4(m@.skip(q as int)) == 1 + count_depth3(
                m@[q as int].1@,
            ) + count_depth4(m@.skip(q as int).drop_first()));
        }
        let sub = single_tree4(entry.0.as_str(), &entry.1);
        let ghost pre = t@;
        let res = t.merge(sub, 0);
        proof {
            assert(res is Ok);
            assert(t@ == merged(pre, sub@, 0));
            assert(t@[0] == with_child_obj(pre[0], pre.len() as usize));
            assert(sub@ == stree4(m@[q as int].0@, m@[q as int].1@));
            assert(t@ == stree5_upto(key@, m@, q + 1));

            lemma_count4_split(m@.take(q + 1), q as int);
            assert(m@.take(q + 1).take(q as int) =~= m@.take(q as int));
            assert(m@.take(q + 1).skip(q as int) =~= seq![m@[q as int]]);
            assert(seq![m@[q as int]].drop_first() =~= Seq::<(String, Vec<(String, Vec<(String, Vec<(String, String)>)>)>)>::empty());
            assert(count_depth4(Seq::<(String, Vec<(String, Vec<(String, Vec<(String, String)>)>)>)>::empty()) == 0);
            assert(count_depth4(seq![m@[q as int]]) == 1 + count_depth3(
                m@[q as int].1@,
            ));
        }
        q = q + 1;
    }
    proof {
        assert(m@.take(n as int) =~= m@);
        assert(t@ == stree5(key@, m@));

    }
    t
}

/// An independent single-rooted tree for one key nested 6 levels deep:
/// the key becomes the root, each entry of its value the next level
/// down.
fn single_tree6(key: &str, m: &Vec<(String, Vec<(String, Vec<(String, Vec<(String, Vec<(String, String)>)>)>)>)>) -> (r: ArenaTree)
    requires
        1 + count_depth5(m@) <= usize::MAX,
    ensures
        r.wf(),
        r@ == stree6(key@, m@),
        r@.len() == 1 + count_depth5(m@),
        r@[0].name == key@,
        r@[0].parent is None,
        r.spec_curr() == Some(0usize),
{
    let mut t = ArenaTree::new(None);
    t.seed_root(Description::from_str(key));
    let n = m.len();
    proof {
        assert(t@ =~= seq![leaf_obj(key@, None, 0, None)]);
        assert(m@.take(0) =~= Seq::<(String, Vec<(String, Vec<(String, Vec<(String, Vec<(String, String)>)>)>)>)>::empty());
        assert(count_depth5(m@.take(0)) == 0);
    }
    let mut q: usize = 0;
    while q < n
        invariant
            t.wf(),
            n == m@.len(),
            q <= n,
            1 + count_depth5(m@) <= usize::MAX,
            t@ == stree6_upto(key@, m@, q as int),
            t@.len() == 1 + count_depth5(m@.take(q as int)),
            t@.len() > 0,
            t@[0].name == key@,
            t@[0].parent is None,
            t.spec_curr() == Some(0usize),
        decreases n - q,
    {
        let entry = &m[q];
        proof {
            lemma_count5_split(m@, q as int);
            assert(m@.skip(q as int).len() > 0);
            assert(m@.skip(q as int)[0] == m@[q as int]);
            assert(count_depth5(m@.skip(q as int)) == 1 + count_depth4(
                m@[q as int].1@,
            ) + count_depth5(m@.skip(q as int).drop_first()));
        }
        let sub = single_tree5(entry.0.as_str(), &entry.1);
        let ghost pre = t@;
        let res = t.merge(sub, 0);
        proof {
            assert(res is Ok);
            assert(t@ == merged(pre, sub@, 0));
            assert(t@[0] == with_child_obj(pre[0], pre.len() as usize));
            assert(sub@ == stree5(m@[q as int].0@, m@[q as int].1@));
            assert(t@ == stree6_upto(key@, m@, q + 1));

            lemma_count5_split(m@.take(q + 1), q as int);
            assert(m@.take(q + 1).take(q as int) =~= m@.take(q as int));
            assert(m@.take(q + 1).skip(q as int) =~= seq![m@[q as int]]);
            assert(seq![m@[q as int]].drop_first() =~= Seq::<(String, Vec<(String, Vec<(String, Vec<(String, Vec<(String, String)>)>)>)>)>::empty());
            assert(count_depth5(Seq::<(String, Vec<(String, Vec<(String, Vec<(String, Vec<(String, String)>)>)>)>)>::empty()) == 0);
            assert(count_depth5(seq![m@[q as int]]) == 1 + count_depth4(
                m@[q as int].1@,
            ));
        }
        q = q + 1;
    }
    proof {
        assert(m@.take(n as int) =~= m@);
        assert(t@ == stree6(key@, m@));

    }
    t
}

/// Builds a whole tree from a nested mapping 2 levels deep. The first
/// top-level key becomes the root; every further top-level key is built
/// as an independent subtree and merged onto the root, so the result is
/// a single connected tree even when the input is logically a forest.
/// An empty input yields an empty tree.
pub fn from_nested_depth2(m: &Vec<(String, Vec<(String, String)>)>) -> (r: ArenaTree)
    requires
        count_depth2(m@) <= usize::MAX,
    ensures
        r.wf(),
        r@ == built_depth2(m@),
        r@.len() == count_depth2(m@),
        m@.len() == 0 ==> r@.len() == 0,
        m@.len() > 0 ==> r@[0].name == m@[0].0@ && r@[0].parent is None,
{
    if m.is_empty() {
        let t = ArenaTree::new(None);
        proof {
            assert(count_depth2(m@) == 0);
            assert(t@ =~= built_depth2(m@));
        }
        return t;
    }
    let n = m.len();
    let first = &m[0];
    proof {
        lemma_count2_split(m@, 1);
        assert(m@.take(1) =~= seq![m@[0]]);
        assert(seq![m@[0]].drop_first() =~= Seq::<(String, Vec<(String, String)>)>::empty());
        assert(count_depth2(Seq::<(String, Vec<(String, String)>)>::empty()) == 0);
        assert(count_depth2(seq![m@[0]]) == 1 + count_depth1(m@[0].1@));
    }
    let mut t = single_tree2(first.0.as_str(), &first.1);
    proof {
        assert(t@ == nested2_upto(m@, 1));
    }
    let mut q: usize = 1;
    while q < n
        invariant
            t.wf(),
            n == m@.len(),
            1 <= q <= n,
            count_depth2(m@) <= usize::MAX,
            t@ == nested2_upto(m@, q as int),
            t@.len() == count_depth2(m@.take(q as int)),
            t@.len() > 0,
            t@[0].name == m@[0].0@,
            t@[0].parent is None,
        decreases n - q,
    {
        let entry = &m[q];
        proof {
            lemma_count2_split(m@, q as int);
            assert(m@.skip(q as int).len() > 0);
            assert(m@.skip(q as int)[0] == m@[q as int]);
            assert(count_depth2(m@.skip(q as int)) == 1 + count_depth1(m@[q as int].1@) + count_depth2(
                m@.skip(q as int).drop_first(),
            ));
        }
        let sub = single_tree2(entry.0.as_str(), &entry.1);
        let ghost pre = t@;
        let res = t.merge(sub, 0);
        proof {
            assert(res is Ok);
            assert(t@ == merged(pre, sub@, 0));
            assert(t@[0] == with_child_obj(pre[0], pre.len() as usize));
            assert(sub@ == stree2(m@[q as int].0@, m@[q as int].1@));
            assert(t@ == nested2_upto(m@, q + 1));

            lemma_count2_split(m@.take(q + 1), q as int);
            assert(m@.take(q + 1).take(q as int) =~= m@.take(q as int));
            assert(m@.take(q + 1).skip(q as int) =~= seq![m@[q as int]]);
            assert(seq![m@[q as int]].drop_first() =~= Seq::<(String, Vec<(String, String)>)>::empty());
            assert(count_depth2(Seq::<(String, Vec<(String, String)>)>::empty()) == 0);
            assert(count_depth2(seq![m@[q as int]]) == 1 + count_depth1(m@[q as int].1@));
        }
        q = q + 1;
    }
    proof {
        assert(m@.take(n as int) =~= m@);
        assert(t@ == built_depth2(m@));

    }
    t
}

/// Builds a whole tree from a nested mapping 3 levels deep. The first
/// top-level key becomes the root; every further top-level key is built
/// as an independent subtree and merged onto the root, so the result is
/// a single connected tree even when the input is logically a forest.
/// An empty input yields an empty tree.
pub fn from_nested_depth3(m: &Vec<(String, Vec<(String, Vec<(String, String)>)>)>) -> (r: ArenaTree)
    requires
        count_depth3(m@) <= usize::MAX,
    ensures
        r.wf(),
        r@ == built_depth3(m@),
        r@.len() == count_depth3(m@),
        m@.len() == 0 ==> r@.len() == 0,
        m@.len() > 0 ==> r@[0].name == m@[0].0@ && r@[0].parent is None,
{
    if m.is_empty() {
        let t = ArenaTree::new(None);
        proof {
            assert(count_depth3(m@) == 0);
            assert(t@ =~= built_depth3(m@));
        }
        return t;
    }
    let n = m.len();
    let first = &m[0];
    proof {
        lemma_count3_split(m@, 1);
        assert(m@.take(1) =~= seq![m@[0]]);
        assert(seq![m@[0]].drop_first() =~= Seq::<(String, Vec<(String, Vec<(String, String)>)>)>::empty());
        assert(count_depth3(Seq::<(String, Vec<(String, Vec<(String, String)>)>)>::empty()) == 0);
        assert(count_depth3(seq![m@[0]]) == 1 + count_depth2(m@[0].1@));
    }
    let mut t = single_tree3(first.0.as_str(), &first.1);
    proof {
        assert(t@ == nested3_upto(m@, 1));
    }
    let mut q: usize = 1;
    while q < n
        invariant
            t.wf(),
            n == m@.len(),
            1 <= q <= n,
            count_depth3(m@) <= usize::MAX,
            t@ == nested3_upto(m@, q as int),
            t@.len() == count_depth3(m@.take(q as int)),
            t@.len() > 0,
            t@[0].name == m@[0].0@,
            t@[0].parent is None,
        decreases n - q,
    {
        let entry = &m[q];
        proof {
            lemma_count3_split(m@, q as int);
            assert(m@.skip(q as int).len() > 0);
            assert(m@.skip(q as int)[0] == m@[q as int]);
            assert(count_depth3(m@.skip(q as int)) == 1 + count_depth2(m@[q as int].1@) + count_depth3(
                m@.skip(q as int).drop_first(),
            ));
        }
        let sub = single_tree3(entry.0.as_str(), &entry.1);
        let ghost pre = t@;
        let res = t.merge(sub, 0);
        proof {
            assert(res is Ok);
            assert(t@ == merged(pre, sub@, 0));
            assert(t@[0] == with_child_obj(pre[0], pre.len() as usize));
            assert(sub@ == stree3(m@[q as int].0@, m@[q as int].1@));
            assert(t@ == nested3_upto(m@, q + 1));

            lemma_count3_split(m@.take(q + 1), q as int);
            assert(m@.take(q + 1).take(q as int) =~= m@.take(q as int));
            assert(m@.take(q + 1).skip(q as int) =~= seq![m@[q as int]]);
            assert(seq![m@[q as int]].drop_first() =~= Seq::<(String, Vec<(String, Vec<(String, String)>)>)>::empty());
            assert(count_depth3(Seq::<(String, Vec<(String, Vec<(String, String)>)>)>::empty()) == 0);
            assert(count_depth3(seq![m@[q as int]]) == 1 + count_depth2(m@[q as int].1@));
        }
        q = q + 1;
    }
    proof {
        assert(m@.take(n as int) =~= m@);
        assert(t@ == built_depth3(m@));

    }
    t
}

/// Builds a whole tree from a nested mapping 4 levels deep. The first
/// top-level key becomes the root; every further top-level key is built
/// as an independent subtree and merged onto the root, so the result is
/// a single connected tree even when the input is logically a forest.
/// An empty input yields an empty tree.
pub fn from_nested_depth4(m: &Vec<(String, Vec<(String, Vec<(String, Vec<(String, String)>)>)>)>) -> (r: ArenaTree)
    requires
        count_depth4(m@) <= usize::MAX,
    ensures
        r.wf(),
        r@ == built_depth4(m@),
        r@.len() == count_depth4(m@),
        m@.len() == 0 ==> r@.len() == 0,
        m@.len() > 0 ==> r@[0].name == m@[0].0@ && r@[0].parent is None,
{
    if m.is_empty() {
        let t = ArenaTree::new(None);
        proof {
            assert(count_depth4(m@) == 0);
            assert(t@ =~= built_depth4(m@));
        }
        return t;
    }
    let n = m.len();
    let first = &m[0];
    proof {
        lemma_count4_split(m@, 1);
        assert(m@.take(1) =~= seq![m@[0]]);
        assert(seq![m@[0]].drop_first() =~= Seq::<(String, Vec<(String, Vec<(String, Vec<(String, String)>)>)>)>::empty());
        assert(count_depth4(Seq::<(String, Vec<(String, Vec<(String, Vec<(String, String)>)>)>)>::empty()) == 0);
        assert(count_depth4(seq![m@[0]]) == 1 + count_depth3(m@[0].1@));
    }
    let mut t = single_tree4(first.0.as_str(), &first.1);
    proof {
        assert(t@ == nested4_upto(m@, 1));
    }
    let mut q: usize = 1;
    while q < n
        invariant
            t.wf(),
            n == m@.len(),
            1 <= q <= n,
            count_depth4(m@) <= usize::MAX,
            t@ == nested4_upto(m@, q as int),
            t@.len() == count_depth4(m@.take(q as int)),
            t@.len() > 0,
            t@[0].name == m@[0].0@,
            t@[0].parent is None,
        decreases n - q,
    {
        let entry = &m[q];
        proof {
            lemma_count4_split(m@, q as int);
            assert(m@.skip(q as int).len() > 0);
            assert(m@.skip(q as int)[0] == m@[q as int]);
            assert(count_depth4(m@.skip(q as int)) == 1 + count_depth3(m@[q as int].1@) + count_depth4(
                m@.skip(q as int).drop_first(),
            ));
        }
        let sub = single_tree4(entry.0.as_str(), &entry.1);
        let ghost pre = t@;
        let res = t.merge(sub, 0);
        proof {
            assert(res is Ok);
            assert(t@ == merged(pre, sub@, 0));
            assert(t@[0] == with_child_obj(pre[0], pre.len() as usize));
            assert(sub@ == stree4(m@[q as int].0@, m@[q as int].1@));
            assert(t@ == nested4_upto(m@, q + 1));

            lemma_count4_split(m@.take(q + 1), q as int);
            assert(m@.take(q + 1).take(q as int) =~= m@.take(q as int));
            assert(m@.take(q + 1).skip(q as int) =~= seq![m@[q as int]]);
            assert(seq![m@[q as int]].drop_first() =~= Seq::<(String, Vec<(String, Vec<(String, Vec<(String, String)>)>)>)>::empty());
            assert(count_depth4(Seq::<(String, Vec<(String, Vec<(String, Vec<(String, String)>)>)>)>::empty()) == 0);
            assert(count_depth4(seq![m@[q as int]]) == 1 + count_depth3(m@[q as int].1@));
        }
        q = q + 1;
    }
    proof {
        assert(m@.take(n as int) =~= m@);
        assert(t@ == built_depth4(m@));

    }
    t
}

/// Builds a whole tree from a nested mapping 5 levels deep. The first
/// top-level key becomes the root; every further top-level key is built
/// as an independent subtree and merged onto the root, so the result is
/// a single connected tree even when the input is logically a forest.
/// An empty input yields an empty tree.
pub fn from_nested_depth5(m: &Vec<(String, Vec<(String, Vec<(String, Vec<(String, Vec<(String, String)>)>)>)>)>) -> (r: ArenaTree)
    requires
        count_depth5(m@) <= usize::MAX,
    ensures
        r.wf(),
        r@ == built_depth5(m@),
        r@.len() == count_depth5(m@),
        m@.len() == 0 ==> r@.len() == 0,
        m@.len() > 0 ==> r@[0].name == m@[0].0@ && r@[0].parent is None,
{
    if m.is_empty() {
        let t = ArenaTree::new(None);
        proof {
            assert(count_depth5(m@) == 0);
            assert(t@ =~= built_depth5(m@));
        }
        return t;
    }
    let n = m.len();
    let first = &m[0];
    proof {
        lemma_count5_split(m@, 1);
        assert(m@.take(1) =~= seq![m@[0]]);
        assert(seq![m@[0]].drop_first() =~= Seq::<(String, Vec<(String, Vec<(String, Vec<(String, Vec<(String, String)>)>)>)>)>::empty());
        assert(count_depth5(Seq::<(String, Vec<(String, Vec<(String, Vec<(String, Vec<(String, String)>)>)>)>)>::empty()) == 0);
        assert(count_depth5(seq![m@[0]]) == 1 + count_depth4(m@[0].1@));
    }
    let mut t = single_tree5(first.0.as_str(), &first.1);
    proof {
        assert(t@ == nested5_upto(m@, 1));
    }
    let mut q: usize = 1;
    while q < n
        invariant
            t.wf(),
            n == m@.len(),
            1 <= q <= n,
            count_depth5(m@) <= usize::MAX,
            t@ == nested5_upto(m@, q as int),
            t@.len() == count_depth5(m@.take(q as int)),
            t@.len() > 0,
            t@[0].name == m@[0].0@,
            t@[0].parent is None,
        decreases n - q,
    {
        let entry = &m[q];
        proof {
            lemma_count5_split(m@, q as int);
            assert(m@.skip(q as int).len() > 0);
            assert(m@.skip(q as int)[0] == m@[q as int]);
            assert(count_depth5(m@.skip(q as int)) == 1 + count_depth4(m@[q as int].1@) + count_depth5(
                m@.skip(q as int).drop_first(),
            ));
        }
        let sub = single_tree5(entry.0.as_str(), &entry.1);
        let ghost pre = t@;
        let res = t.merge(sub, 0);
        proof {
            assert(res is Ok);
            assert(t@ == merged(pre, sub@, 0));
            assert(t@[0] == with_child_obj(pre[0], pre.len() as usize));
            assert(sub@ == stree5(m@[q as int].0@, m@[q as int].1@));
            assert(t@ == nested5_upto(m@, q + 1));

            lemma_count5_split(m@.take(q + 1), q as int);
            assert(m@.take(q + 1).take(q as int) =~= m@.take(q as int));
            assert(m@.take(q + 1).skip(q as int) =~= seq![m@[q as int]]);
            assert(seq![m@[q as int]].drop_first() =~= Seq::<(String, Vec<(String, Vec<(String, Vec<(String, Vec<(String, String)>)>)>)>)>::empty());
            assert(count_depth5(Seq::<(String, Vec<(String, Vec<(String, Vec<(String, Vec<(String, String)>)>)>)>)>::empty()) == 0);
            assert(count_depth5(seq![m@[q as int]]) == 1 + count_depth4(m@[q as int].1@));
        }
        q = q + 1;
    }
    proof {
        assert(m@.take(n as int) =~= m@);
        assert(t@ == built_depth5(m@));

    }
    t
}

/// Builds a whole tree from a nested mapping 6 levels deep. The first
/// top-level key becomes the root; every further top-level key is built
/// as an independent subtree and merged onto the root, so the result is
/// a single connected tree even when the input is logically a forest.
/// An empty input yields an empty tree.
pub fn from_nested_depth6(m: &Vec<(String, Vec<(String, Vec<(String, Vec<(String, Vec<(String, Vec<(String, String)>)>)>)>)>)>) -> (r: ArenaTree)
    requires
        count_depth6(m@) <= usize::MAX,
    ensures
        r.wf(),
        r@ == built_depth6(m@),
        r@.len() == count_depth6(m@),
        m@.len() == 0 ==> r@.len() == 0,
        m@.len() > 0 ==> r@[0].name == m@[0].0@ && r@[0].parent is None,
{
    if m.is_empty() {
        let t = ArenaTree::new(None);
        proof {
            assert(count_depth6(m@) == 0);
            assert(t@ =~= built_depth6(m@));
        }
        return t;
    }
    let n = m.len();
    let first = &m[0];
    proof {
        lemma_count6_split(m@, 1);
        assert(m@.take(1) =~= seq![m@[0]]);
        assert(seq![m@[0]].drop_first() =~= Seq::<(String, Vec<(String, Vec<(String, Vec<(String, Vec<(String, Vec<(String, String)>)>)>)>)>)>::empty());
        assert(count_depth6(Seq::<(String, Vec<(String, Vec<(String, Vec<(String, Vec<(String, Vec<(String, String)>)>)>)>)>)>::empty()) == 0);
        assert(count_depth6(seq![m@[0]]) == 1 + count_depth5(m@[0].1@));
    }
    let mut t = single_tree6(first.0.as_str(), &first.1);
    proof {
        assert(t@ == nested6_upto(m@, 1));
    }
    let mut q: usize = 1;
    while q < n
        invariant
            t.wf(),
            n == m@.len(),
            1 <= q <= n,
            count_depth6(m@) <= usize::MAX,
            t@ == nested6_upto(m@, q as int),
            t@.len() == count_depth6(m@.take(q as int)),
            t@.len() > 0,
            t@[0].name == m@[0].0@,
            t@[0].parent is None,
        decreases n - q,
    {
        let entry = &m[q];
        proof {
            lemma_count6_split(m@, q as int);
            assert(m@.skip(q as int).len() > 0);
            assert(m@.skip(q as int)[0] == m@[q as int]);
            assert(count_depth6(m@.skip(q as int)) == 1 + count_depth5(m@[q as int].1@) + count_depth6(
                m@.skip(q as int).drop_first(),
            ));
        }
        let sub = single_tree6(entry.0.as_str(), &entry.1);
        let ghost pre = t@;
        let res = t.merge(sub, 0);
        proof {
            assert(res is Ok);
            assert(t@ == merged(pre, sub@, 0));
            assert(t@[0] == with_child_obj(pre[0], pre.len() as usize));
            assert(sub@ == stree6(m@[q as int].0@, m@[q as int].1@));
            assert(t@ == nested6_upto(m@, q + 1));

            lemma_count6_split(m@.take(q + 1), q as int);
            assert(m@.take(q + 1).take(q as int) =~= m@.take(q as int));
            assert(m@.take(q + 1).skip(q as int) =~= seq![m@[q as int]]);
            assert(seq![m@[q as int]].drop_first() =~= Seq::<(String, Vec<(String, Vec<(String, Vec<(String, Vec<(String, Vec<(String, String)>)>)>)>)>)>::empty());
            assert(count_depth6(Seq::<(String, Vec<(String, Vec<(String, Vec<(String, Vec<(String, Vec<(String, String)>)>)>)>)>)>::empty()) == 0);
            assert(count_depth6(seq![m@[q as int]]) == 1 + count_depth5(m@[q as int].1@));
        }
        q = q + 1;
    }
    proof {
        assert(m@.take(n as int) =~= m@);
        assert(t@ == built_depth6(m@));

    }
    t
}

} // verus!
