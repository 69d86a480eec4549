//! What follows from the relations of a tree: facts about the chain of
//! ancestors of an entity and about the sequence of entities below it.

use crate::entity::Entity;
use crate::seq_lemmas::lemma_concat_contains;
use crate::tree::Tree;
use vstd::prelude::*;

verus! {

/// The chain of ancestors of an entity of the tree starts at the entity,
/// ends at the root, holds entities of the tree only, steps from each member
/// to its parent, and grows older with each step.
pub proof fn lemma_ancestors(t: Tree, e: Entity)
    requires
        t.structure(),
        t.contains(e),
    ensures
        t.ancestors(e).len() >= 1,
        t.ancestors(e)[0] == e,
        t.ancestors(e).last() == Entity::root(),
        t.is_within(e, e),
        t.is_within(Entity::root(), e),
        forall|i: int| 0 <= i < t.ancestors(e).len() ==> t.contains(#[trigger] t.ancestors(e)[i]),
        forall|i: int|
            0 < i < t.ancestors(e).len() ==> t.rank(#[trigger] t.ancestors(e)[i]) < t.rank(e),
        forall|i: int|
            0 <= i < t.ancestors(e).len() - 1 ==> t.parent_of(#[trigger] t.ancestors(e)[i])
                == Some(t.ancestors(e)[i + 1]),
        forall|i: int, j: int|
            0 <= i < j < t.ancestors(e).len() ==> t.rank(t.ancestors(e)[j]) < t.rank(
                t.ancestors(e)[i],
            ),
    decreases t.rank(e),
{
    let anc = t.ancestors(e);
    if e == Entity::root() {
        assert(anc =~= seq![e]);
        assert(anc[0] == e);
    } else {
        let p = t.parent_of(e).unwrap();
        lemma_ancestors(t, p);
        let rest = t.ancestors(p);
        assert(anc == seq![e] + rest);
        assert(anc[0] == e);
        assert(anc.last() == rest.last());
        assert(anc[anc.len() - 1] == Entity::root());
        assert forall|i: int| 0 <= i < anc.len() implies t.contains(#[trigger] anc[i]) by {
            if i > 0 {
                assert(anc[i] == rest[i - 1]);
            }
        }
        assert forall|i: int| 0 < i < anc.len() implies t.rank(#[trigger] anc[i]) < t.rank(e) by {
            assert(anc[i] == rest[i - 1]);
        }
        assert forall|i: int| 0 <= i < anc.len() - 1 implies t.parent_of(#[trigger] anc[i])
            == Some(anc[i + 1]) by {
            if i > 0 {
                assert(anc[i] == rest[i - 1]);
                assert(anc[i + 1] == rest[i]);
            } else {
                assert(anc[1] == rest[0]);
            }
        }
        assert forall|i: int, j: int| 0 <= i < j < anc.len() implies t.rank(anc[j]) < t.rank(
            anc[i],
        ) by {
            assert(anc[j] == rest[j - 1]);
            if i > 0 {
                assert(anc[i] == rest[i - 1]);
            }
        }
    }
}

/// An entity other than the root lies within `a` exactly if it is `a` or its
/// parent lies within `a`.
pub proof fn lemma_within_parent(t: Tree, a: Entity, x: Entity)
    requires
        t.structure(),
        t.contains(x),
        x != Entity::root(),
    ensures
        t.is_within(a, x) <==> a == x || t.is_within(a, t.parent_of(x).unwrap()),
{
    let p = t.parent_of(x).unwrap();
    assert(t.ancestors(x) == seq![x] + t.ancestors(p));
    lemma_concat_contains(seq![x], t.ancestors(p), a);
    assert(seq![x].contains(a) <==> a == x) by {
        if a == x {
            assert(seq![x][0] == a);
        }
    }
}

/// Only the root lies above the root, and it lies above every entity.
pub proof fn lemma_within_root(t: Tree, a: Entity)
    requires
        t.structure(),
    ensures
        t.is_within(a, Entity::root()) <==> a == Entity::root(),
{
    let r = Entity::root();
    assert(t.ancestors(r) =~= seq![r]);
    if a == r {
        assert(seq![r][0] == a);
    }
}

/// Whatever contains an entity is in the tree, and is no younger than it.
pub proof fn lemma_within_contains(t: Tree, a: Entity, x: Entity)
    requires
        t.structure(),
        t.is_within(a, x),
    ensures
        t.contains(a),
        t.contains(x),
        t.rank(a) <= t.rank(x),
        a != x ==> t.rank(a) < t.rank(x),
{
    if !t.contains(x) {
        assert(t.ancestors(x) =~= Seq::<Entity>::empty());
    }
    lemma_ancestors(t, x);
    let i = choose|i: int| 0 <= i < t.ancestors(x).len() && t.ancestors(x)[i] == a;
    assert(t.contains(t.ancestors(x)[i]));
    if i > 0 {
        assert(t.rank(t.ancestors(x)[i]) < t.rank(x));
    }
}

/// Lying within is transitive.
pub proof fn lemma_within_transitive(t: Tree, a: Entity, b: Entity, c: Entity)
    requires
        t.structure(),
        t.is_within(a, b),
        t.is_within(b, c),
    ensures
        t.is_within(a, c),
    decreases t.rank(c),
{
    lemma_within_contains(t, b, c);
    if b != c {
        if c == Entity::root() {
            lemma_within_root(t, b);
        } else {
            let p = t.parent_of(c).unwrap();
            lemma_within_parent(t, b, c);
            lemma_within_transitive(t, a, b, p);
            lemma_within_parent(t, a, c);
        }
    }
}

/// A child lies within its parent.
pub proof fn lemma_child_within(t: Tree, p: Entity, k: int)
    requires
        t.structure(),
        0 <= k < t.children_of(p).len(),
    ensures
        t.is_within(p, t.children_of(p)[k]),
        t.contains(p),
        t.children_of(p)[k] != Entity::root(),
{
    let c = t.children_of(p)[k];
    assert(t.contains(c));
    assert(t.parent_of(c) == Some(p));
    assert(c != Entity::root());
    assert(t.contains(p));
    lemma_ancestors(t, p);
    lemma_within_parent(t, p, c);
}

/// An entity that lies strictly within `e` lies within one of the children
/// of `e`.
pub proof fn lemma_branch_child(t: Tree, e: Entity, x: Entity) -> (k: int)
    requires
        t.structure(),
        t.is_within(e, x),
        e != x,
    ensures
        0 <= k < t.children_of(e).len(),
        t.is_within(t.children_of(e)[k], x),
    decreases t.rank(x),
{
    lemma_within_contains(t, e, x);
    if x == Entity::root() {
        lemma_within_root(t, e);
    }
    let p = t.parent_of(x).unwrap();
    lemma_within_parent(t, e, x);
    if p == e {
        let k = choose|k: int| 0 <= k < t.children_of(p).len() && t.children_of(p)[k] == x;
        lemma_ancestors(t, x);
        k
    } else {
        let k = lemma_branch_child(t, e, p);
        let c = t.children_of(e)[k];
        lemma_within_contains(t, c, p);
        lemma_within_parent(t, c, x);
        k
    }
}

/// Two children of one parent that both contain an entity are the same
/// child.
pub proof fn lemma_branch_unique(t: Tree, c1: Entity, c2: Entity, x: Entity)
    requires
        t.structure(),
        t.is_within(c1, x),
        t.is_within(c2, x),
        t.parent_of(c1) is Some,
        t.parent_of(c1) == t.parent_of(c2),
    ensures
        c1 == c2,
{
    lemma_within_contains(t, c1, x);
    lemma_ancestors(t, x);
    let anc = t.ancestors(x);
    let i = choose|i: int| 0 <= i < anc.len() && anc[i] == c1;
    let j = choose|j: int| 0 <= j < anc.len() && anc[j] == c2;
    let p = t.parent_of(c1).unwrap();
    if i != j {
        assert(anc.last() == Entity::root());
        assert(t.parent_of(Entity::root()) is None);
        assert(i < anc.len() - 1);
        assert(j < anc.len() - 1);
        assert(t.parent_of(anc[i]) == Some(anc[i + 1]));
        assert(t.parent_of(anc[j]) == Some(anc[j + 1]));
        if i < j {
            assert(t.rank(anc[j + 1]) < t.rank(anc[i + 1]));
        } else {
            assert(t.rank(anc[i + 1]) < t.rank(anc[j + 1]));
        }
    }
}

/// Every member of the sequence below `e` lies within `e`.
pub proof fn lemma_subtree_sound(t: Tree, e: Entity, x: Entity)
    requires
        t.structure(),
        t.subtree(e).contains(x),
    ensures
        t.is_within(e, x),
        t.contains(e),
    decreases t.clock() - t.rank(e), t.children_of(e).len() + 1,
{
    if !t.contains(e) {
        assert(t.subtree(e) =~= Seq::<Entity>::empty());
    }
    lemma_concat_contains(seq![e], t.forest(e, 0), x);
    if t.forest(e, 0).contains(x) {
        let k = lemma_forest_sound(t, e, 0, x);
        lemma_child_within(t, e, k);
        lemma_within_transitive(t, e, t.children_of(e)[k], x);
    } else {
        assert(seq![e].contains(x));
        assert(x == e);
        lemma_ancestors(t, e);
    }
}

/// Every member of a forest below `e` lies within one of the children that
/// the forest starts from.
pub proof fn lemma_forest_sound(t: Tree, e: Entity, k: nat, x: Entity) -> (j: int)
    requires
        t.structure(),
        t.forest(e, k).contains(x),
    ensures
        k <= j < t.children_of(e).len(),
        t.subtree(t.children_of(e)[j]).contains(x),
        t.is_within(t.children_of(e)[j], x),
        t.contains(e),
    decreases t.clock() - t.rank(e), t.children_of(e).len() - k,
{
    if !(t.contains(e) && k < t.children_of(e).len()) {
        assert(t.forest(e, k) =~= Seq::<Entity>::empty());
    }
    let c = t.children_of(e)[k as int];
    assert(t.contains(c));
    assert(t.parent_of(c) == Some(e));
    assert(c != Entity::root());
    lemma_concat_contains(t.subtree(c), t.forest(e, k + 1), x);
    if t.subtree(c).contains(x) {
        lemma_subtree_sound(t, c, x);
        k as int
    } else {
        lemma_forest_sound(t, e, k + 1, x)
    }
}

/// A forest holds the whole sequence below each child it starts from.
pub proof fn lemma_forest_includes(t: Tree, e: Entity, k: nat, j: int, x: Entity)
    requires
        t.structure(),
        t.contains(e),
        k <= j < t.children_of(e).len(),
        t.subtree(t.children_of(e)[j]).contains(x),
    ensures
        t.forest(e, k).contains(x),
    decreases j - k,
{
    let c = t.children_of(e)[k as int];
    lemma_concat_contains(t.subtree(c), t.forest(e, k + 1), x);
    if k < j {
        lemma_forest_includes(t, e, k + 1, j, x);
    }
}

/// Every entity that lies within `e` is a member of the sequence below `e`.
pub proof fn lemma_subtree_complete(t: Tree, e: Entity, x: Entity)
    requires
        t.structure(),
        t.is_within(e, x),
    ensures
        t.subtree(e).contains(x),
    decreases t.clock() - t.rank(e),
{
    lemma_within_contains(t, e, x);
    lemma_concat_contains(seq![e], t.forest(e, 0), x);
    if x == e {
        assert(seq![e][0] == x);
    } else {
        let k = lemma_branch_child(t, e, x);
        let c = t.children_of(e)[k];
        assert(t.contains(c));
        assert(t.parent_of(c) == Some(e));
        assert(c != Entity::root());
        lemma_subtree_complete(t, c, x);
        lemma_forest_includes(t, e, 0, k, x);
    }
}

/// The sequence below `e` holds exactly the entities that lie within `e`.
pub proof fn lemma_subtree_is_within(t: Tree, e: Entity)
    requires
        t.structure(),
    ensures
        forall|x: Entity| #[trigger] t.subtree(e).contains(x) <==> t.is_within(e, x),
{
    assert forall|x: Entity| #[trigger] t.subtree(e).contains(x) <==> t.is_within(e, x) by {
        if t.subtree(e).contains(x) {
            lemma_subtree_sound(t, e, x);
        }
        if t.is_within(e, x) {
            lemma_subtree_complete(t, e, x);
        }
    }
}

/// No entity occurs twice in the sequence below `e`.
pub proof fn lemma_subtree_no_duplicates(t: Tree, e: Entity)
    requires
        t.structure(),
    ensures
        t.subtree(e).no_duplicates(),
    decreases t.clock() - t.rank(e), t.children_of(e).len() + 1,
{
    if t.contains(e) {
        lemma_forest_no_duplicates(t, e, 0);
        let f = t.forest(e, 0);
        assert forall|i: int, j: int| 0 <= i < seq![e].len() && 0 <= j < f.len() implies seq![e][i]
            != f[j] by {
            assert(f.contains(f[j]));
            let k = lemma_forest_sound(t, e, 0, f[j]);
            lemma_within_contains(t, t.children_of(e)[k], f[j]);
            assert(t.parent_of(t.children_of(e)[k]) == Some(e));
            assert(t.contains(t.children_of(e)[k]));
        }
        vstd::seq_lib::lemma_no_dup_in_concat(seq![e], f);
    } else {
        assert(t.subtree(e) =~= Seq::<Entity>::empty());
    }
}

/// No entity occurs twice in a forest below `e`.
pub proof fn lemma_forest_no_duplicates(t: Tree, e: Entity, k: nat)
    requires
        t.structure(),
        t.contains(e),
    ensures
        t.forest(e, k).no_duplicates(),
    decreases t.clock() - t.rank(e), t.children_of(e).len() - k,
{
    if k < t.children_of(e).len() {
        let c = t.children_of(e)[k as int];
        assert(t.contains(c));
        assert(t.parent_of(c) == Some(e));
        assert(c != Entity::root());
        lemma_subtree_no_duplicates(t, c);
        lemma_forest_no_duplicates(t, e, k + 1);
        let a = t.subtree(c);
        let b = t.forest(e, k + 1);
        assert forall|i: int, j: int| 0 <= i < a.len() && 0 <= j < b.len() implies a[i]
            != b[j] by {
            if a[i] == b[j] {
                assert(a.contains(a[i]));
                assert(b.contains(b[j]));
                lemma_subtree_sound(t, c, a[i]);
                let m = lemma_forest_sound(t, e, k + 1, b[j]);
                let d = t.children_of(e)[m];
                assert(t.parent_of(d) == Some(e));
                lemma_branch_unique(t, c, d, a[i]);
                assert(t.children_of(e).no_duplicates());
            }
        }
        vstd::seq_lib::lemma_no_dup_in_concat(a, b);
    } else {
        assert(t.forest(e, k) =~= Seq::<Entity>::empty());
    }
}

/// The order of layout holds every entity of the tree, each once.
pub proof fn lemma_layout_order(t: Tree)
    requires
        t.structure(),
    ensures
        t.layout_order().no_duplicates(),
        forall|x: Entity| #[trigger] t.layout_order().contains(x) <==> t.contains(x),
{
    lemma_subtree_no_duplicates(t, Entity::root());
    assert forall|x: Entity| #[trigger] t.layout_order().contains(x) <==> t.contains(x) by {
        if t.layout_order().contains(x) {
            lemma_subtree_sound(t, Entity::root(), x);
            lemma_within_contains(t, Entity::root(), x);
        }
        if t.contains(x) {
            lemma_ancestors(t, x);
            lemma_subtree_complete(t, Entity::root(), x);
        }
    }
}

/// Nothing has been removed yet when all the children are still to go.
pub proof fn lemma_partial_start(pre: Tree, e: Entity)
    requires
        pre.structure(),
        pre.contains(e),
    ensures
        pre.partial_removal(&pre, e, pre.children_of(e).len() as int),
{
    assert(pre.children_of(e).take(pre.children_of(e).len() as int) =~= pre.children_of(e));
}

/// Removing the last child that is left, with everything below it, is one
/// more step of removing the children from the last to the first.
pub proof fn lemma_partial_step(pre: Tree, mid: Tree, post: Tree, e: Entity, n: int)
    requires
        pre.structure(),
        mid.structure(),
        post.structure(),
        mid.partial_removal(&pre, e, n),
        n > 0,
        post.is_subtree_removal(&mid, pre.children_of(e)[n - 1]),
    ensures
        post.partial_removal(&pre, e, n - 1),
{
    let kids = pre.children_of(e);
    let c = kids[n - 1];
    assert(mid.children_of(e)[n - 1] == c);
    assert(mid.contains(c));
    assert(mid.parent_of(c) == Some(e));
    assert(mid.children_of(e).contains(c));
    mid.children_of(e).index_of_first_ensures(c);
    assert(mid.children_of(e).no_duplicates());
    assert(mid.children_of(e).index_of(c) == n - 1) by {
        let f = mid.children_of(e).index_of(c);
        assert(mid.children_of(e)[f] == mid.children_of(e)[n - 1]);
    }
    assert(post.children_of(e) =~= kids.take(n - 1));
    assert(mid.rank(e) < mid.rank(c));
    assert(post.contains(e)) by {
        if mid.is_within(c, e) {
            lemma_within_contains(mid, c, e);
        }
    }
    assert forall|x: Entity| #[trigger]
        post.contains(x) <==> pre.contains(x) && !pre.below_later_child(e, n - 1, x) by {
        if mid.contains(x) {
            Tree::lemma_frame_ancestors(pre, mid, x);
            assert(mid.is_within(c, x) == pre.is_within(kids[n - 1], x));
        }
        if pre.below_later_child(e, n, x) {
            let j = choose|j: int| n <= j < kids.len() && pre.is_within(#[trigger] kids[j], x);
            assert(n - 1 <= j < kids.len() && pre.is_within(kids[j], x));
        }
        if pre.below_later_child(e, n - 1, x) {
            let j = choose|j: int| n - 1 <= j < kids.len() && pre.is_within(#[trigger] kids[j], x);
            if j >= n {
                assert(pre.below_later_child(e, n, x));
            }
        }
        if pre.is_within(kids[n - 1], x) {
            assert(pre.below_later_child(e, n - 1, x));
        }
    }
    assert forall|x: Entity| #[trigger] post.contains(x) && x != e implies post.children_of(x)
        == pre.children_of(x) by {
        assert(mid.contains(x));
    }
    assert forall|x: Entity| #[trigger] post.contains(x) implies post.parent_of(x) == pre.parent_of(
        x,
    ) by {
        assert(mid.contains(x));
    }
    assert forall|x: Entity| #[trigger] post.contains(x) implies post.is_locked(x) == pre.is_locked(
        x,
    ) by {
        assert(mid.contains(x));
    }
    assert forall|x: Entity| #[trigger] post.contains(x) implies post.rank(x) == pre.rank(x) by {
        assert(mid.contains(x));
    }
}

/// Once all the children are gone with everything below them, removing the
/// entity itself completes the removal of everything within it.
pub proof fn lemma_partial_done(pre: Tree, mid: Tree, post: Tree, e: Entity)
    requires
        pre.structure(),
        mid.structure(),
        post.structure(),
        pre.contains(e),
        e != Entity::root(),
        mid.partial_removal(&pre, e, 0),
        post.is_removal(&mid, e),
    ensures
        post.is_subtree_removal(&pre, e),
{
    let kids = pre.children_of(e);
    let parent = pre.parent_of(e).unwrap();
    assert(mid.parent_of(e) == Some(parent));
    assert(parent != e) by {
        assert(pre.rank(parent) < pre.rank(e));
    }
    assert(pre.contains(parent));
    lemma_ancestors(pre, e);
    assert(mid.contains(parent)) by {
        if pre.below_later_child(e, 0, parent) {
            let j = choose|j: int| 0 <= j < kids.len() && pre.is_within(#[trigger] kids[j], parent);
            lemma_within_contains(pre, kids[j], parent);
            assert(pre.parent_of(kids[j]) == Some(e));
            assert(pre.contains(kids[j]));
        }
    }
    assert forall|x: Entity| #[trigger]
        post.contains(x) <==> pre.contains(x) && !pre.is_within(e, x) by {
        if pre.contains(x) && pre.is_within(e, x) && x != e {
            let k = lemma_branch_child(pre, e, x);
            assert(pre.below_later_child(e, 0, x));
        }
        if pre.below_later_child(e, 0, x) {
            let j = choose|j: int| 0 <= j < kids.len() && pre.is_within(#[trigger] kids[j], x);
            lemma_child_within(pre, e, j);
            lemma_within_transitive(pre, e, kids[j], x);
        }
    }
    assert forall|x: Entity| #[trigger] post.contains(x) implies post.parent_of(x) == pre.parent_of(
        x,
    ) by {
        assert(mid.contains(x));
    }
    assert forall|x: Entity| #[trigger] post.contains(x) && x != parent implies post.children_of(x)
        == pre.children_of(x) by {
        assert(mid.contains(x));
    }
    assert forall|x: Entity| #[trigger] post.contains(x) implies post.is_locked(x) == pre.is_locked(
        x,
    ) by {
        assert(mid.contains(x));
    }
    assert forall|x: Entity| #[trigger] post.contains(x) implies post.rank(x) == pre.rank(x) by {
        assert(mid.contains(x));
    }
    assert(mid.children_of(parent) == pre.children_of(parent));
}

} // verus!
