//! The entity tree: for each entity its parent and the ordered sequence of
//! its children.

use crate::entity::Entity;
use vstd::prelude::*;

verus! {

/// Why a change to the tree was refused.
#[derive(Clone, Copy, Debug, PartialEq, Eq, Structural)]
pub enum TreeError {
    /// The entity is not in the tree.
    NoEntity,
    /// The entity is null.
    NullEntity,
    /// The entity, or another one with its index, is already in the tree.
    AlreadyExists,
    /// The parent is not in the tree.
    InvalidParent,
    /// The position lies beyond the end of the parent's children.
    InvalidPosition,
    /// The entity still has children.
    HasChildren,
    /// The root cannot be removed.
    RootRemoval,
}

#[derive(Clone, Copy)]
struct Slot {
    entity: Entity,
    present: bool,
    parent: Entity,
    lock: bool,
}

/// The tree of entities.
///
/// Entities enter as leaves below an entity that is already there and leave
/// as leaves, so the structure is at every moment a single tree under the
/// root. The order of an entity's children is the order in which they are
/// laid out and drawn.
pub struct Tree {
    slots: Vec<Slot>,
    children: Vec<Vec<Entity>>,
    /// When each slot was last filled. A child is always younger than its
    /// parent, which is what rules out a cycle.
    birth: Ghost<Seq<nat>>,
    clock: Ghost<nat>,
}

impl Tree {
    /// Whether the entity is in the tree.
    pub closed spec fn contains(&self, e: Entity) -> bool {
        &&& e.index < self.slots.len()
        &&& self.slots[e.index as int].present
        &&& self.slots[e.index as int].entity == e
    }

    /// The parent of the entity; `None` for the root and for an entity that
    /// is not in the tree.
    pub closed spec fn parent_of(&self, e: Entity) -> Option<Entity> {
        if self.contains(e) && !self.slots[e.index as int].parent.is_null() {
            Some(self.slots[e.index as int].parent)
        } else {
            None
        }
    }

    /// The children of the entity in order; empty for an entity that is not
    /// in the tree.
    pub closed spec fn children_of(&self, e: Entity) -> Seq<Entity> {
        if self.contains(e) && e.index < self.children.len() {
            self.children[e.index as int]@
        } else {
            Seq::empty()
        }
    }

    /// Whether focus is locked within the entity.
    pub closed spec fn is_locked(&self, e: Entity) -> bool {
        self.contains(e) && self.slots[e.index as int].lock
    }

    /// The moment at which the entity entered the tree.
    pub closed spec fn rank(&self, e: Entity) -> nat {
        if e.index < self.birth@.len() {
            self.birth@[e.index as int]
        } else {
            0
        }
    }

    /// A moment later than the entry of every entity.
    pub closed spec fn clock(&self) -> nat {
        self.clock@
    }

    /// What holds of the arrays that carry the tree.
    pub closed spec fn repr(&self) -> bool {
        &&& self.slots.len() == self.children.len()
        &&& self.slots.len() == self.birth@.len()
        &&& forall|i: int|
            0 <= i < self.slots.len() && !(#[trigger] self.slots[i]).present
                ==> self.children[i]@.len() == 0
        &&& forall|i: int|
            0 <= i < self.slots.len() && (#[trigger] self.slots[i]).present
                ==> self.slots[i].entity.index == i && i < 0xffff_ffff
    }

    /// What holds of the relations of a tree: the root is in it and has no
    /// parent; every other entity has a parent in the tree that is older than
    /// it and lists it once among its children; the children of an entity are
    /// in the tree and have it as their parent.
    pub open spec fn structure(&self) -> bool {
        &&& self.contains(Entity::root())
        &&& self.parent_of(Entity::root()) is None
        &&& !self.contains(Entity::null())
        &&& forall|e: Entity| #[trigger] self.contains(e) ==> self.rank(e) < self.clock()
        &&& forall|e: Entity|
            #[trigger] self.contains(e) && e != Entity::root() ==> {
                &&& self.parent_of(e) is Some
                &&& self.contains(self.parent_of(e).unwrap())
                &&& self.children_of(self.parent_of(e).unwrap()).contains(e)
                &&& self.rank(self.parent_of(e).unwrap()) < self.rank(e)
            }
        &&& forall|p: Entity, k: int|
            0 <= k < self.children_of(p).len() ==> {
                &&& self.contains(#[trigger] self.children_of(p)[k])
                &&& self.parent_of(self.children_of(p)[k]) == Some(p)
            }
        &&& forall|p: Entity| #[trigger] self.children_of(p).no_duplicates()
    }

    /// The invariant of the tree.
    pub open spec fn wf(&self) -> bool {
        self.repr() && self.structure()
    }

    /// The entity and its ancestors, nearest first, up to the root; empty for
    /// an entity that is not in the tree.
    pub open spec fn ancestors(&self, e: Entity) -> Seq<Entity>
        decreases self.rank(e),
    {
        if self.structure() && self.contains(e) {
            if e == Entity::root() {
                seq![e]
            } else {
                seq![e] + self.ancestors(self.parent_of(e).unwrap())
            }
        } else {
            Seq::empty()
        }
    }

    /// Whether `x` is `a` or lies below it.
    pub open spec fn is_within(&self, a: Entity, x: Entity) -> bool {
        self.ancestors(x).contains(a)
    }

    /// The entity and everything below it, each parent before its children
    /// and the children in their order; empty for an entity that is not in
    /// the tree.
    pub open spec fn subtree(&self, e: Entity) -> Seq<Entity>
        decreases self.clock() - self.rank(e), self.children_of(e).len() + 1,
    {
        if self.structure() && self.contains(e) {
            seq![e] + self.forest(e, 0)
        } else {
            Seq::empty()
        }
    }

    /// The subtrees of the children of `e` from the `k`-th on, one after the
    /// other.
    pub open spec fn forest(&self, e: Entity, k: nat) -> Seq<Entity>
        decreases self.clock() - self.rank(e), self.children_of(e).len() - k,
    {
        if self.structure() && self.contains(e) && k < self.children_of(e).len() {
            self.subtree(self.children_of(e)[k as int]) + self.forest(e, k + 1)
        } else {
            Seq::empty()
        }
    }

    /// All entities of the tree in the order of layout.
    pub open spec fn layout_order(&self) -> Seq<Entity> {
        self.subtree(Entity::root())
    }

    /// Whether some entity with this index is in the tree.
    pub open spec fn index_used(&self, index: u32) -> bool {
        exists|x: Entity| self.contains(x) && x.index == index
    }

    /// What `insert` answers: the first of its checks that fails, or `Ok`.
    pub open spec fn insert_result(&self, e: Entity, parent: Entity, position: usize) -> Result<
        (),
        TreeError,
    > {
        if e.index == 0xffff_ffff {
            Err(TreeError::NullEntity)
        } else if self.index_used(e.index) {
            Err(TreeError::AlreadyExists)
        } else if !self.contains(parent) {
            Err(TreeError::InvalidParent)
        } else if position > self.children_of(parent).len() {
            Err(TreeError::InvalidPosition)
        } else {
            Ok(())
        }
    }

    /// `self` is `pre` with `e` added as the child of `parent` at `position`.
    pub open spec fn is_insertion(&self, pre: &Tree, e: Entity, parent: Entity, position: int) -> bool {
        &&& forall|x: Entity| self.contains(x) <==> pre.contains(x) || x == e
        &&& self.parent_of(e) == Some(parent)
        &&& forall|x: Entity| x != e ==> self.parent_of(x) == pre.parent_of(x)
        &&& self.children_of(parent) == pre.children_of(parent).insert(position, e)
        &&& forall|x: Entity| x != parent ==> self.children_of(x) == pre.children_of(x)
        &&& forall|x: Entity| self.is_locked(x) == pre.is_locked(x)
        &&& forall|x: Entity| pre.contains(x) ==> self.rank(x) == pre.rank(x)
        &&& self.rank(e) == pre.clock()
        &&& self.clock() == pre.clock() + 1
    }

    /// What `remove` answers: the first of its checks that fails, or `Ok`.
    pub open spec fn remove_result(&self, e: Entity) -> Result<(), TreeError> {
        if !self.contains(e) {
            Err(TreeError::NoEntity)
        } else if e == Entity::root() {
            Err(TreeError::RootRemoval)
        } else if self.children_of(e).len() > 0 {
            Err(TreeError::HasChildren)
        } else {
            Ok(())
        }
    }

    /// `self` is `pre` without the leaf `e`.
    pub open spec fn is_removal(&self, pre: &Tree, e: Entity) -> bool {
        let p = pre.parent_of(e).unwrap();
        &&& forall|x: Entity| self.contains(x) <==> pre.contains(x) && x != e
        &&& forall|x: Entity| x != e ==> self.parent_of(x) == pre.parent_of(x)
        &&& self.children_of(p) == pre.children_of(p).remove(pre.children_of(p).index_of(e))
        &&& forall|x: Entity| x != p ==> self.children_of(x) == pre.children_of(x)
        &&& forall|x: Entity| x != e ==> self.is_locked(x) == pre.is_locked(x)
        &&& forall|x: Entity| self.rank(x) == pre.rank(x)
        &&& self.clock() == pre.clock()
    }

    /// `self` has the entities, parents, children and ages of `pre`.
    pub open spec fn same_shape(&self, pre: &Tree) -> bool {
        &&& forall|x: Entity| self.contains(x) == pre.contains(x)
        &&& forall|x: Entity| self.parent_of(x) == pre.parent_of(x)
        &&& forall|x: Entity| self.children_of(x) == pre.children_of(x)
        &&& forall|x: Entity| self.rank(x) == pre.rank(x)
        &&& self.clock() == pre.clock()
    }

    /// Where the entity stands among the children of its parent.
    pub open spec fn position_of(&self, e: Entity) -> int {
        self.children_of(self.parent_of(e).unwrap()).index_of(e)
    }

    /// The sibling just before the entity, if there is one.
    pub open spec fn prev_sibling_of(&self, e: Entity) -> Option<Entity> {
        if self.parent_of(e) is Some && self.position_of(e) > 0 {
            Some(self.children_of(self.parent_of(e).unwrap())[self.position_of(e) - 1])
        } else {
            None
        }
    }

    /// The sibling just after the entity, if there is one.
    pub open spec fn next_sibling_of(&self, e: Entity) -> Option<Entity> {
        if self.parent_of(e) is Some && self.position_of(e) + 1 < self.children_of(
            self.parent_of(e).unwrap(),
        ).len() {
            Some(self.children_of(self.parent_of(e).unwrap())[self.position_of(e) + 1])
        } else {
            None
        }
    }

    /// The nearest of the entity and its ancestors within which focus is
    /// locked; the root if there is none, or if the entity is not in the
    /// tree.
    pub open spec fn lock_root(&self, e: Entity) -> Entity
        decreases self.rank(e),
    {
        if self.structure() && self.contains(e) && e != Entity::root() && !self.is_locked(e) {
            self.lock_root(self.parent_of(e).unwrap())
        } else if self.structure() && self.contains(e) {
            e
        } else {
            Entity::root()
        }
    }

    /// No two entities of the tree share an index, and none has the index
    /// that is kept for the null entity.
    pub proof fn lemma_indices(&self, a: Entity, b: Entity)
        requires
            self.wf(),
            self.contains(a),
        ensures
            a.index < 0xffff_ffff,
            self.contains(b) && a.index == b.index ==> a == b,
    {
    }

    /// `self` is `pre` without `e` and everything below it.
    pub open spec fn is_subtree_removal(&self, pre: &Tree, e: Entity) -> bool {
        let p = pre.parent_of(e).unwrap();
        &&& forall|x: Entity| #[trigger] self.contains(x) <==> pre.contains(x) && !pre.is_within(e, x)
        &&& forall|x: Entity| #[trigger] self.contains(x) ==> self.parent_of(x) == pre.parent_of(x)
        &&& self.children_of(p) == pre.children_of(p).remove(pre.children_of(p).index_of(e))
        &&& forall|x: Entity|
            #[trigger] self.contains(x) && x != p ==> self.children_of(x) == pre.children_of(x)
        &&& forall|x: Entity| #[trigger] self.contains(x) ==> self.is_locked(x) == pre.is_locked(x)
        &&& forall|x: Entity| #[trigger] self.contains(x) ==> self.rank(x) == pre.rank(x)
        &&& self.clock() == pre.clock()
    }

    /// Whether `x` is one of the children of `e` in `self` from the `n`-th
    /// on, or lies below one of them.
    pub open spec fn below_later_child(&self, e: Entity, n: int, x: Entity) -> bool {
        exists|j: int|
            n <= j < self.children_of(e).len() && self.is_within(
                #[trigger] self.children_of(e)[j],
                x,
            )
    }

    /// `self` is `pre` without the children of `e` from the `n`-th on and
    /// everything below them.
    pub open spec fn partial_removal(&self, pre: &Tree, e: Entity, n: int) -> bool {
        &&& self.contains(e)
        &&& 0 <= n <= pre.children_of(e).len()
        &&& self.children_of(e) == pre.children_of(e).take(n)
        &&& forall|x: Entity|
            #[trigger] self.contains(x) <==> pre.contains(x) && !pre.below_later_child(e, n, x)
        &&& forall|x: Entity| #[trigger] self.contains(x) ==> self.parent_of(x) == pre.parent_of(x)
        &&& forall|x: Entity|
            #[trigger] self.contains(x) && x != e ==> self.children_of(x) == pre.children_of(x)
        &&& forall|x: Entity| #[trigger] self.contains(x) ==> self.is_locked(x) == pre.is_locked(x)
        &&& forall|x: Entity| #[trigger] self.contains(x) ==> self.rank(x) == pre.rank(x)
        &&& self.clock() == pre.clock()
    }

    /// A tree that holds the root alone.
    pub fn new() -> (t: Tree)
        ensures
            t.wf(),
            forall|e: Entity| t.contains(e) <==> e == Entity::root(),
            t.children_of(Entity::root()) == Seq::<Entity>::empty(),
            !t.is_locked(Entity::root()),
    {
        let mut slots = Vec::new();
        slots.push(Slot { entity: Entity::root(), present: true, parent: Entity::null(), lock: false });
        let mut children: Vec<Vec<Entity>> = Vec::new();
        children.push(Vec::new());
        let ghost birth = Seq::<nat>::empty().push(0);
        let t = Tree { slots, children, birth: Ghost(birth), clock: Ghost(1) };
        assert(t.children_of(Entity::root()) =~= Seq::<Entity>::empty());
        assert forall|p: Entity| #[trigger] t.children_of(p).no_duplicates() by {
            assert(t.children_of(p) =~= Seq::<Entity>::empty());
        }
        t
    }

    /// Whether the entity is in the tree.
    #[verifier::when_used_as_spec(contains)]
    pub fn has(&self, e: Entity) -> (b: bool)
        ensures
            b == self.contains(e),
    {
        let i = e.index as usize;
        i < self.slots.len() && self.slots[i].present && self.slots[i].entity == e
    }

    /// The parent of the entity.
    pub fn get_parent(&self, e: Entity) -> (r: Option<Entity>)
        ensures
            r == self.parent_of(e),
    {
        if self.has(e) {
            let p = self.slots[e.index as usize].parent;
            if p.is_null() {
                None
            } else {
                Some(p)
            }
        } else {
            None
        }
    }

    /// The number of children of the entity.
    pub fn get_num_children(&self, e: Entity) -> (n: usize)
        requires
            self.wf(),
        ensures
            n == self.children_of(e).len(),
    {
        if self.has(e) {
            self.children[e.index as usize].len()
        } else {
            0
        }
    }

    /// The child of the entity at a position, if there is one.
    pub fn get_child(&self, e: Entity, position: usize) -> (r: Option<Entity>)
        requires
            self.wf(),
        ensures
            position < self.children_of(e).len() ==> r == Some(
                self.children_of(e)[position as int],
            ),
            position >= self.children_of(e).len() ==> r is None,
    {
        if self.has(e) && position < self.children[e.index as usize].len() {
            Some(self.children[e.index as usize][position])
        } else {
            None
        }
    }
    /// Makes room for a slot with index `i`.
    fn reserve(&mut self, i: usize)
        requires
            old(self).repr(),
            i < 0xffff_ffff,
        ensures
            final(self).repr(),
            final(self).slots.len() > i,
            final(self).slots.len() >= old(self).slots.len(),
            final(self).clock == old(self).clock,
            forall|k: int|
                0 <= k < old(self).slots.len() ==> (#[trigger] final(self).slots[k]) == old(
                    self,
                ).slots[k],
            forall|k: int|
                0 <= k < old(self).slots.len() ==> (#[trigger] final(self).children[k]) == old(
                    self,
                ).children[k],
            forall|k: int|
                0 <= k < old(self).slots.len() ==> (#[trigger] final(self).birth@[k]) == old(
                    self,
                ).birth@[k],
            forall|k: int|
                old(self).slots.len() <= k < final(self).slots.len() ==> !(
                #[trigger] final(self).slots[k]).present,
    {
        while self.slots.len() <= i
            invariant
                i < 0xffff_ffff,
                self.slots.len() == self.children.len(),
                self.slots.len() == self.birth@.len(),
                self.slots.len() >= old(self).slots.len(),
                self.clock == old(self).clock,
                forall|k: int|
                    0 <= k < old(self).slots.len() ==> (#[trigger] self.slots[k]) == old(
                        self,
                    ).slots[k],
                forall|k: int|
                    0 <= k < old(self).slots.len() ==> (#[trigger] self.children[k]) == old(
                        self,
                    ).children[k],
                forall|k: int|
                    0 <= k < old(self).slots.len() ==> (#[trigger] self.birth@[k]) == old(
                        self,
                    ).birth@[k],
                forall|k: int|
                    old(self).slots.len() <= k < self.slots.len() ==> !(
                    #[trigger] self.slots[k]).present,
                forall|k: int|
                    old(self).slots.len() <= k < self.slots.len() ==> (
                    #[trigger] self.children[k])@.len() == 0,
            decreases i + 1 - self.slots.len(),
        {
            self.slots.push(
                Slot { entity: Entity::null(), present: false, parent: Entity::null(), lock: false },
            );
            self.children.push(Vec::new());
            proof {
                self.birth@ = self.birth@.push(0);
            }
        }
    }

    /// Adds `e` to the tree as the child of `parent` at `position` among its
    /// children. Nothing changes if the answer is an error.
    pub fn insert(&mut self, e: Entity, parent: Entity, position: usize) -> (r: Result<
        (),
        TreeError,
    >)
        requires
            old(self).wf(),
        ensures
            final(self).wf(),
            r == old(self).insert_result(e, parent, position),
            r is Err ==> *final(self) == *old(self),
            r is Ok ==> final(self).is_insertion(old(self), e, parent, position as int),
    {
        let i = e.index as usize;
        if e.index == 0xffff_ffff {
            return Err(TreeError::NullEntity);
        }
        if i < self.slots.len() && self.slots[i].present {
            assert(self.contains(self.slots[i as int].entity));
            return Err(TreeError::AlreadyExists);
        }
        assert(!self.index_used(e.index));
        if !self.has(parent) {
            return Err(TreeError::InvalidParent);
        }
        let pi = parent.index as usize;
        if position > self.children[pi].len() {
            return Err(TreeError::InvalidPosition);
        }
        self.reserve(i);
        assert(self.children[i as int]@.len() == 0) by {
            assert(!self.slots[i as int].present);
        }
        self.slots.set(i, Slot { entity: e, present: true, parent, lock: false });
        self.children[pi].insert(position, e);
        proof {
            self.birth@ = self.birth@.update(i as int, self.clock@);
            self.clock@ = self.clock@ + 1;
            let pre = old(self);
            assert(!parent.is_null());
            assert forall|x: Entity| self.contains(x) <==> pre.contains(x) || x == e by {}
            assert forall|x: Entity| x != e implies self.parent_of(x) == pre.parent_of(x) by {}
            assert(self.children_of(parent) == pre.children_of(parent).insert(position as int, e));
            assert forall|x: Entity| x != parent implies self.children_of(x) == pre.children_of(
                x,
            ) by {
                if self.contains(x) {
                    if x == e {
                        if i < pre.slots.len() {
                            assert(!pre.slots[i as int].present);
                        }
                        assert(self.children[i as int]@.len() == 0);
                        assert(self.children_of(x) =~= pre.children_of(x));
                    }
                }
            }
            assert forall|x: Entity| self.is_locked(x) == pre.is_locked(x) by {}
            assert forall|x: Entity| pre.contains(x) implies self.rank(x) == pre.rank(x) by {}
            assert(self.is_insertion(pre, e, parent, position as int));
            Tree::lemma_insertion_structure(*pre, *self, e, parent, position as int);
        }
        Ok(())
    }

    /// Adding a leaf keeps the relations of a tree.
    proof fn lemma_insertion_structure(pre: Tree, post: Tree, e: Entity, parent: Entity, position: int)
        requires
            pre.structure(),
            post.is_insertion(&pre, e, parent, position),
            !pre.contains(e),
            pre.contains(parent),
            0 <= position <= pre.children_of(parent).len(),
            e.index != 0xffff_ffff,
        ensures
            post.structure(),
    {
        assert(e != Entity::root());
        assert(e != Entity::null());
        assert(parent != e);
        assert forall|x: Entity| #[trigger] post.contains(x) implies post.rank(x) < post.clock() by {
            if x != e {
                assert(pre.contains(x));
            }
        }
        assert forall|x: Entity| #[trigger]
            post.contains(x) && x != Entity::root() implies {
            &&& post.parent_of(x) is Some
            &&& post.contains(post.parent_of(x).unwrap())
            &&& post.children_of(post.parent_of(x).unwrap()).contains(x)
            &&& post.rank(post.parent_of(x).unwrap()) < post.rank(x)
        } by {
            if x == e {
                assert(post.children_of(parent)[position] == e);
                assert(pre.contains(parent));
            } else {
                assert(pre.contains(x));
                let q = pre.parent_of(x).unwrap();
                assert(pre.contains(q));
                if q == parent {
                    let k = choose|k: int|
                        0 <= k < pre.children_of(q).len() && pre.children_of(q)[k] == x;
                    if k < position {
                        assert(post.children_of(q)[k] == x);
                    } else {
                        assert(post.children_of(q)[k + 1] == x);
                    }
                } else {
                    assert(post.children_of(q) == pre.children_of(q));
                }
            }
        }
        assert forall|q: Entity, k: int| 0 <= k < post.children_of(q).len() implies {
            &&& post.contains(#[trigger] post.children_of(q)[k])
            &&& post.parent_of(post.children_of(q)[k]) == Some(q)
        } by {
            if q == parent {
                if k < position {
                    assert(post.children_of(q)[k] == pre.children_of(q)[k]);
                    assert(pre.contains(pre.children_of(q)[k]));
                } else if k > position {
                    assert(post.children_of(q)[k] == pre.children_of(q)[k - 1]);
                    assert(pre.contains(pre.children_of(q)[k - 1]));
                }
            } else {
                assert(post.children_of(q)[k] == pre.children_of(q)[k]);
                assert(pre.contains(pre.children_of(q)[k]));
            }
        }
        assert forall|q: Entity| #[trigger] post.children_of(q).no_duplicates() by {
            assert(pre.children_of(q).no_duplicates());
            if q == parent {
                assert forall|a: int, b: int|
                    0 <= a < post.children_of(q).len() && 0 <= b < post.children_of(q).len() && a
                        != b implies post.children_of(q)[a] != post.children_of(q)[b] by {
                    let old_a = if a < position { a } else { a - 1 };
                    let old_b = if b < position { b } else { b - 1 };
                    if a != position {
                        assert(post.children_of(q)[a] == pre.children_of(q)[old_a]);
                        assert(pre.contains(pre.children_of(q)[old_a]));
                    }
                    if b != position {
                        assert(post.children_of(q)[b] == pre.children_of(q)[old_b]);
                        assert(pre.contains(pre.children_of(q)[old_b]));
                    }
                }
            }
        }
    }

    /// Takes the leaf `e` out of the tree. Nothing changes if the answer is
    /// an error.
    pub fn remove(&mut self, e: Entity) -> (r: Result<(), TreeError>)
        requires
            old(self).wf(),
        ensures
            final(self).wf(),
            r == old(self).remove_result(e),
            r is Err ==> *final(self) == *old(self),
            r is Ok ==> final(self).is_removal(old(self), e),
    {
        if !self.has(e) {
            return Err(TreeError::NoEntity);
        }
        if e == Entity::root() {
            return Err(TreeError::RootRemoval);
        }
        let i = e.index as usize;
        if self.children[i].len() > 0 {
            return Err(TreeError::HasChildren);
        }
        let parent = self.slots[i].parent;
        let pi = parent.index as usize;
        assert(self.parent_of(e) == Some(parent));
        assert(self.contains(parent));
        let ghost siblings = self.children_of(parent);
        assert(siblings.contains(e));
        let n = self.children[pi].len();
        let mut k: usize = 0;
        while self.children[pi][k] != e
            invariant
                n == siblings.len(),
                pi < self.children.len(),
                self.children[pi as int]@ == siblings,
                k < siblings.len(),
                exists|j: int| k <= j < siblings.len() && siblings[j] == e,
                forall|j: int| 0 <= j < k ==> siblings[j] != e,
            decreases siblings.len() - k,
        {
            proof {
                let j = choose|j: int| k <= j < siblings.len() && siblings[j] == e;
                assert(j != k);
            }
            k += 1;
        }
        proof {
            siblings.index_of_first_ensures(e);
            let first = siblings.index_of(e);
            assert(siblings.no_duplicates());
            assert(siblings[first] == siblings[k as int]);
            assert(first == k);
        }
        self.children[pi].remove(k);
        let slot = self.slots[i];
        self.slots.set(
            i,
            Slot { entity: slot.entity, present: false, parent: slot.parent, lock: false },
        );
        proof {
            let pre = old(self);
            assert(parent != e) by {
                assert(pre.rank(parent) < pre.rank(e));
            }
            assert forall|x: Entity| self.contains(x) <==> pre.contains(x) && x != e by {}
            assert forall|x: Entity| x != e implies self.parent_of(x) == pre.parent_of(x) by {}
            assert(self.children_of(parent) == siblings.remove(k as int));
            assert forall|x: Entity| x != parent implies self.children_of(x) == pre.children_of(
                x,
            ) by {
                if x == e {
                    assert(self.children_of(x) =~= pre.children_of(x));
                }
            }
            assert forall|x: Entity| x != e implies self.is_locked(x) == pre.is_locked(x) by {}
            assert(self.is_removal(pre, e));
            Tree::lemma_removal_structure(*pre, *self, e);
        }
        Ok(())
    }

    /// Taking a leaf out keeps the relations of a tree.
    proof fn lemma_removal_structure(pre: Tree, post: Tree, e: Entity)
        requires
            pre.structure(),
            post.is_removal(&pre, e),
            pre.contains(e),
            e != Entity::root(),
            pre.children_of(e).len() == 0,
        ensures
            post.structure(),
    {
        let parent = pre.parent_of(e).unwrap();
        let siblings = pre.children_of(parent);
        siblings.index_of_first_ensures(e);
        let k = siblings.index_of(e);
        assert(siblings.contains(e));
        assert(pre.contains(parent));
        assert(parent != e) by {
            assert(pre.rank(parent) < pre.rank(e));
        }
        assert forall|x: Entity| #[trigger] post.contains(x) implies post.rank(x) < post.clock() by {
            assert(pre.contains(x));
        }
        assert forall|x: Entity| #[trigger]
            post.contains(x) && x != Entity::root() implies {
            &&& post.parent_of(x) is Some
            &&& post.contains(post.parent_of(x).unwrap())
            &&& post.children_of(post.parent_of(x).unwrap()).contains(x)
            &&& post.rank(post.parent_of(x).unwrap()) < post.rank(x)
        } by {
            assert(pre.contains(x));
            let q = pre.parent_of(x).unwrap();
            assert(pre.contains(q));
            assert(q != e) by {
                if q == e {
                    assert(pre.children_of(q).contains(x));
                }
            }
            if q == parent {
                let j = choose|j: int| 0 <= j < siblings.len() && siblings[j] == x;
                if j < k {
                    assert(post.children_of(q)[j] == x);
                } else {
                    assert(post.children_of(q)[j - 1] == x);
                }
            } else {
                assert(post.children_of(q) == pre.children_of(q));
            }
        }
        assert forall|q: Entity, j: int| 0 <= j < post.children_of(q).len() implies {
            &&& post.contains(#[trigger] post.children_of(q)[j])
            &&& post.parent_of(post.children_of(q)[j]) == Some(q)
        } by {
            if q == parent {
                let old_j = if j < k { j } else { j + 1 };
                assert(post.children_of(q)[j] == siblings[old_j]);
                assert(pre.contains(siblings[old_j]));
                assert(siblings.no_duplicates());
                assert(siblings[old_j] != siblings[k]);
            } else {
                assert(post.children_of(q)[j] == pre.children_of(q)[j]);
                assert(pre.contains(pre.children_of(q)[j]));
                assert(pre.children_of(q)[j] != e) by {
                    if pre.children_of(q)[j] == e {
                        assert(pre.parent_of(e) == Some(q));
                    }
                }
            }
        }
        assert forall|q: Entity| #[trigger] post.children_of(q).no_duplicates() by {
            assert(pre.children_of(q).no_duplicates());
            if q == parent {
                assert forall|a: int, b: int|
                    0 <= a < post.children_of(q).len() && 0 <= b < post.children_of(q).len() && a
                        != b implies post.children_of(q)[a] != post.children_of(q)[b] by {
                    let old_a = if a < k { a } else { a + 1 };
                    let old_b = if b < k { b } else { b + 1 };
                    assert(post.children_of(q)[a] == siblings[old_a]);
                    assert(post.children_of(q)[b] == siblings[old_b]);
                }
            }
        }
    }
    /// The entity and its ancestors, nearest first.
    pub fn parent_iter(&self, e: Entity) -> (v: Vec<Entity>)
        requires
            self.wf(),
        ensures
            v@ == self.ancestors(e),
    {
        let mut v: Vec<Entity> = Vec::new();
        if !self.has(e) {
            assert(self.ancestors(e) =~= Seq::<Entity>::empty());
            return v;
        }
        let mut cur = e;
        loop
            invariant_except_break
                self.wf(),
                self.contains(cur),
                v@ + self.ancestors(cur) == self.ancestors(e),
            ensures
                v@ == self.ancestors(e),
            decreases self.rank(cur),
        {
            let ghost before = v@;
            v.push(cur);
            match self.get_parent(cur) {
                Some(p) => {
                    proof {
                        assert(cur != Entity::root());
                        assert(self.ancestors(cur) == seq![cur] + self.ancestors(p));
                        assert(v@ + self.ancestors(p) =~= before + self.ancestors(cur));
                    }
                    cur = p;
                },
                None => {
                    proof {
                        assert(cur == Entity::root());
                        assert(self.ancestors(cur) =~= seq![cur]);
                        assert(v@ =~= before + seq![cur]);
                    }
                    break ;
                },
            }
        }
        v
    }

    /// Whether `x` is `a` or lies below it.
    pub fn is_descendant_of(&self, x: Entity, a: Entity) -> (b: bool)
        requires
            self.wf(),
        ensures
            b == self.is_within(a, x),
    {
        if !self.has(x) {
            assert(self.ancestors(x) =~= Seq::<Entity>::empty());
            return false;
        }
        let mut cur = x;
        loop
            invariant_except_break
                self.wf(),
                self.contains(cur),
                self.is_within(a, x) == self.is_within(a, cur),
            ensures
                self.is_within(a, x) == (cur == a),
            decreases self.rank(cur),
        {
            if cur == a {
                assert(self.ancestors(cur)[0] == cur);
                break ;
            }
            match self.get_parent(cur) {
                Some(p) => {
                    proof {
                        assert(cur != Entity::root());
                        let rest = self.ancestors(p);
                        assert(self.ancestors(cur) == seq![cur] + rest);
                        if rest.contains(a) {
                            let k = choose|k: int| 0 <= k < rest.len() && rest[k] == a;
                            assert(self.ancestors(cur)[k + 1] == a);
                        }
                        if self.ancestors(cur).contains(a) {
                            let k = choose|k: int|
                                0 <= k < self.ancestors(cur).len() && self.ancestors(cur)[k] == a;
                            assert(rest[k - 1] == a);
                        }
                    }
                    cur = p;
                },
                None => {
                    proof {
                        assert(cur == Entity::root());
                        assert(self.ancestors(cur) =~= seq![cur]);
                    }
                    break ;
                },
            }
        }
        cur == a
    }

    /// Adds the entity and everything below it to `out`.
    fn collect(&self, e: Entity, out: &mut Vec<Entity>)
        requires
            self.wf(),
            self.contains(e),
        ensures
            final(out)@ == old(out)@ + self.subtree(e),
        decreases self.clock() - self.rank(e),
    {
        out.push(e);
        let n = self.get_num_children(e);
        let mut k: usize = 0;
        while k < n
            invariant
                self.wf(),
                self.contains(e),
                n == self.children_of(e).len(),
                k <= n,
                out@ + self.forest(e, k as nat) == old(out)@ + self.subtree(e),
            decreases n - k,
        {
            let c = self.get_child(e, k).unwrap();
            let ghost before = out@;
            self.collect(c, out);
            proof {
                assert(self.forest(e, k as nat) == self.subtree(c) + self.forest(e, (k + 1) as nat));
                assert(out@ + self.forest(e, (k + 1) as nat) =~= before + self.forest(e, k as nat));
            }
            k += 1;
        }
        proof {
            assert(self.forest(e, n as nat) =~= Seq::<Entity>::empty());
            assert(out@ + Seq::<Entity>::empty() =~= out@);
        }
    }

    /// The entity and everything below it, each parent before its children.
    pub fn branch_iter(&self, e: Entity) -> (v: Vec<Entity>)
        requires
            self.wf(),
        ensures
            v@ == self.subtree(e),
    {
        let mut v: Vec<Entity> = Vec::new();
        if self.has(e) {
            self.collect(e, &mut v);
            assert(Seq::<Entity>::empty() + self.subtree(e) =~= self.subtree(e));
        } else {
            assert(self.subtree(e) =~= Seq::<Entity>::empty());
        }
        v
    }

    /// All entities of the tree in the order of layout.
    pub fn layout_iter(&self) -> (v: Vec<Entity>)
        requires
            self.wf(),
        ensures
            v@ == self.layout_order(),
    {
        self.branch_iter(Entity::root())
    }
    /// Where the entity stands among the children of its parent; `None` for
    /// the root and for an entity that is not in the tree.
    pub fn child_position(&self, e: Entity) -> (r: Option<usize>)
        requires
            self.wf(),
        ensures
            self.parent_of(e) is Some ==> r is Some && r.unwrap() as int == self.position_of(e)
                && 0 <= self.position_of(e) < self.children_of(self.parent_of(e).unwrap()).len()
                && self.children_of(self.parent_of(e).unwrap())[self.position_of(e)] == e,
            self.parent_of(e) is None ==> r is None,
    {
        match self.get_parent(e) {
            None => None,
            Some(parent) => {
                let pi = parent.index as usize;
                assert(self.contains(e));
                assert(e != Entity::root());
                assert(self.contains(parent));
                let ghost siblings = self.children_of(parent);
                assert(siblings.contains(e));
                let n = self.children[pi].len();
                let mut k: usize = 0;
                while self.children[pi][k] != e
                    invariant
                        n == siblings.len(),
                        pi < self.children.len(),
                        self.children[pi as int]@ == siblings,
                        k < siblings.len(),
                        exists|j: int| k <= j < siblings.len() && siblings[j] == e,
                        forall|j: int| 0 <= j < k ==> siblings[j] != e,
                    decreases siblings.len() - k,
                {
                    proof {
                        let j = choose|j: int| k <= j < siblings.len() && siblings[j] == e;
                        assert(j != k);
                    }
                    k += 1;
                }
                proof {
                    siblings.index_of_first_ensures(e);
                    let first = siblings.index_of(e);
                    assert(siblings.no_duplicates());
                    assert(siblings[first] == siblings[k as int]);
                }
                Some(k)
            },
        }
    }

    /// The first child of the entity, if it has children.
    pub fn get_first_child(&self, e: Entity) -> (r: Option<Entity>)
        requires
            self.wf(),
        ensures
            self.children_of(e).len() > 0 ==> r == Some(self.children_of(e).first()),
            self.children_of(e).len() == 0 ==> r is None,
    {
        self.get_child(e, 0)
    }

    /// The last child of the entity, if it has children.
    pub fn get_last_child(&self, e: Entity) -> (r: Option<Entity>)
        requires
            self.wf(),
        ensures
            self.children_of(e).len() > 0 ==> r == Some(self.children_of(e).last()),
            self.children_of(e).len() == 0 ==> r is None,
    {
        let n = self.get_num_children(e);
        if n > 0 {
            self.get_child(e, n - 1)
        } else {
            None
        }
    }

    /// The sibling just before the entity, if there is one.
    pub fn get_prev_sibling(&self, e: Entity) -> (r: Option<Entity>)
        requires
            self.wf(),
        ensures
            r == self.prev_sibling_of(e),
    {
        match self.child_position(e) {
            None => None,
            Some(k) => {
                if k > 0 {
                    self.get_child(self.get_parent(e).unwrap(), k - 1)
                } else {
                    None
                }
            },
        }
    }

    /// The sibling just after the entity, if there is one.
    pub fn get_next_sibling(&self, e: Entity) -> (r: Option<Entity>)
        requires
            self.wf(),
        ensures
            r == self.next_sibling_of(e),
    {
        match self.child_position(e) {
            None => None,
            Some(k) => {
                let parent = self.get_parent(e).unwrap();
                let n = self.get_num_children(parent);
                if k + 1 < n {
                    self.get_child(parent, k + 1)
                } else {
                    None
                }
            },
        }
    }

    /// Locks focus within the entity, or lifts the lock. Returns whether the
    /// entity is in the tree; if it is not, nothing changes.
    pub fn set_lock_focus_within(&mut self, e: Entity, flag: bool) -> (found: bool)
        requires
            old(self).wf(),
        ensures
            final(self).wf(),
            found == old(self).contains(e),
            final(self).same_shape(old(self)),
            forall|x: Entity| x != e ==> final(self).is_locked(x) == old(self).is_locked(x),
            found ==> final(self).is_locked(e) == flag,
    {
        if !self.has(e) {
            return false;
        }
        let i = e.index as usize;
        let slot = self.slots[i];
        self.slots.set(
            i,
            Slot { entity: slot.entity, present: true, parent: slot.parent, lock: flag },
        );
        proof {
            let pre = old(self);
            assert forall|x: Entity| self.contains(x) == pre.contains(x) by {}
            assert forall|x: Entity| self.parent_of(x) == pre.parent_of(x) by {}
            assert forall|x: Entity| self.children_of(x) == pre.children_of(x) by {}
            assert forall|x: Entity| self.rank(x) == pre.rank(x) by {}
            assert(self.same_shape(pre));
            Tree::lemma_same_shape_structure(*pre, *self);
        }
        true
    }

    /// A tree with the shape of a tree has the relations of a tree.
    pub proof fn lemma_same_shape_structure(pre: Tree, post: Tree)
        requires
            pre.structure(),
            post.same_shape(&pre),
        ensures
            post.structure(),
    {
        assert forall|x: Entity| #[trigger] post.contains(x) implies post.rank(x) < post.clock() by {
            assert(pre.contains(x));
        }
        assert forall|x: Entity| #[trigger]
            post.contains(x) && x != Entity::root() implies {
            &&& post.parent_of(x) is Some
            &&& post.contains(post.parent_of(x).unwrap())
            &&& post.children_of(post.parent_of(x).unwrap()).contains(x)
            &&& post.rank(post.parent_of(x).unwrap()) < post.rank(x)
        } by {
            assert(pre.contains(x));
        }
        assert forall|q: Entity, k: int| 0 <= k < post.children_of(q).len() implies {
            &&& post.contains(#[trigger] post.children_of(q)[k])
            &&& post.parent_of(post.children_of(q)[k]) == Some(q)
        } by {
            assert(post.children_of(q)[k] == pre.children_of(q)[k]);
            assert(pre.contains(pre.children_of(q)[k]));
        }
        assert forall|q: Entity| #[trigger] post.children_of(q).no_duplicates() by {
            assert(pre.children_of(q).no_duplicates());
        }
    }

    /// Whether focus is locked within the entity.
    pub fn is_lock_focus_within(&self, e: Entity) -> (b: bool)
        ensures
            b == self.is_locked(e),
    {
        self.has(e) && self.slots[e.index as usize].lock
    }

    /// The nearest of the entity and its ancestors within which focus is
    /// locked, or the root.
    pub fn lock_focus_within(&self, e: Entity) -> (r: Entity)
        requires
            self.wf(),
        ensures
            r == self.lock_root(e),
    {
        if !self.has(e) {
            return Entity::root();
        }
        let mut cur = e;
        loop
            invariant_except_break
                self.wf(),
                self.contains(cur),
                self.lock_root(cur) == self.lock_root(e),
            ensures
                cur == self.lock_root(e),
            decreases self.rank(cur),
        {
            if self.is_lock_focus_within(cur) {
                break ;
            }
            match self.get_parent(cur) {
                Some(p) => {
                    assert(cur != Entity::root());
                    cur = p;
                },
                None => {
                    assert(cur == Entity::root());
                    break ;
                },
            }
        }
        cur
    }
    /// Takes `e` and everything below it out of the tree, children before
    /// their parents. Nothing changes if `e` is the root or not in the tree.
    pub fn remove_subtree(&mut self, e: Entity) -> (removed: bool)
        requires
            old(self).wf(),
        ensures
            final(self).wf(),
            removed == (old(self).contains(e) && e != Entity::root()),
            !removed ==> *final(self) == *old(self),
            removed ==> final(self).is_subtree_removal(old(self), e),
    {
        if !self.has(e) || e == Entity::root() {
            return false;
        }
        self.remove_below(e);
        true
    }

    /// Takes `e` and everything below it out of the tree, the last child
    /// first.
    fn remove_below(&mut self, e: Entity)
        requires
            old(self).wf(),
            old(self).contains(e),
            e != Entity::root(),
        ensures
            final(self).wf(),
            final(self).is_subtree_removal(old(self), e),
        decreases old(self).clock() - old(self).rank(e),
    {
        let ghost pre = *self;
        let mut n = self.get_num_children(e);
        proof {
            crate::tree_lemmas::lemma_partial_start(pre, e);
        }
        while n > 0
            invariant
                pre == *old(self),
                pre.wf(),
                pre.contains(e),
                e != Entity::root(),
                self.wf(),
                self.partial_removal(&pre, e, n as int),
            decreases n,
        {
            let c = self.get_child(e, n - 1).unwrap();
            let ghost mid = *self;
            proof {
                assert(mid.children_of(e)[n - 1] == c);
                assert(mid.contains(c));
                assert(mid.parent_of(c) == Some(e));
                assert(c != Entity::root());
                assert(mid.rank(e) < mid.rank(c));
                assert(mid.rank(c) == pre.rank(c));
                assert(mid.rank(e) == pre.rank(e));
            }
            self.remove_below(c);
            proof {
                crate::tree_lemmas::lemma_partial_step(pre, mid, *self, e, n as int);
            }
            n -= 1;
        }
        let ghost mid = *self;
        assert(mid.children_of(e) =~= Seq::<Entity>::empty());
        let r = self.remove(e);
        proof {
            assert(r is Ok);
            crate::tree_lemmas::lemma_partial_done(pre, mid, *self, e);
        }
    }

    /// Where a tree keeps the parents of the entities it has of another, it
    /// keeps their chains of ancestors.
    pub proof fn lemma_frame_ancestors(pre: Tree, post: Tree, x: Entity)
        requires
            pre.structure(),
            post.structure(),
            forall|z: Entity|
                #[trigger] post.contains(z) ==> pre.contains(z) && post.parent_of(z)
                    == pre.parent_of(z),
            post.contains(x),
        ensures
            post.ancestors(x) == pre.ancestors(x),
        decreases pre.rank(x),
    {
        if x != Entity::root() {
            let p = post.parent_of(x).unwrap();
            assert(post.contains(p));
            assert(pre.contains(x));
            Tree::lemma_frame_ancestors(pre, post, p);
        }
    }
}

} // verus!
