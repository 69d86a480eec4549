//! Generational entity identifiers and the manager that allocates them.

use std::collections::VecDeque;
use vstd::prelude::*;

verus! {

/// The largest generation an entity can carry. The value above it is kept
/// for the null entity.
pub const MAX_GENERATION: u32 = 0xffff_fffe;

/// The largest number of indices a manager can hand out.
pub const MAX_ENTITIES: u32 = 0xffff_ffff;

/// A generational identifier of a node of the user interface.
///
/// Two entities are the same only if both the index and the generation agree,
/// so an index that is used again never revives an identifier that was
/// destroyed.
#[derive(Clone, Copy, Debug, PartialEq, Eq, Hash, Structural)]
pub struct Entity {
    pub index: u32,
    pub generation: u32,
}

impl Entity {
    /// What `root()` returns.
    pub open spec fn spec_root() -> Entity {
        Entity { index: 0, generation: 0 }
    }

    /// What `null()` returns.
    pub open spec fn spec_null() -> Entity {
        Entity { index: 0xffff_ffff, generation: 0xffff_ffff }
    }

    /// Whether this is the null entity.
    pub open spec fn spec_is_null(&self) -> bool {
        *self == Entity::spec_null()
    }

    /// The identifier under which the entity is known to assistive
    /// technology: one more than the generation and the index packed into 64
    /// bits, and zero for the null entity.
    pub open spec fn spec_accesskit_id(&self) -> u64 {
        if self.spec_is_null() {
            0
        } else {
            (self.generation as int * 0x1_0000_0000 + self.index as int + 1) as u64
        }
    }

    /// Builds an entity from its two parts.
    pub fn new(index: u32, generation: u32) -> (e: Entity)
        ensures
            e == (Entity { index, generation }),
    {
        Entity { index, generation }
    }

    /// The entity that is made when the interface starts and never destroyed.
    #[verifier::when_used_as_spec(spec_root)]
    pub fn root() -> (e: Entity)
        ensures
            e == Entity::spec_root(),
    {
        Entity { index: 0, generation: 0 }
    }

    /// The entity that stands for "none".
    #[verifier::when_used_as_spec(spec_null)]
    pub fn null() -> (e: Entity)
        ensures
            e == Entity::spec_null(),
    {
        Entity { index: 0xffff_ffff, generation: 0xffff_ffff }
    }

    /// Whether this is the null entity.
    #[verifier::when_used_as_spec(spec_is_null)]
    pub fn is_null(&self) -> (b: bool)
        ensures
            b == self.spec_is_null(),
    {
        self.index == 0xffff_ffff && self.generation == 0xffff_ffff
    }

    /// The index, as a position in an array.
    pub fn index(&self) -> (i: usize)
        ensures
            i == self.index,
    {
        self.index as usize
    }

    /// The generation.
    pub fn generation(&self) -> (g: u32)
        ensures
            g == self.generation,
    {
        self.generation
    }

    /// The identifier under which the entity is known to assistive
    /// technology.
    #[verifier::when_used_as_spec(spec_accesskit_id)]
    pub fn accesskit_id(&self) -> (id: u64)
        ensures
            id == self.spec_accesskit_id(),
    {
        if self.is_null() {
            0
        } else {
            // Not the null entity, so the index or the generation is below
            // the maximum and the sum fits.
            (self.generation as u64) * 0x1_0000_0000 + (self.index as u64) + 1
        }
    }

    /// The entity with the given identifier; `None` for zero, which is the
    /// identifier of no entity but the null entity.
    pub fn from_accesskit_id(id: u64) -> (r: Option<Entity>)
        ensures
            id == 0 ==> r is None,
            id != 0 ==> r is Some && !r.unwrap().is_null() && r.unwrap().accesskit_id() == id,
    {
        if id == 0 {
            None
        } else {
            let packed = id - 1;
            let index = (packed % 0x1_0000_0000) as u32;
            let generation = (packed / 0x1_0000_0000) as u32;
            let e = Entity { index, generation };
            assert(generation as int * 0x1_0000_0000 + index as int == packed);
            Some(e)
        }
    }
}

/// The identifier of a non-null entity is never zero, the value that stands
/// for "no node".
pub proof fn lemma_accesskit_id_nonzero(e: Entity)
    requires
        !e.is_null(),
    ensures
        e.accesskit_id() != 0,
{
}

/// Different entities have different identifiers.
pub proof fn lemma_accesskit_id_injective(a: Entity, b: Entity)
    requires
        a.accesskit_id() == b.accesskit_id(),
    ensures
        a == b,
{
    if a.is_null() || b.is_null() {
        assert(a.is_null() && b.is_null());
    } else {
        let x = a.generation as int * 0x1_0000_0000 + a.index as int;
        let y = b.generation as int * 0x1_0000_0000 + b.index as int;
        assert(x == y);
        assert(a.generation == b.generation) by (nonlinear_arith)
            requires
                a.generation as int * 0x1_0000_0000 + a.index as int == b.generation as int
                    * 0x1_0000_0000 + b.index as int,
                0 <= a.index < 0x1_0000_0000,
                0 <= b.index < 0x1_0000_0000,
        ;
    }
}

/// The state of an [`IdManager`] as plain mathematical values.
pub struct IdModel {
    /// For each index handed out so far, the generation that the index
    /// carries now, or will carry when it is next used.
    pub generations: Seq<u32>,
    /// For each index, whether an entity with that index is alive.
    pub alive: Seq<bool>,
    /// The indices that wait to be used again, oldest first.
    pub free: Seq<u32>,
    /// The number of indices that may be handed out in all.
    pub limit: nat,
}

impl IdModel {
    /// The entity is alive: it was created and not destroyed since.
    pub open spec fn is_alive(self, e: Entity) -> bool {
        &&& e.index < self.generations.len()
        &&& self.alive[e.index as int]
        &&& self.generations[e.index as int] == e.generation
    }

    /// The entity was alive once and has been destroyed.
    pub open spec fn is_stale(self, e: Entity) -> bool {
        e.index < self.generations.len() && e.generation < self.generations[e.index as int]
    }

    /// How many more entities can be created before one is destroyed.
    pub open spec fn available(self) -> nat {
        (self.free.len() + self.limit - self.generations.len()) as nat
    }

    /// The entity that the next creation returns.
    pub open spec fn next(self) -> Entity {
        if self.free.len() > 0 {
            Entity { index: self.free[0], generation: self.generations[self.free[0] as int] }
        } else {
            Entity { index: self.generations.len() as u32, generation: 0 }
        }
    }

    /// The state after the next creation.
    pub open spec fn after_create(self) -> IdModel {
        if self.free.len() > 0 {
            IdModel {
                alive: self.alive.update(self.free[0] as int, true),
                free: self.free.subrange(1, self.free.len() as int),
                ..self
            }
        } else {
            IdModel {
                generations: self.generations.push(0),
                alive: self.alive.push(true),
                ..self
            }
        }
    }

    /// The state after a live entity is destroyed. Its index takes the next
    /// generation; it waits to be used again unless that generation is the
    /// reserved one.
    pub open spec fn after_destroy(self, e: Entity) -> IdModel {
        IdModel {
            generations: self.generations.update(e.index as int, (e.generation + 1) as u32),
            alive: self.alive.update(e.index as int, false),
            free: if e.generation < MAX_GENERATION {
                self.free.push(e.index)
            } else {
                self.free
            },
            ..self
        }
    }

    /// The invariant of the state: every index has a generation and a
    /// flag, a live index has a generation that an entity can carry, and the
    /// indices that wait are distinct, dead and fit to be used again.
    pub open spec fn wf(self) -> bool {
        &&& self.generations.len() == self.alive.len()
        &&& self.generations.len() <= self.limit <= MAX_ENTITIES
        &&& forall|i: int|
            0 <= i < self.alive.len() && #[trigger] self.alive[i] ==> self.generations[i]
                <= MAX_GENERATION
        &&& forall|k: int|
            0 <= k < self.free.len() ==> {
                &&& (#[trigger] self.free[k]) < self.generations.len()
                &&& !self.alive[self.free[k] as int]
                &&& self.generations[self.free[k] as int] <= MAX_GENERATION
            }
        &&& forall|j: int, k: int|
            0 <= j < k < self.free.len() ==> self.free[j] != self.free[k]
    }
}

/// Allocates entities and takes them back.
///
/// An index that is taken back is handed out again under a higher
/// generation; an index whose generations are used up is retired.
pub struct IdManager {
    generations: Vec<u32>,
    alive: Vec<bool>,
    free_list: VecDeque<u32>,
    limit: u32,
}

impl View for IdManager {
    type V = IdModel;

    closed spec fn view(&self) -> IdModel {
        IdModel {
            generations: self.generations@,
            alive: self.alive@,
            free: self.free_list@,
            limit: self.limit as nat,
        }
    }
}

impl IdManager {
    /// The invariant of the manager.
    pub open spec fn wf(&self) -> bool {
        self@.wf()
    }

    /// A manager without entities that can hold as many as the index space
    /// allows.
    pub fn new() -> (m: IdManager)
        ensures
            m.wf(),
            m@.generations.len() == 0,
            m@.free.len() == 0,
            m@.limit == MAX_ENTITIES,
    {
        IdManager::with_limit(MAX_ENTITIES)
    }

    /// A manager without entities that hands out at most `limit` indices.
    pub fn with_limit(limit: u32) -> (m: IdManager)
        ensures
            m.wf(),
            m@.generations.len() == 0,
            m@.free.len() == 0,
            m@.limit == limit,
    {
        IdManager {
            generations: Vec::new(),
            alive: Vec::new(),
            free_list: VecDeque::new(),
            limit,
        }
    }

    /// Creates an entity, or returns `None` if the identity space is
    /// exhausted. The entity returned is neither alive nor stale before the
    /// call, so no identifier is ever handed out twice.
    pub fn create(&mut self) -> (r: Option<Entity>)
        requires
            old(self).wf(),
        ensures
            final(self).wf(),
            old(self)@.available() == 0 ==> r is None && *final(self) == *old(self),
            old(self)@.available() > 0 ==> r == Some(old(self)@.next()) && final(self)@ == old(
                self,
            )@.after_create(),
            r matches Some(e) ==> {
                &&& !e.is_null()
                &&& !old(self)@.is_alive(e)
                &&& !old(self)@.is_stale(e)
                &&& final(self)@.is_alive(e)
                &&& forall|x: Entity| x != e ==> final(self)@.is_alive(x) == old(self)@.is_alive(x)
                &&& forall|x: Entity| final(self)@.is_stale(x) == old(self)@.is_stale(x)
            },
    {
        if self.free_list.len() > 0 {
            let index = self.free_list.pop_front().unwrap();
            let generation = self.generations[index as usize];
            self.alive.set(index as usize, true);
            let e = Entity { index, generation };
            proof {
                assert(self@ == old(self)@.after_create());
                assert forall|k: int| 0 <= k < self@.free.len() implies {
                    &&& (#[trigger] self@.free[k]) < self@.generations.len()
                    &&& !self@.alive[self@.free[k] as int]
                    &&& self@.generations[self@.free[k] as int] <= MAX_GENERATION
                } by {
                    assert(self@.free[k] == old(self)@.free[k + 1]);
                }
                assert forall|j: int, k: int| 0 <= j < k < self@.free.len() implies self@.free[j]
                    != self@.free[k] by {
                    assert(self@.free[j] == old(self)@.free[j + 1]);
                    assert(self@.free[k] == old(self)@.free[k + 1]);
                }
            }
            Some(e)
        } else if self.generations.len() < self.limit as usize {
            let index = self.generations.len() as u32;
            self.generations.push(0);
            self.alive.push(true);
            proof {
                assert(self@ == old(self)@.after_create());
            }
            Some(Entity { index, generation: 0 })
        } else {
            None
        }
    }

    /// Destroys an entity. Returns whether it was alive; if it was not,
    /// nothing changes. Afterwards the entity is stale for good.
    pub fn destroy(&mut self, e: Entity) -> (was_alive: bool)
        requires
            old(self).wf(),
        ensures
            final(self).wf(),
            was_alive == old(self)@.is_alive(e),
            was_alive ==> final(self)@ == old(self)@.after_destroy(e),
            !was_alive ==> final(self)@ == old(self)@,
            was_alive ==> final(self)@.is_stale(e),
            forall|x: Entity| x != e ==> final(self)@.is_alive(x) == old(self)@.is_alive(x),
            !final(self)@.is_alive(e),
            forall|x: Entity| old(self)@.is_stale(x) ==> final(self)@.is_stale(x),
            forall|x: Entity|
                final(self)@.is_stale(x) ==> old(self)@.is_stale(x) || (was_alive && x.index
                    == e.index && x.generation <= e.generation),
    {
        if !self.is_alive(e) {
            return false;
        }
        let i = e.index as usize;
        self.generations.set(i, e.generation + 1);
        self.alive.set(i, false);
        if e.generation < MAX_GENERATION {
            self.free_list.push_back(e.index);
        }
        proof {
            assert(self@ == old(self)@.after_destroy(e));
            assert forall|k: int| 0 <= k < self@.free.len() implies {
                &&& (#[trigger] self@.free[k]) < self@.generations.len()
                &&& !self@.alive[self@.free[k] as int]
                &&& self@.generations[self@.free[k] as int] <= MAX_GENERATION
            } by {
                if k < old(self)@.free.len() {
                    assert(self@.free[k] == old(self)@.free[k]);
                }
            }
            assert forall|j: int, k: int| 0 <= j < k < self@.free.len() implies self@.free[j]
                != self@.free[k] by {
                if k < old(self)@.free.len() {
                    assert(self@.free[k] == old(self)@.free[k]);
                }
                assert(self@.free[j] == old(self)@.free[j]);
            }
        }
        true
    }

    /// Whether the entity is alive.
    pub fn is_alive(&self, e: Entity) -> (b: bool)
        requires
            self.wf(),
        ensures
            b == self@.is_alive(e),
    {
        let i = e.index as usize;
        i < self.generations.len() && self.alive[i] && self.generations[i] == e.generation
    }

    /// How many more entities can be created before one is destroyed.
    pub fn available(&self) -> (n: usize)
        requires
            self.wf(),
        ensures
            n == self@.available(),
    {
        proof {
            lemma_free_bounded(self@);
        }
        self.free_list.len() + (self.limit as usize - self.generations.len())
    }
}

/// The indices that wait are distinct and each stands for a slot, so there
/// are no more of them than slots.
proof fn lemma_free_bounded(m: IdModel)
    requires
        m.wf(),
    ensures
        m.free.len() <= m.generations.len(),
{
    let s = m.free.to_set();
    m.free.unique_seq_to_set();
    let bound = Set::new(|i: u32| i < m.generations.len());
    assert(s.subset_of(bound)) by {
        assert forall|i: u32| s.contains(i) implies bound.contains(i) by {
            let k = choose|k: int| 0 <= k < m.free.len() && m.free[k] == i;
            assert(m.free[k] < m.generations.len());
        }
    }
    lemma_u32_below_len(m.generations.len());
    vstd::set_lib::lemma_len_subset(s, bound);
}

/// There are `n` machine integers below `n`.
proof fn lemma_u32_below_len(n: nat)
    requires
        n <= 0x1_0000_0000,
    ensures
        Set::new(|i: u32| i < n).finite(),
        Set::new(|i: u32| i < n).len() == n,
    decreases n,
{
    let s = Set::new(|i: u32| i < n);
    if n == 0 {
        assert(s =~= Set::<u32>::empty());
    } else {
        let prev = Set::new(|i: u32| i < (n - 1) as nat);
        lemma_u32_below_len((n - 1) as nat);
        assert(s =~= prev.insert((n - 1) as u32));
    }
}

/// An identifier that was destroyed never comes back. Whatever is created
/// or destroyed afterwards, the entity stays stale, and the entity that is
/// created next is another one.
pub proof fn lemma_stale_for_good(m: IdModel, e: Entity, x: Entity)
    requires
        m.wf(),
        m.is_stale(e),
    ensures
        m.available() > 0 ==> m.next() != e && m.after_create().is_stale(e),
        m.is_alive(x) ==> m.after_destroy(x).is_stale(e),
        !m.is_alive(e),
{
    if m.available() > 0 && m.free.len() > 0 {
        assert(m.free[0] < m.generations.len());
    }
    if m.is_alive(e) {
        assert(m.alive[e.index as int]);
    }
}

} // verus!
