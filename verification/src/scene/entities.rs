use vstd::prelude::*;
use crate::scene::handle::EntityHandle;

verus! {

/// Generational slot bookkeeping of the scene's entities: each slot has a
/// generation and a liveness flag, and dead slots wait in a free list to be
/// reused under the next generation. The entities' data lives beside it,
/// under the same slot index.
pub struct EntitySlots {
    slots: Vec<(u32, bool)>,
    free_indices: Vec<u32>,
}

impl EntitySlots {
    /// Each slot as `(generation, alive)`.
    pub closed spec fn spec_slots(&self) -> Seq<(u32, bool)> {
        self.slots@
    }

    /// Dead slots in the order they will be reused (last first).
    pub closed spec fn spec_free(&self) -> Seq<u32> {
        self.free_indices@
    }

    /// The free list holds each dead slot exactly once and nothing else.
    pub open spec fn wf(&self) -> bool {
        &&& self.spec_free().no_duplicates()
        &&& forall|k: int| 0 <= k < self.spec_free().len() ==> (#[trigger] self.spec_free()[k]) < self.spec_slots().len()
        &&& forall|i: int| 0 <= i < self.spec_slots().len() ==> (!#[trigger] self.spec_slots()[i].1 <==> self.spec_free().contains(i as u32))
        &&& self.spec_slots().len() <= u32::MAX + 1
    }

    /// `h` names the current occupant of a live slot.
    pub open spec fn alive(&self, h: EntityHandle) -> bool {
        &&& h.index < self.spec_slots().len()
        &&& self.spec_slots()[h.index as int].1
        &&& self.spec_slots()[h.index as int].0 == h.generation
    }

    /// `h` names an entity that is gone: its slot has moved on to a later
    /// generation, or is dead at the handle's generation.
    pub open spec fn retired(&self, h: EntityHandle) -> bool {
        &&& h.index < self.spec_slots().len()
        &&& (self.spec_slots()[h.index as int].0 > h.generation || (self.spec_slots()[h.index as int].0 == h.generation
            && !self.spec_slots()[h.index as int].1))
    }

    /// Whether a new entity can be placed: a reused slot's generation must
    /// have room to grow, and a new slot's index must fit in `u32`.
    pub open spec fn can_spawn(&self) -> bool {
        if self.spec_free().len() > 0 {
            self.spec_slots()[self.spec_free().last() as int].0 < u32::MAX
        } else {
            self.spec_slots().len() < u32::MAX
        }
    }

    pub fn new() -> (s: Self)
        ensures
            s.wf(),
            s.spec_slots().len() == 0,
            s.spec_free().len() == 0,
    {
        EntitySlots { slots: Vec::new(), free_indices: Vec::new() }
    }

    /// Whether `spawn` can place a new entity now.
    pub fn has_room(&self) -> (r: bool)
        requires
            self.wf(),
        ensures
            r == self.can_spawn(),
    {
        let n = self.free_indices.len();
        if n > 0 {
            let i = self.free_indices[n - 1];
            self.slots[i as usize].0 < u32::MAX
        } else {
            self.slots.len() < u32::MAX as usize
        }
    }

    /// Places a new entity: in the most recently freed slot under its next
    /// generation, or in a new slot of generation 0.
    pub fn spawn(&mut self) -> (h: EntityHandle)
        requires
            old(self).wf(),
            old(self).can_spawn(),
        ensures
            final(self).wf(),
            final(self).alive(h),
            !old(self).alive(h),
            forall|g: EntityHandle| g != h ==> #[trigger] final(self).alive(g) == old(self).alive(g),
            live_count(final(self).spec_slots()) == live_count(old(self).spec_slots()) + 1,
            old(self).spec_free().len() > 0 ==> {
                &&& h.index == old(self).spec_free().last()
                &&& h.generation == old(self).spec_slots()[h.index as int].0 + 1
                &&& final(self).spec_free() == old(self).spec_free().drop_last()
                &&& final(self).spec_slots() == old(self).spec_slots().update(h.index as int, (h.generation, true))
            },
            old(self).spec_free().len() == 0 ==> {
                &&& h.index == old(self).spec_slots().len()
                &&& h.generation == 0
                &&& final(self).spec_free() == old(self).spec_free()
                &&& final(self).spec_slots() == old(self).spec_slots().push((0u32, true))
            },
    {
        match self.free_indices.pop() {
            Some(index) => {
                let ghost before = self.slots@;
                let ghost free_before = old(self).free_indices@;
                let (generation, _) = self.slots[index as usize];
                let g = generation + 1;
                self.slots.set(index as usize, (g, true));
                proof {
                    assert(!before[index as int].1);
                    lemma_live_count_update(before, index as int, (g, true));
                    assert(free_before.last() == index);
                    assert forall|i: int| 0 <= i < self.slots@.len() implies (!#[trigger] self.slots@[i].1
                        <==> self.free_indices@.contains(i as u32)) by {
                        if i == index as int {
                            assert(!self.free_indices@.contains(index)) by {
                                if self.free_indices@.contains(index) {
                                    let k = choose|k: int| 0 <= k < self.free_indices@.len() && self.free_indices@[k] == index;
                                    assert(free_before[k] == free_before[free_before.len() - 1]);
                                }
                            }
                        } else {
                            assert(!before[i].1 <==> free_before.contains(i as u32));
                            if free_before.contains(i as u32) {
                                let k = choose|k: int| 0 <= k < free_before.len() && free_before[k] == i as u32;
                                assert(k != free_before.len() - 1);
                                assert(self.free_indices@[k] == i as u32);
                            }
                        }
                    }
                }
                EntityHandle { index, generation: g }
            },
            None => {
                let index = self.slots.len() as u32;
                self.slots.push((0, true));
                proof {
                    assert(self.slots@.drop_last() =~= old(self).slots@);
                    assert forall|i: int| 0 <= i < self.slots@.len() implies (!#[trigger] self.slots@[i].1
                        <==> self.free_indices@.contains(i as u32)) by {
                        if i < self.slots@.len() - 1 {
                            assert(self.slots@[i] == old(self).slots@[i]);
                        }
                    }
                }
                EntityHandle { index, generation: 0 }
            },
        }
    }

    /// Removes the entity `h` names; stale or invalid handles are ignored.
    pub fn despawn(&mut self, h: EntityHandle)
        requires
            old(self).wf(),
        ensures
            final(self).wf(),
            !final(self).alive(h),
            forall|g: EntityHandle| g.index != h.index ==> #[trigger] final(self).alive(g) == old(self).alive(g),
            live_count(final(self).spec_slots()) == live_count(old(self).spec_slots()) - (if old(self).alive(h) { 1int } else { 0int }),
            old(self).alive(h) ==> {
                &&& final(self).spec_slots() == old(self).spec_slots().update(h.index as int, (h.generation, false))
                &&& final(self).spec_free() == old(self).spec_free().push(h.index)
            },
            !old(self).alive(h) ==> final(self).spec_slots() == old(self).spec_slots() && final(self).spec_free()
                == old(self).spec_free(),
    {
        let i = h.index as usize;
        if i < self.slots.len() {
            let (generation, alive) = self.slots[i];
            if alive && generation == h.generation {
                let ghost before = self.slots@;
                let ghost free_before = self.free_indices@;
                self.slots.set(i, (generation, false));
                self.free_indices.push(h.index);
                proof {
                    lemma_live_count_update(before, i as int, (generation, false));
                    assert(!free_before.contains(h.index));
                    assert forall|a: int, b: int| 0 <= a < self.free_indices@.len() && 0 <= b < self.free_indices@.len() && a != b
                        implies self.free_indices@[a] != self.free_indices@[b] by {
                        if a == free_before.len() as int {
                            assert(self.free_indices@[b] == free_before[b]);
                        } else if b == free_before.len() as int {
                            assert(self.free_indices@[a] == free_before[a]);
                        } else {
                            assert(self.free_indices@[a] == free_before[a] && self.free_indices@[b] == free_before[b]);
                        }
                    }
                    assert forall|k: int| 0 <= k < self.free_indices@.len() implies (#[trigger] self.free_indices@[k]) < self.slots@.len() by {
                        if k < free_before.len() {
                            assert(self.free_indices@[k] == free_before[k]);
                        }
                    }
                    assert forall|j: int| 0 <= j < self.slots@.len() implies (!#[trigger] self.slots@[j].1
                        <==> self.free_indices@.contains(j as u32)) by {
                        if j != i as int {
                            assert(!before[j].1 <==> free_before.contains(j as u32));
                            if free_before.contains(j as u32) {
                                let k = choose|k: int| 0 <= k < free_before.len() && free_before[k] == j as u32;
                                assert(self.free_indices@[k] == j as u32);
                            }
                            if self.free_indices@.contains(j as u32) {
                                let k = choose|k: int| 0 <= k < self.free_indices@.len() && self.free_indices@[k] == j as u32;
                                if k < free_before.len() {
                                    assert(free_before[k] == j as u32);
                                }
                            }
                        } else {
                            assert(self.free_indices@[free_before.len() as int] == h.index);
                        }
                    }
                }
            }
        }
    }

    /// Whether `h` refers to a live entity.
    pub fn is_alive(&self, h: EntityHandle) -> (r: bool)
        ensures
            r == self.alive(h),
    {
        let i = h.index as usize;
        if i < self.slots.len() {
            let (generation, alive) = self.slots[i];
            alive && generation == h.generation
        } else {
            false
        }
    }

    /// Number of live entities.
    pub fn entity_count(&self) -> (r: usize)
        ensures
            r == live_count(self.spec_slots()),
    {
        let mut n: usize = 0;
        let mut i: usize = 0;
        while i < self.slots.len()
            invariant
                i <= self.slots@.len(),
                n == live_count(self.slots@.take(i as int)),
                n <= i,
            decreases self.slots@.len() - i,
        {
            proof {
                assert(self.slots@.take(i + 1).drop_last() =~= self.slots@.take(i as int));
            }
            if self.slots[i].1 {
                n = n + 1;
            }
            i = i + 1;
        }
        proof {
            assert(self.slots@.take(i as int) =~= self.slots@);
        }
        n
    }

    /// The slot of the live entity `h`, if it is alive.
    pub fn live_slot(&self, h: EntityHandle) -> (r: Option<usize>)
        ensures
            r == (if self.alive(h) { Some(h.index as usize) } else { None::<usize> }),
    {
        if self.is_alive(h) {
            Some(h.index as usize)
        } else {
            None
        }
    }
}

proof fn lemma_live_count_update(slots: Seq<(u32, bool)>, i: int, v: (u32, bool))
    requires
        0 <= i < slots.len(),
    ensures
        live_count(slots.update(i, v)) + (if slots[i].1 { 1int } else { 0int }) == live_count(slots) + (if v.1 { 1int } else { 0int }),
    decreases slots.len(),
{
    let t = slots.update(i, v);
    if i == slots.len() - 1 {
        assert(t.drop_last() =~= slots.drop_last());
    } else {
        assert(t.drop_last() =~= slots.drop_last().update(i, v));
        lemma_live_count_update(slots.drop_last(), i, v);
    }
}

/// Number of live slots.
pub open spec fn live_count(slots: Seq<(u32, bool)>) -> nat
    decreases slots.len(),
{
    if slots.len() == 0 {
        0
    } else {
        live_count(slots.drop_last()) + (if slots.last().1 { 1nat } else { 0nat })
    }
}

/// A despawned handle never comes back: despawning a live handle retires
/// it, a retired handle is not alive, and it stays retired through every
/// later spawn (given what `spawn` does to the slots) and despawn (given
/// what `despawn` does to them).
pub proof fn lemma_despawned_handle_stays_dead(
    before: EntitySlots,
    after: EntitySlots,
    h: EntityHandle,
    g: EntityHandle,
)
    requires
        before.wf(),
        before.retired(g) || g == h,
        // `after` is `before` with `h` despawned
        before.alive(h) ==> after.spec_slots() == before.spec_slots().update(h.index as int, (h.generation, false)),
        !before.alive(h) ==> after.spec_slots() == before.spec_slots(),
        g == h ==> before.alive(h),
    ensures
        after.retired(g),
        !after.alive(g),
{
}

/// Spawning keeps a retired handle retired, so the new entity is never
/// reachable through an old handle of its slot.
pub proof fn lemma_spawn_keeps_retired(before: EntitySlots, after: EntitySlots, n: EntityHandle, g: EntityHandle)
    requires
        before.wf(),
        before.retired(g),
        // `after` is `before` with `n` spawned
        before.spec_free().len() > 0 ==> {
            &&& n.index == before.spec_free().last()
            &&& n.generation == before.spec_slots()[n.index as int].0 + 1
            &&& after.spec_slots() == before.spec_slots().update(n.index as int, (n.generation, true))
        },
        before.spec_free().len() == 0 ==> {
            &&& n.index == before.spec_slots().len()
            &&& n.generation == 0
            &&& after.spec_slots() == before.spec_slots().push((0u32, true))
        },
    ensures
        after.retired(g),
        !after.alive(g),
        n != g,
{
}

/// Two spawns in a row hand out two different slots, so a freed slot is
/// handed out once: both new entities are alive afterwards and the live
/// count has grown by two (given what `spawn` promises of each call).
pub proof fn lemma_two_spawns_use_two_slots(
    s1: EntitySlots,
    s2: EntitySlots,
    s3: EntitySlots,
    b: EntityHandle,
    c: EntityHandle,
)
    requires
        // `s2` is `s1` after a spawn that returned `b`
        s2.alive(b),
        live_count(s2.spec_slots()) == live_count(s1.spec_slots()) + 1,
        // `s3` is `s2` after a spawn that returned `c`
        s3.alive(c),
        !s2.alive(c),
        forall|g: EntityHandle| g != c ==> #[trigger] s3.alive(g) == s2.alive(g),
        live_count(s3.spec_slots()) == live_count(s2.spec_slots()) + 1,
    ensures
        b != c,
        b.index != c.index,
        s3.alive(b),
        s3.alive(c),
        live_count(s3.spec_slots()) == live_count(s1.spec_slots()) + 2,
{
    assert(s3.alive(b) == s2.alive(b));
}

} // verus!
