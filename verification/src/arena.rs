//! Generation-checked slot storage: values live in slots, and the handles
//! that name them are refused once the slot was invalidated.

use vstd::prelude::*;
use crate::error::Error;

verus! {

/// A copyable reference to one slot of an [`Arena`]. It owns nothing: any
/// number of handles may name the same slot, and a handle outlives the value
/// it names without keeping it alive.
#[derive(Clone, Copy, Debug, PartialEq, Eq, Hash, Structural)]
pub struct Handle {
    pub index: usize,
    pub generation: u64,
}

/// What a slot currently stores.
pub enum Entry<T> {
    /// The slot was invalidated: it waits to be handed out again, under
    /// its next generation.
    Released,
    /// The slot is reserved but holds no value.
    Vacant,
    /// The slot holds a value.
    Full(T),
}

/// One generation-tagged storage cell.
pub struct Slot<T> {
    pub generation: u64,
    pub entry: Entry<T>,
}

/// Generation-checked slot storage. A slot that was invalidated is handed
/// out again, under a generation that no earlier handle carries; a slot
/// whose generations are used up is retired.
pub struct Arena<T> {
    slots: Vec<Slot<T>>,
    free: Vec<usize>,
}

/// The handle names a slot of `slots` that has not been invalidated since
/// the handle was issued.
pub open spec fn live<T>(slots: Seq<Slot<T>>, h: Handle) -> bool {
    &&& h.index < slots.len()
    &&& slots[h.index as int].generation == h.generation
    &&& !(slots[h.index as int].entry is Released)
}

/// The handle is live and its slot holds a value.
pub open spec fn holds<T>(slots: Seq<Slot<T>>, h: Handle) -> bool {
    &&& live(slots, h)
    &&& slots[h.index as int].entry is Full
}

/// The value in the slot that `h` names, meaningful where `holds(slots, h)`.
pub open spec fn content<T>(slots: Seq<Slot<T>>, h: Handle) -> T {
    slots[h.index as int].entry->Full_0
}

/// The slot after its value, if any, was replaced by `value`.
pub open spec fn filled<T>(slot: Slot<T>, value: T) -> Slot<T> {
    Slot { generation: slot.generation, entry: Entry::Full(value) }
}

/// The slot after its value was taken out.
pub open spec fn vacated<T>(slot: Slot<T>) -> Slot<T> {
    Slot { generation: slot.generation, entry: Entry::Vacant }
}

/// The generation that follows `generation`; the last one is its own successor.
pub open spec fn next_generation(generation: u64) -> u64 {
    if generation < u64::MAX {
        (generation + 1) as u64
    } else {
        generation
    }
}

/// The slot after it was invalidated.
pub open spec fn released<T>(slot: Slot<T>) -> Slot<T> {
    Slot { generation: next_generation(slot.generation), entry: Entry::Released }
}

/// `free` is a pool for `slots`: it lists, once each, invalidated slots
/// that have a generation left; every slot in use has one left too; and
/// the slots can be counted by a machine integer.
pub open spec fn pooled<T>(slots: Seq<Slot<T>>, free: Seq<usize>) -> bool {
    &&& slots.len() <= usize::MAX
    &&& free.no_duplicates()
    &&& forall|k: int|
        0 <= k < free.len() ==> (#[trigger] free[k]) < slots.len()
            && slots[free[k] as int].entry is Released && slots[free[k] as int].generation
            < u64::MAX
    &&& forall|i: int|
        0 <= i < slots.len() && !((#[trigger] slots[i]).entry is Released) ==> slots[i].generation
            < u64::MAX
}

/// The handle that the next allocation returns: that of the slot pooled
/// last, or of a new slot where the pool is empty.
pub open spec fn next_handle<T>(slots: Seq<Slot<T>>, free: Seq<usize>) -> Handle {
    if free.len() == 0 {
        Handle { index: slots.len() as usize, generation: 0 }
    } else {
        Handle { index: free.last(), generation: slots[free.last() as int].generation }
    }
}

/// The slots after the next allocation.
pub open spec fn reserved<T>(slots: Seq<Slot<T>>, free: Seq<usize>) -> Seq<Slot<T>> {
    if free.len() == 0 {
        slots.push(Slot { generation: 0, entry: Entry::Vacant })
    } else {
        slots.update(free.last() as int, vacated(slots[free.last() as int]))
    }
}

/// The pool after the next allocation.
pub open spec fn pool_after_reserve(free: Seq<usize>) -> Seq<usize> {
    if free.len() == 0 {
        free
    } else {
        free.drop_last()
    }
}

/// The pool after the slot that `h` names was invalidated: the slot joins
/// the pool unless its generations are used up.
pub open spec fn pool_after_release<T>(slots: Seq<Slot<T>>, free: Seq<usize>, h: Handle) -> Seq<usize> {
    if live(slots, h) && next_generation(h.generation) < u64::MAX {
        free.push(h.index)
    } else {
        free
    }
}

/// `h` was issued for `slots`: it names a slot under an earlier
/// generation, or under its current one if the slot is in use.
pub open spec fn issued<T>(slots: Seq<Slot<T>>, h: Handle) -> bool {
    &&& h.index < slots.len()
    &&& (h.generation < slots[h.index as int].generation || (h.generation
        == slots[h.index as int].generation && !(slots[h.index as int].entry is Released)))
}

/// `later` are the slots `earlier` some operations on, whatever they
/// hold: no slot is gone or back at an earlier generation, and a slot in
/// use is released only into a later generation.
pub open spec fn succeeds<T, U>(earlier: Seq<Slot<T>>, later: Seq<Slot<U>>) -> bool {
    &&& earlier.len() <= later.len()
    &&& forall|i: int|
        0 <= i < earlier.len() ==> earlier[i].generation <= (#[trigger] later[i]).generation && (
        earlier[i].generation == later[i].generation && !(earlier[i].entry is Released) ==> !(
        later[i].entry is Released))
}

/// Operations on operations are operations.
pub proof fn lemma_succeeds_trans<T, U, W>(a: Seq<Slot<T>>, b: Seq<Slot<U>>, c: Seq<Slot<W>>)
    requires
        succeeds(a, b),
        succeeds(b, c),
    ensures
        succeeds(a, c),
{
    assert forall|i: int| 0 <= i < a.len() implies a[i].generation <= (#[trigger] c[i]).generation
        && (a[i].generation == c[i].generation && !(a[i].entry is Released) ==> !(c[i].entry
        is Released)) by {
        assert(a[i].generation <= b[i].generation);
        assert(b[i].generation <= c[i].generation);
    }
}

/// A handle that was issued stays issued.
pub proof fn lemma_issued_succeeds<T, U>(earlier: Seq<Slot<T>>, later: Seq<Slot<U>>, h: Handle)
    requires
        issued(earlier, h),
        succeeds(earlier, later),
    ensures
        issued(later, h),
{
    assert(earlier[h.index as int].generation <= later[h.index as int].generation);
}

/// The handle that the next allocation returns was not issued before.
pub proof fn lemma_next_not_issued<T>(slots: Seq<Slot<T>>, free: Seq<usize>)
    requires
        pooled(slots, free),
    ensures
        !issued(slots, next_handle(slots, free)),
{
    if free.len() > 0 {
        assert(slots[free[free.len() - 1] as int].entry is Released);
    }
}

/// Allocating invalidates nothing and revives nothing.
pub proof fn lemma_reserve_succeeds<T>(slots: Seq<Slot<T>>, free: Seq<usize>)
    requires
        pooled(slots, free),
    ensures
        succeeds(slots, reserved(slots, free)),
{
    if free.len() > 0 {
        assert(slots[free[free.len() - 1] as int].entry is Released);
    }
}

/// `view` are the slots `slots` with what they hold seen through `map`,
/// which keeps the generation of a slot and whether it is released, vacant
/// or full.
pub open spec fn mapped<T, U>(slots: Seq<Slot<T>>, view: Seq<Slot<U>>, map: spec_fn(Slot<T>) -> Slot<U>) -> bool {
    &&& view.len() == slots.len()
    &&& forall|i: int| 0 <= i < slots.len() ==> #[trigger] view[i] == map(slots[i])
    &&& forall|s: Slot<T>|
        (#[trigger] map(s)).generation == s.generation && (map(s).entry is Released
            <==> s.entry is Released) && (map(s).entry is Vacant <==> s.entry is Vacant)
}

/// A pool for slots is a pool for their view, and hands out the same
/// handles.
pub proof fn lemma_mapped_pool<T, U>(
    slots: Seq<Slot<T>>,
    view: Seq<Slot<U>>,
    map: spec_fn(Slot<T>) -> Slot<U>,
    free: Seq<usize>,
)
    requires
        mapped(slots, view, map),
    ensures
        pooled(view, free) == pooled(slots, free),
        pooled(slots, free) ==> next_handle(view, free) == next_handle(slots, free),
        pooled(slots, free) ==> mapped(reserved(slots, free), reserved(view, free), map),
        forall|h: Handle| #[trigger]
            live(view, h) == live(slots, h) && pool_after_release(view, free, h)
                == pool_after_release(slots, free, h),
{
    assert forall|i: int| 0 <= i < slots.len() implies (#[trigger] view[i]).generation
        == slots[i].generation && (view[i].entry is Released <==> slots[i].entry is Released) by {
        assert(view[i] == map(slots[i]));
    }
    if pooled(slots, free) {
        assert forall|k: int| 0 <= k < free.len() implies (#[trigger] free[k]) < view.len()
            && view[free[k] as int].entry is Released && view[free[k] as int].generation
            < u64::MAX by {
            assert(slots[free[k] as int].entry is Released);
        }
        let after = reserved(slots, free);
        let seen = reserved(view, free);
        assert forall|i: int| 0 <= i < after.len() implies #[trigger] seen[i] == map(after[i]) by {
            if free.len() > 0 && i == free.last() {
                assert(map(after[i]).generation == after[i].generation);
                assert(map(after[i]).entry is Vacant);
            } else if i < slots.len() {
                assert(view[i] == map(slots[i]));
            } else {
                assert(map(after[i]).generation == after[i].generation);
                assert(map(after[i]).entry is Vacant);
            }
        }
    }
    if pooled(view, free) {
        assert forall|k: int| 0 <= k < free.len() implies (#[trigger] free[k]) < slots.len()
            && slots[free[k] as int].entry is Released && slots[free[k] as int].generation
            < u64::MAX by {
            assert(view[free[k] as int].entry is Released);
        }
        assert forall|i: int|
            0 <= i < slots.len() && !((#[trigger] slots[i]).entry is Released) implies slots[i].generation
            < u64::MAX by {
            assert(!(view[i].entry is Released));
        }
    }
}

/// Allocating from a pool leaves a pool.
pub proof fn lemma_reserve_pooled<T>(slots: Seq<Slot<T>>, free: Seq<usize>)
    requires
        pooled(slots, free),
        reserved(slots, free).len() <= usize::MAX,
    ensures
        pooled(reserved(slots, free), pool_after_reserve(free)),
        live(reserved(slots, free), next_handle(slots, free)),
        !holds(reserved(slots, free), next_handle(slots, free)),
{
    let after = reserved(slots, free);
    let pool = pool_after_reserve(free);
    if free.len() > 0 {
        let i = free.last();
        assert(free[free.len() - 1] == i);
        assert forall|k: int| 0 <= k < pool.len() implies (#[trigger] pool[k]) < after.len()
            && after[pool[k] as int].entry is Released && after[pool[k] as int].generation
            < u64::MAX by {
            assert(pool[k] == free[k]);
            assert(free[k] != free[free.len() - 1]);
        }
    }
}

/// Invalidating a slot of a pool leaves a pool.
pub proof fn lemma_release_pooled<T>(slots: Seq<Slot<T>>, free: Seq<usize>, h: Handle)
    requires
        pooled(slots, free),
        live(slots, h),
    ensures
        pooled(slots.update(h.index as int, released(slots[h.index as int])), pool_after_release(
            slots,
            free,
            h,
        )),
{
    let after = slots.update(h.index as int, released(slots[h.index as int]));
    let pool = pool_after_release(slots, free, h);
    assert(slots[h.index as int].generation < u64::MAX);
    assert forall|k: int| 0 <= k < free.len() implies (#[trigger] free[k]) != h.index by {
        assert(slots[free[k] as int].entry is Released);
    }
    assert forall|k: int| 0 <= k < pool.len() implies (#[trigger] pool[k]) < after.len()
        && after[pool[k] as int].entry is Released && after[pool[k] as int].generation
        < u64::MAX by {
        if k < free.len() {
            assert(pool[k] == free[k]);
        }
    }
    assert forall|i: int, j: int| 0 <= i < pool.len() && 0 <= j < pool.len() && i != j implies pool[i]
        != pool[j] by {
        if i < free.len() && j < free.len() {
            assert(pool[i] == free[i] && pool[j] == free[j]);
        } else if i < free.len() {
            assert(pool[i] == free[i]);
        } else if j < free.len() {
            assert(pool[j] == free[j]);
        }
    }
}

/// Replacing what a slot in use holds leaves the pool a pool.
pub proof fn lemma_update_pooled<T>(slots: Seq<Slot<T>>, free: Seq<usize>, i: int, slot: Slot<T>)
    requires
        pooled(slots, free),
        0 <= i < slots.len(),
        !(slots[i].entry is Released),
        !(slot.entry is Released),
        slot.generation == slots[i].generation,
    ensures
        pooled(slots.update(i, slot), free),
{
    let after = slots.update(i, slot);
    assert forall|k: int| 0 <= k < free.len() implies (#[trigger] free[k]) < after.len()
        && after[free[k] as int].entry is Released && after[free[k] as int].generation
        < u64::MAX by {
        assert(slots[free[k] as int].entry is Released);
    }
}

impl<T> View for Arena<T> {
    type V = Seq<Slot<T>>;

    closed spec fn view(&self) -> Seq<Slot<T>> {
        self.slots@
    }
}

impl<T> Arena<T> {
    /// The invalidated slots that wait to be handed out again; the one
    /// that is handed out next is the last.
    pub closed spec fn pool(&self) -> Seq<usize> {
        self.free@
    }

    /// The arena's invariant: its pool is a pool for its slots.
    pub open spec fn wf(&self) -> bool {
        pooled(self@, self.pool())
    }

    /// An arena without slots.
    pub fn new() -> (arena: Self)
        ensures
            arena.wf(),
            arena@ == Seq::<Slot<T>>::empty(),
            arena.pool() == Seq::<usize>::empty(),
    {
        Arena { slots: Vec::new(), free: Vec::new() }
    }

    /// The handle that the next allocation returns.
    pub fn upcoming(&self) -> (h: Handle)
        requires
            self.wf(),
        ensures
            h == next_handle(self@, self.pool()),
    {
        let n: usize = self.free.len();
        if n == 0 {
            Handle { index: self.slots.len(), generation: 0 }
        } else {
            let index: usize = self.free[n - 1];
            Handle { index, generation: self.slots[index].generation }
        }
    }

    /// The number of slots ever allocated.
    pub fn len(&self) -> (n: usize)
        ensures
            n == self@.len(),
    {
        self.slots.len()
    }

    /// Reserves a slot, which holds no value yet, and returns its handle:
    /// an invalidated slot where one waits, else a new one. No handle
    /// issued before names the slot under this generation.
    pub fn allocate(&mut self) -> (h: Handle)
        requires
            old(self).wf(),
        ensures
            final(self).wf(),
            h == next_handle(old(self)@, old(self).pool()),
            final(self)@ == reserved(old(self)@, old(self).pool()),
            final(self).pool() == pool_after_reserve(old(self).pool()),
            live(final(self)@, h),
            !holds(final(self)@, h),
    {
        let h = match self.free.pop() {
            Some(index) => {
                let generation: u64 = self.slots[index].generation;
                self.slots[index] = Slot { generation, entry: Entry::Vacant };
                Handle { index, generation }
            },
            None => {
                let index: usize = self.slots.len();
                self.slots.push(Slot { generation: 0, entry: Entry::Vacant });
                Handle { index, generation: 0 }
            },
        };
        proof {
            assert(self.slots.len() == self.slots@.len());
            lemma_reserve_pooled(old(self)@, old(self).pool());
        }
        h
    }

    /// Whether the handle names a slot that was not invalidated since.
    pub fn is_live(&self, h: Handle) -> (b: bool)
        ensures
            b == live(self@, h),
    {
        if h.index < self.slots.len() {
            let slot = &self.slots[h.index];
            slot.generation == h.generation && !matches!(slot.entry, Entry::Released)
        } else {
            false
        }
    }

    /// Whether the handle names a slot that holds a value.
    pub fn contains(&self, h: Handle) -> (b: bool)
        ensures
            b == holds(self@, h),
    {
        if h.index < self.slots.len() {
            let slot = &self.slots[h.index];
            slot.generation == h.generation && matches!(slot.entry, Entry::Full(_))
        } else {
            false
        }
    }

    /// The live handle of the slot at `index`, if that slot was not invalidated.
    pub fn handle_at(&self, index: usize) -> (r: Option<Handle>)
        ensures
            match r {
                Some(h) => h.index == index && live(self@, h),
                None => index >= self@.len() || self@[index as int].entry is Released,
            },
    {
        if index < self.slots.len() {
            let slot = &self.slots[index];
            if matches!(slot.entry, Entry::Released) {
                None
            } else {
                Some(Handle { index, generation: slot.generation })
            }
        } else {
            None
        }
    }

    /// Borrows the value that `h` names.
    pub fn read(&self, h: Handle) -> (r: Result<&T, Error>)
        ensures
            holds(self@, h) ==> r == Ok::<&T, Error>(&content(self@, h)),
            !holds(self@, h) ==> r == Err::<&T, Error>(Error::UseAfterInvalidate),
    {
        if h.index < self.slots.len() {
            let slot = &self.slots[h.index];
            if slot.generation == h.generation {
                match &slot.entry {
                    Entry::Full(value) => Ok(value),
                    _ => Err(Error::UseAfterInvalidate),
                }
            } else {
                Err(Error::UseAfterInvalidate)
            }
        } else {
            Err(Error::UseAfterInvalidate)
        }
    }

    /// Initialises the reserved, still empty slot that `h` names.
    pub fn fill(&mut self, h: Handle, value: T) -> (r: Result<(), Error>)
        ensures
            final(self).pool() == old(self).pool(),
            old(self).wf() ==> final(self).wf(),
            live(old(self)@, h) && !holds(old(self)@, h) ==> r.is_ok() && final(self)@ == old(self)@.update(h.index as int, filled(old(self)@[h.index as int], value)),
            !(live(old(self)@, h) && !holds(old(self)@, h)) ==> r == Err::<(), Error>(
                Error::UseAfterInvalidate,
            ) && final(self)@ == old(self)@,
    {
        if h.index < self.slots.len() {
            let slot = &self.slots[h.index];
            if slot.generation == h.generation && matches!(slot.entry, Entry::Vacant) {
                proof {
                    if self.wf() {
                        lemma_update_pooled(
                            self@,
                            self.pool(),
                            h.index as int,
                            filled(self@[h.index as int], value),
                        );
                    }
                }
                self.slots[h.index] = Slot { generation: h.generation, entry: Entry::Full(value) };
                return Ok(());
            }
        }
        Err(Error::UseAfterInvalidate)
    }

    /// Replaces the value that `h` names. Nobody is notified.
    pub fn write(&mut self, h: Handle, value: T) -> (r: Result<(), Error>)
        ensures
            final(self).pool() == old(self).pool(),
            old(self).wf() ==> final(self).wf(),
            holds(old(self)@, h) ==> r.is_ok() && final(self)@ == old(self)@.update(
                h.index as int,
                filled(old(self)@[h.index as int], value),
            ),
            !holds(old(self)@, h) ==> r == Err::<(), Error>(Error::UseAfterInvalidate) && final(self)@ == old(self)@,
    {
        if self.contains(h) {
            proof {
                if self.wf() {
                    lemma_update_pooled(
                        self@,
                        self.pool(),
                        h.index as int,
                        filled(self@[h.index as int], value),
                    );
                }
            }
            self.slots[h.index] = Slot { generation: h.generation, entry: Entry::Full(value) };
            Ok(())
        } else {
            Err(Error::UseAfterInvalidate)
        }
    }

    /// Moves the value that `h` names out of its slot, which stays reserved.
    pub fn take(&mut self, h: Handle) -> (r: Result<T, Error>)
        ensures
            final(self).pool() == old(self).pool(),
            old(self).wf() ==> final(self).wf(),
            holds(old(self)@, h) ==> r == Ok::<T, Error>(content(old(self)@, h)) && final(self)@
                == old(self)@.update(h.index as int, vacated(old(self)@[h.index as int])),
            !holds(old(self)@, h) ==> r == Err::<T, Error>(Error::UseAfterInvalidate) && final(self)@ == old(self)@,
    {
        if self.contains(h) {
            proof {
                if self.wf() {
                    lemma_update_pooled(
                        self@,
                        self.pool(),
                        h.index as int,
                        vacated(self@[h.index as int]),
                    );
                }
            }
            let mut slot = Slot { generation: h.generation, entry: Entry::Vacant };
            core::mem::swap(&mut self.slots[h.index], &mut slot);
            match slot.entry {
                Entry::Full(value) => Ok(value),
                _ => Err(Error::UseAfterInvalidate),
            }
        } else {
            Err(Error::UseAfterInvalidate)
        }
    }

    /// Ends the life of the slot that `h` names: its value is dropped, its
    /// generation moves on, and every handle to it is stale from now on.
    /// Returns whether the handle was live.
    pub fn invalidate(&mut self, h: Handle) -> (was_live: bool)
        requires
            old(self).wf(),
        ensures
            final(self).wf(),
            was_live == live(old(self)@, h),
            was_live ==> final(self)@ == old(self)@.update(
                h.index as int,
                released(old(self)@[h.index as int]),
            ),
            !was_live ==> final(self)@ == old(self)@,
            final(self).pool() == pool_after_release(old(self)@, old(self).pool(), h),
            !live(final(self)@, h),
    {
        if self.is_live(h) {
            proof {
                lemma_release_pooled(self@, self.pool(), h);
            }
            let generation: u64 = h.generation + 1;
            self.slots[h.index] = Slot { generation, entry: Entry::Released };
            if generation < u64::MAX {
                self.free.push(h.index);
            }
            true
        } else {
            false
        }
    }
}

} // verus!
