//! The runtime: the owner of all cells and effects, and the operations that
//! read, write, register and tear down.

use vstd::prelude::*;
use crate::arena::{
    content, filled, holds, issued, lemma_mapped_pool, lemma_release_pooled, lemma_update_pooled,
    live, next_handle,
    pool_after_release, pool_after_reserve, pooled, released, reserved, vacated, Arena, Entry,
    Handle, Slot,
};
use crate::effect::Effect;
use crate::error::Error;
use crate::graph::{
    after_run, after_runs, discovered, effect_created, error_of, failed, idle_count,
    lemma_idle_count_update, lemma_readers_distinct, lemma_registered_wf,
    lemma_sound_with_reader, lemma_wf_kept, lemma_with_new_signal, lemma_with_signal_inv,
    held_reads, offered, propagated, registered, run_error, run_failed, selector_created,
    same_cell, selector_registered, signal_slot, stored_where_full,
    signal_slots, signal_state, subscribe_all, valid_run, valid_runs, EffectState, Graph, Run,
};
use crate::frame::{
    lemma_evaluated_apart, lemma_held_reads, lemma_registered_keeps, lemma_registered_later,
    lemma_registered_next_signal, lemma_write_later,
};
use crate::laws::{is_selector_cell, lemma_first_reading_subscribes};
use crate::scope::ScopeId;
use crate::signal::{
    add_effect, add_scope, append_scopes, copy_effects, lemma_with_member, lemma_without_member,
    remove_effect, remove_scope, ReadOnlySignal, Signal, SignalData,
};
use crate::stack::EffectStack;
use crate::tracker::{Procedure, Tracker};

verus! {

/// What the slot of an effect stores: the scope that owns it, the cell it
/// keeps current (a selector has one, a plain effect has none), and its
/// procedure.
#[verifier::reject_recursive_types(V)]
struct EffectBody<V> {
    owner: ScopeId,
    target: Option<Signal>,
    procedure: Procedure<V>,
}

spec fn effect_slot<V>(slot: Slot<EffectBody<V>>) -> Slot<EffectState> {
    Slot {
        generation: slot.generation,
        entry: match slot.entry {
            Entry::Released => Entry::Released,
            Entry::Vacant => Entry::Vacant,
            Entry::Full(body) => Entry::Full(EffectState { owner: body.owner, target: body.target }),
        },
    }
}

spec fn effect_slots<V>(slots: Seq<Slot<EffectBody<V>>>) -> Seq<Slot<EffectState>> {
    Seq::new(slots.len(), |i: int| effect_slot(slots[i]))
}

spec fn stored_procedure<V>(slot: Slot<EffectBody<V>>) -> Option<Procedure<V>> {
    if slot.entry is Full {
        Some(slot.entry->Full_0.procedure)
    } else {
        None
    }
}

spec fn procedures_of<V>(slots: Seq<Slot<EffectBody<V>>>) -> Seq<Option<Procedure<V>>> {
    Seq::new(slots.len(), |i: int| stored_procedure(slots[i]))
}

/// The reactive graph: it owns every cell and every effect, hands out
/// copyable names for them, discovers what each effect reads, and keeps the
/// graph consistent when a cell is written.
#[verifier::reject_recursive_types(V)]
pub struct Runtime<V> {
    signals: Arena<SignalData<V>>,
    effects: Arena<EffectBody<V>>,
    stack: EffectStack,
    scheduled: Vec<ScopeId>,
}

impl<V> View for Runtime<V> {
    type V = Graph<V>;

    closed spec fn view(&self) -> Graph<V> {
        Graph {
            signals: signal_slots(self.signals@),
            signal_pool: self.signals.pool(),
            effects: effect_slots(self.effects@),
            effect_pool: self.effects.pool(),
            procedures: procedures_of(self.effects@),
            scheduled: self.scheduled@,
        }
    }
}

impl<V: Copy + PartialEq> Runtime<V> {
    /// The effects that are being evaluated, innermost last.
    pub closed spec fn frames(&self) -> Seq<Effect> {
        self.stack@
    }

    /// The state between two operations: the graph is well formed and
    /// nothing is being evaluated.
    pub open spec fn wf(&self) -> bool {
        &&& self@.wf()
        &&& self.frames().len() == 0
    }

    /// A runtime without cells and effects.
    pub fn new() -> (rt: Self)
        ensures
            rt.wf(),
            rt@ == Graph::<V>::empty(),
    {
        let rt = Runtime {
            signals: Arena::new(),
            effects: Arena::new(),
            stack: EffectStack::new(),
            scheduled: Vec::new(),
        };
        assert(rt@.signals =~= Seq::empty());
        assert(rt@.effects =~= Seq::empty());
        assert(rt@.procedures =~= Seq::empty());
        assert(rt@ == Graph::<V>::empty());
        rt
    }

    /// Creates a cell that `owner` owns and that holds `value`.
    pub fn create_signal(&mut self, owner: ScopeId, value: V) -> (s: Signal)
        requires
            old(self).wf(),
        ensures
            final(self).wf(),
            final(self)@.later_than(old(self)@),
            s == old(self)@.next_signal(),
            final(self)@ == old(self)@.with_new_signal(owner, value),
            !old(self)@.has_signal(s),
            final(self)@.has_signal(s),
            final(self)@.signal(s).value == value,
            final(self)@.signal(s).owner == owner,
            final(self)@.signal(s).effect_subscribers == Seq::<Effect>::empty(),
            final(self)@.signal(s).subscribers == Seq::<ScopeId>::empty(),
            forall|other: Signal| #[trigger]
                old(self)@.has_signal(other) ==> final(self)@.has_signal(other) && final(
                    self)@.signal(other) == old(self)@.signal(other),
    {
        let data = SignalData {
            value,
            subscribers: Vec::new(),
            effect_subscribers: Vec::new(),
            owner,
        };
        let ghost state = signal_state(data);
        assert(state.subscribers =~= Seq::empty());
        assert(state.effect_subscribers =~= Seq::empty());
        let s = self.reserve_signal();
        self.init_signal(s, data);
        proof {
            lemma_with_new_signal(old(self)@, owner, value);
        }
        s
    }

    /// The value of `signal`. Nobody is registered as a reader.
    pub fn peek(&self, signal: ReadOnlySignal) -> (r: Result<V, Error>)
        ensures
            self@.has_signal(signal.source()) ==> r == Ok::<V, Error>(
                self@.signal(signal.source()).value,
            ),
            !self@.has_signal(signal.source()) ==> r == Err::<V, Error>(Error::UseAfterInvalidate),
    {
        match self.signals.read(signal.cell().inner) {
            Ok(data) => Ok(data.value),
            Err(e) => Err(e),
        }
    }

    /// The value of `signal`, read by the plain consumer `consumer`, which
    /// is registered as a reader: an update of it is requested whenever the
    /// cell is written.
    pub fn read(&mut self, signal: ReadOnlySignal, consumer: ScopeId) -> (r: Result<V, Error>)
        requires
            old(self).wf(),
        ensures
            final(self).wf(),
            final(self)@.later_than(old(self)@),
            old(self)@.has_signal(signal.source()) ==> r == Ok::<V, Error>(
                old(self)@.signal(signal.source()).value,
            ) && final(self)@ == old(self)@.watched(consumer, signal.source()),
            !old(self)@.has_signal(signal.source()) ==> r == Err::<V, Error>(
                Error::UseAfterInvalidate,
            ) && final(self)@ == old(self)@,
    {
        let cell = signal.cell();
        match self.lift_signal(cell) {
            Some(data) => {
                let mut data = data;
                let value = data.value;
                add_scope(&mut data.subscribers, consumer);
                proof {
                    lemma_readers_distinct(old(self)@, cell);
                    lemma_with_member(old(self)@.signal(cell).subscribers, consumer);
                    lemma_with_signal_inv(old(self)@, cell, signal_state(data));
                }
                self.init_signal(cell, data);
                assert(self@.signals =~= old(self)@.watched(consumer, cell).signals);
                Ok(value)
            },
            None => Err(Error::UseAfterInvalidate),
        }
    }

    /// Takes the plain consumer `consumer` off the readers of `signal`.
    pub fn unsubscribe(&mut self, signal: ReadOnlySignal, consumer: ScopeId) -> (r: Result<
        (),
        Error,
    >)
        requires
            old(self).wf(),
        ensures
            final(self).wf(),
            final(self)@.later_than(old(self)@),
            old(self)@.has_signal(signal.source()) ==> r.is_ok() && final(self)@ == old(
                self)@.unwatched(consumer, signal.source()),
            !old(self)@.has_signal(signal.source()) ==> r == Err::<(), Error>(
                Error::UseAfterInvalidate,
            ) && final(self)@ == old(self)@,
    {
        let cell = signal.cell();
        match self.lift_signal(cell) {
            Some(data) => {
                let mut data = data;
                proof {
                    lemma_readers_distinct(old(self)@, cell);
                    lemma_without_member(old(self)@.signal(cell).subscribers, consumer);
                }
                remove_scope(&mut data.subscribers, consumer);
                proof {
                    lemma_with_signal_inv(old(self)@, cell, signal_state(data));
                }
                self.init_signal(cell, data);
                assert(self@.signals =~= old(self)@.unwatched(consumer, cell).signals);
                Ok(())
            },
            None => Err(Error::UseAfterInvalidate),
        }
    }

    /// Takes the effect `effect` off the readers of `signal`. Nothing else
    /// ever removes an effect from a cell's readers.
    pub fn unsubscribe_effect(&mut self, signal: ReadOnlySignal, effect: Effect) -> (r: Result<
        (),
        Error,
    >)
        requires
            old(self).wf(),
        ensures
            final(self).wf(),
            final(self)@.later_than(old(self)@),
            old(self)@.has_signal(signal.source()) ==> r.is_ok() && final(self)@ == old(
                self)@.unsubscribed(effect, signal.source()),
            !old(self)@.has_signal(signal.source()) ==> r == Err::<(), Error>(
                Error::UseAfterInvalidate,
            ) && final(self)@ == old(self)@,
    {
        let cell = signal.cell();
        match self.lift_signal(cell) {
            Some(data) => {
                let mut data = data;
                proof {
                    lemma_readers_distinct(old(self)@, cell);
                    lemma_without_member(old(self)@.signal(cell).effect_subscribers, effect);
                }
                remove_effect(&mut data.effect_subscribers, effect);
                proof {
                    lemma_with_signal_inv(old(self)@, cell, signal_state(data));
                }
                self.init_signal(cell, data);
                assert(self@.signals =~= old(self)@.unsubscribed(effect, cell).signals);
                Ok(())
            },
            None => Err(Error::UseAfterInvalidate),
        }
    }

    /// Hands over the consumers whose update was requested since the last
    /// call, oldest request first. A consumer is listed once for each request.
    pub fn take_scheduled(&mut self) -> (requests: Vec<ScopeId>)
        requires
            old(self).wf(),
        ensures
            final(self).wf(),
            final(self)@.later_than(old(self)@),
            requests@ == old(self)@.scheduled,
            final(self)@ == old(self)@.collected(),
    {
        let mut requests: Vec<ScopeId> = Vec::new();
        core::mem::swap(&mut self.scheduled, &mut requests);
        requests
    }
}

proof fn lemma_signal_slots_update<V>(slots: Seq<Slot<SignalData<V>>>, i: int, slot: Slot<SignalData<V>>)
    requires
        0 <= i < slots.len(),
    ensures
        signal_slots(slots.update(i, slot)) == signal_slots(slots).update(i, signal_slot(slot)),
{
    assert(signal_slots(slots.update(i, slot)) =~= signal_slots(slots).update(i, signal_slot(slot)));
}

proof fn lemma_effect_slots_update<V>(slots: Seq<Slot<EffectBody<V>>>, i: int, slot: Slot<EffectBody<V>>)
    requires
        0 <= i < slots.len(),
    ensures
        effect_slots(slots.update(i, slot)) == effect_slots(slots).update(i, effect_slot(slot)),
        procedures_of(slots.update(i, slot)) == procedures_of(slots).update(
            i,
            stored_procedure(slot),
        ),
{
    assert(effect_slots(slots.update(i, slot)) =~= effect_slots(slots).update(i, effect_slot(slot)));
    assert(procedures_of(slots.update(i, slot)) =~= procedures_of(slots).update(
        i,
        stored_procedure(slot),
    ));
}

/// Once an evaluation has failed, the readers that were still to come are
/// passed over: the evaluations made so far are those of the whole list.
proof fn lemma_aborted<V: PartialEq>(g: Graph<V>, snapshot: Seq<Effect>, k: int, runs: Seq<Run<V>>)
    requires
        0 <= k <= snapshot.len(),
        valid_runs(g, snapshot.take(k), runs),
        failed(runs),
    ensures
        valid_runs(g, snapshot, runs),
    decreases snapshot.len() - k,
{
    if k == snapshot.len() {
        assert(snapshot.take(k) =~= snapshot);
    } else {
        assert(snapshot.take(k + 1).drop_last() =~= snapshot.take(k));
        assert(valid_runs(g, snapshot.take(k + 1), runs));
        lemma_aborted(g, snapshot, k + 1, runs);
    }
}

proof fn lemma_signal_pool<V>(slots: Seq<Slot<SignalData<V>>>, free: Seq<usize>)
    ensures
        pooled(signal_slots(slots), free) == pooled(slots, free),
        pooled(slots, free) ==> next_handle(signal_slots(slots), free) == next_handle(slots, free),
        pooled(slots, free) ==> signal_slots(reserved(slots, free)) == reserved(
            signal_slots(slots),
            free,
        ),
        forall|h: Handle| #[trigger]
            live(signal_slots(slots), h) == live(slots, h) && pool_after_release(
                signal_slots(slots),
                free,
                h,
            ) == pool_after_release(slots, free, h),
{
    let map = |slot: Slot<SignalData<V>>| signal_slot(slot);
    lemma_mapped_pool(slots, signal_slots(slots), map, free);
    if pooled(slots, free) {
        assert(signal_slots(reserved(slots, free)) =~= reserved(signal_slots(slots), free));
    }
}

proof fn lemma_effect_pool<V>(slots: Seq<Slot<EffectBody<V>>>, free: Seq<usize>)
    ensures
        pooled(effect_slots(slots), free) == pooled(slots, free),
        pooled(slots, free) ==> next_handle(effect_slots(slots), free) == next_handle(slots, free),
        pooled(slots, free) ==> effect_slots(reserved(slots, free)) == reserved(
            effect_slots(slots),
            free,
        ),
        pooled(slots, free) ==> procedures_of(reserved(slots, free)) == (if free.len() == 0 {
            procedures_of(slots).push(None)
        } else {
            procedures_of(slots).update(free.last() as int, None)
        }),
        stored_where_full(effect_slots(slots), procedures_of(slots)),
        forall|h: Handle| #[trigger]
            live(effect_slots(slots), h) == live(slots, h) && pool_after_release(
                effect_slots(slots),
                free,
                h,
            ) == pool_after_release(slots, free, h),
{
    let map = |slot: Slot<EffectBody<V>>| effect_slot(slot);
    lemma_mapped_pool(slots, effect_slots(slots), map, free);
    if pooled(slots, free) {
        assert(effect_slots(reserved(slots, free)) =~= reserved(effect_slots(slots), free));
        if free.len() == 0 {
            assert(procedures_of(reserved(slots, free)) =~= procedures_of(slots).push(None));
        } else {
            assert(procedures_of(reserved(slots, free)) =~= procedures_of(slots).update(
                free.last() as int,
                None,
            ));
        }
    }
}

impl<V: Copy + PartialEq> Runtime<V> {
    /// Reserves the slot of a new cell.
    fn reserve_signal(&mut self) -> (s: Signal)
        requires
            old(self)@.inv(),
        ensures
            s == old(self)@.next_signal(),
            reserved(old(self)@.signals, old(self)@.signal_pool).len() <= usize::MAX,
            live(final(self)@.signals, s.inner),
            final(self)@.signals[s.inner.index as int].entry is Vacant,
            final(self)@ == (Graph {
                signals: reserved(old(self)@.signals, old(self)@.signal_pool),
                signal_pool: pool_after_reserve(old(self)@.signal_pool),
                ..old(self)@
            }),
            final(self).frames() == old(self).frames(),
    {
        proof {
            lemma_signal_pool(self.signals@, self.signals.pool());
        }
        let s = Signal { inner: self.signals.allocate() };
        proof {
            lemma_signal_pool(self.signals@, self.signals.pool());
        }
        s
    }

    /// Reserves the slot of a new effect of `owner`.
    fn reserve_effect(&mut self, owner: ScopeId) -> (e: Effect)
        requires
            old(self)@.inv(),
        ensures
            e == old(self)@.next_effect(owner),
            reserved(old(self)@.effects, old(self)@.effect_pool).len() <= usize::MAX,
            live(final(self)@.effects, e.callback),
            final(self)@.effects[e.callback.index as int].entry is Vacant,
            final(self)@ == old(self)@.with_new_effect(),
            final(self)@.inv(),
            final(self).frames() == old(self).frames(),
    {
        proof {
            lemma_effect_pool(self.effects@, self.effects.pool());
        }
        let e = Effect { source: owner, callback: self.effects.allocate() };
        proof {
            lemma_effect_pool(self.effects@, self.effects.pool());
        }
        e
    }

    /// Gives the reserved cell `s` its first content.
    fn init_signal(&mut self, s: Signal, data: SignalData<V>)
        requires
            live(old(self)@.signals, s.inner),
            old(self)@.signals[s.inner.index as int].entry is Vacant,
        ensures
            final(self)@ == old(self)@.with_signal(s, signal_state(data)),
            final(self).frames() == old(self).frames(),
    {
        proof {
            lemma_signal_slots_update(
                self.signals@,
                s.inner.index as int,
                filled(self.signals@[s.inner.index as int], data),
            );
        }
        let filled_ = self.signals.fill(s.inner, data);
    }

    /// Takes the content of the cell `s` out of its slot, which stays
    /// reserved until the content is put back.
    fn lift_signal(&mut self, s: Signal) -> (r: Option<SignalData<V>>)
        ensures
            final(self).frames() == old(self).frames(),
            match r {
                Some(data) => {
                    &&& old(self)@.has_signal(s)
                    &&& signal_state(data) == old(self)@.signal(s)
                    &&& live(final(self)@.signals, s.inner)
                    &&& final(self)@ == (Graph {
                        signals: old(self)@.signals.update(
                            s.inner.index as int,
                            vacated(old(self)@.signals[s.inner.index as int]),
                        ),
                        ..old(self)@
                    })
                },
                None => !old(self)@.has_signal(s) && final(self)@ == old(self)@,
            },
    {
        proof {
            if old(self)@.has_signal(s) {
                lemma_signal_slots_update(
                    self.signals@,
                    s.inner.index as int,
                    vacated(self.signals@[s.inner.index as int]),
                );
            }
        }
        match self.signals.take(s.inner) {
            Ok(data) => Some(data),
            Err(_) => None,
        }
    }

    /// Takes the procedure of the effect `e` out of its slot, which stays
    /// reserved until the procedure is put back.
    fn lift_effect(&mut self, e: Effect) -> (r: Option<EffectBody<V>>)
        ensures
            final(self).frames() == old(self).frames(),
            match r {
                Some(body) => {
                    &&& old(self)@.runnable(e)
                    &&& old(self)@.effect(e) == (EffectState {
                        owner: body.owner,
                        target: body.target,
                    })
                    &&& old(self)@.procedures[e.callback.index as int] == Some(body.procedure)
                    &&& live(final(self)@.effects, e.callback)
                    &&& final(self)@ == old(self)@.entered(e)
                },
                None => !old(self)@.runnable(e) && final(self)@ == old(self)@,
            },
            old(self)@.inv() ==> final(self)@.inv(),
    {
        proof {
            if old(self)@.runnable(e) {
                lemma_effect_slots_update(
                    self.effects@,
                    e.callback.index as int,
                    vacated(self.effects@[e.callback.index as int]),
                );
                if old(self)@.inv() {
                    lemma_update_pooled(
                        old(self)@.effects,
                        old(self)@.effect_pool,
                        e.callback.index as int,
                        vacated(old(self)@.effects[e.callback.index as int]),
                    );
                }
            }
        }
        match self.effects.take(e.callback) {
            Ok(body) => Some(body),
            Err(_) => None,
        }
    }

    /// Stores the procedure of the effect `e`, whose slot is vacant.
    fn install(&mut self, e: Effect, body: EffectBody<V>)
        requires
            live(old(self)@.effects, e.callback),
            old(self)@.effects[e.callback.index as int].entry is Vacant,
        ensures
            final(self)@ == old(self)@.left(
                e,
                EffectState { owner: body.owner, target: body.target },
                body.procedure,
            ),
            final(self).frames() == old(self).frames(),
            old(self)@.inv() ==> final(self)@.inv(),
    {
        proof {
            lemma_effect_slots_update(
                self.effects@,
                e.callback.index as int,
                filled(self.effects@[e.callback.index as int], body),
            );
            if old(self)@.inv() {
                lemma_update_pooled(
                    old(self)@.effects,
                    old(self)@.effect_pool,
                    e.callback.index as int,
                    filled(
                        old(self)@.effects[e.callback.index as int],
                        EffectState { owner: body.owner, target: body.target },
                    ),
                );
            }
        }
        let filled_ = self.effects.fill(e.callback, body);
    }

    /// Invalidates the slot of the cell `s`.
    fn discard_signal(&mut self, s: Signal)
        requires
            old(self)@.inv(),
            live(old(self)@.signals, s.inner),
        ensures
            final(self)@ == (Graph {
                signals: old(self)@.signals.update(
                    s.inner.index as int,
                    released(old(self)@.signals[s.inner.index as int]),
                ),
                signal_pool: pool_after_release(
                    old(self)@.signals,
                    old(self)@.signal_pool,
                    s.inner,
                ),
                ..old(self)@
            }),
            final(self)@.inv(),
            final(self).frames() == old(self).frames(),
    {
        proof {
            lemma_signal_pool(self.signals@, self.signals.pool());
            lemma_signal_slots_update(
                self.signals@,
                s.inner.index as int,
                released(self.signals@[s.inner.index as int]),
            );
            lemma_release_pooled(old(self)@.signals, old(self)@.signal_pool, s.inner);
        }
        let gone = self.signals.invalidate(s.inner);
        proof {
            assert forall|i: int| 0 <= i < self@.signals.len() implies match (
            #[trigger] self@.signals[i]).entry {
                Entry::Released => true,
                Entry::Vacant => false,
                Entry::Full(state) => state.subscribers.no_duplicates()
                    && state.effect_subscribers.no_duplicates(),
            } by {
                if i != s.inner.index {
                    assert(self@.signals[i] == old(self)@.signals[i]);
                }
            }
        }
    }

    /// Invalidates the slot of the effect `e`.
    fn discard_effect(&mut self, e: Effect)
        requires
            old(self)@.inv(),
            live(old(self)@.effects, e.callback),
        ensures
            final(self)@ == (Graph {
                effects: old(self)@.effects.update(
                    e.callback.index as int,
                    released(old(self)@.effects[e.callback.index as int]),
                ),
                effect_pool: pool_after_release(
                    old(self)@.effects,
                    old(self)@.effect_pool,
                    e.callback,
                ),
                procedures: old(self)@.procedures.update(e.callback.index as int, None),
                ..old(self)@
            }),
            final(self)@.inv(),
            final(self).frames() == old(self).frames(),
    {
        proof {
            lemma_effect_pool(self.effects@, self.effects.pool());
            lemma_effect_slots_update(
                self.effects@,
                e.callback.index as int,
                released(self.effects@[e.callback.index as int]),
            );
            lemma_release_pooled(old(self)@.effects, old(self)@.effect_pool, e.callback);
        }
        let gone = self.effects.invalidate(e.callback);
    }

    /// The cell in slot `i` and its owner, where the slot holds a cell.
    fn signal_at(&self, i: usize) -> (r: Option<(Signal, ScopeId)>)
        ensures
            match r {
                Some((s, owner)) => s.inner.index == i && self@.has_signal(s) && self@.signal(
                    s,
                ).owner == owner,
                None => i >= self@.signals.len() || !(self@.signals[i as int].entry is Full),
            },
    {
        match self.signals.handle_at(i) {
            Some(handle) => match self.signals.read(handle) {
                Ok(data) => Some((Signal { inner: handle }, data.owner)),
                Err(_) => None,
            },
            None => None,
        }
    }

    /// The effect in slot `i`, where the slot holds a procedure.
    fn effect_at(&self, i: usize) -> (r: Option<Effect>)
        ensures
            match r {
                Some(e) => e.callback.index == i && self@.runnable(e) && self@.effect(e).owner
                    == e.source,
                None => i >= self@.effects.len() || !(self@.effects[i as int].entry is Full),
            },
    {
        match self.effects.handle_at(i) {
            Some(handle) => match self.effects.read(handle) {
                Ok(body) => Some(Effect { source: body.owner, callback: handle }),
                Err(_) => None,
            },
            None => None,
        }
    }

    /// Replaces the value of `s` and requests an update of each of its
    /// plain consumers. Returns the effects that read `s`, which are to be
    /// evaluated next.
    fn store(&mut self, s: Signal, value: V) -> (snapshot: Vec<Effect>)
        requires
            old(self)@.inv(),
            old(self)@.has_signal(s),
        ensures
            final(self)@ == old(self)@.stored(s, value),
            final(self)@.inv(),
            final(self).frames() == old(self).frames(),
            snapshot@ == old(self)@.signal(s).effect_subscribers,
    {
        match self.lift_signal(s) {
            Some(data) => {
                let mut data = data;
                data.value = value;
                let snapshot = copy_effects(&data.effect_subscribers);
                append_scopes(&mut self.scheduled, &data.subscribers);
                proof {
                    lemma_readers_distinct(old(self)@, s);
                    lemma_with_signal_inv(old(self)@, s, signal_state(data));
                }
                self.init_signal(s, data);
                assert(self@.signals =~= old(self)@.stored(s, value).signals);
                snapshot
            },
            None => Vec::new(),
        }
    }

    /// Registers `e` as a reader of `s`, where `s` holds a value.
    fn subscribe(&mut self, e: Effect, s: Signal)
        requires
            old(self)@.inv(),
            issued(old(self)@.effects, e.callback),
        ensures
            final(self)@ == old(self)@.subscribed(e, s),
            final(self)@.inv(),
            final(self).frames() == old(self).frames(),
    {
        match self.lift_signal(s) {
            Some(data) => {
                let mut data = data;
                add_effect(&mut data.effect_subscribers, e);
                proof {
                    lemma_readers_distinct(old(self)@, s);
                    lemma_sound_with_reader(old(self)@.signal(s), old(self)@.effects, e);
                    lemma_with_signal_inv(old(self)@, s, signal_state(data));
                }
                self.init_signal(s, data);
                assert(self@.signals =~= old(self)@.subscribed(e, s).signals);
            },
            None => {},
        }
    }

    /// Registers `e` as a reader of every cell in `reads`.
    fn commit(&mut self, e: Effect, reads: &Vec<ReadOnlySignal>)
        requires
            old(self)@.inv(),
            issued(old(self)@.effects, e.callback),
        ensures
            final(self)@ == subscribe_all(old(self)@, e, reads@),
            final(self)@.inv(),
            final(self)@.effects == old(self)@.effects,
            final(self).frames() == old(self).frames(),
    {
        let mut k: usize = 0;
        while k < reads.len()
            invariant
                k <= reads.len(),
                self@.inv(),
                self@.effects == old(self)@.effects,
                issued(old(self)@.effects, e.callback),
                self.frames() == old(self).frames(),
                self@ == subscribe_all(old(self)@, e, reads@.take(k as int)),
            decreases reads.len() - k,
        {
            self.subscribe(e, reads[k].cell());
            assert(reads@.take(k + 1).drop_last() =~= reads@.take(k as int));
            k += 1;
        }
        assert(reads@.take(reads.len() as int) =~= reads@);
    }

    /// Evaluates `e` if its procedure is stored: with the frame of `e` on
    /// the stack the procedure runs and its reads are noted; what it
    /// returned and read is then settled.
    fn run_effect(&mut self, e: Effect) -> (r: (Ghost<Option<Run<V>>>, Option<Error>))
        requires
            old(self)@.inv(),
        ensures
            final(self)@.inv(),
            final(self).frames() == old(self).frames(),
            final(self)@.effects == old(self)@.effects,
            match r.0@ {
                None => !old(self)@.runnable(e) && final(self)@ == old(self)@ && r.1.is_none(),
                Some(run) => {
                    &&& run.effect == e
                    &&& valid_run(old(self)@, run)
                    &&& final(self)@ == after_run(old(self)@, run)
                    &&& r.1 == if run_failed(run) {
                        Some(run_error(run))
                    } else {
                        None::<Error>
                    }
                },
            },
        decreases idle_count(old(self)@.effects), 0nat,
    {
        match self.lift_effect(e) {
            None => (Ghost(None), None),
            Some(body) => {
                let mut body = body;
                let ghost stored = body.procedure;
                let ghost state = EffectState { owner: body.owner, target: body.target };
                let ghost entered = self@;
                proof {
                    lemma_idle_count_update(
                        old(self)@.effects,
                        e.callback.index as int,
                        vacated(old(self)@.effects[e.callback.index as int]),
                    );
                }
                self.stack.push(e);
                let mut tracker = Tracker::new(&self.signals);
                let outcome = body.procedure.body.run(&mut tracker);
                let reads = tracker.into_reads();
                let reader = match self.stack.pop() {
                    Some(top) => top,
                    None => e,
                };
                assert(self.frames() =~= old(self).frames());
                let (settled, error) = self.settle(
                    reader,
                    body.owner,
                    body.target,
                    body.procedure,
                    &reads,
                    outcome,
                );
                let ghost run = Run { evaluated: stored, ..settled@ };
                proof {
                    let assumed = entered.left(e, state, settled@.evaluated);
                    assert(old(self)@ =~= entered.left(e, state, stored)) by {
                        assert(old(self)@.effects =~= entered.left(e, state, stored).effects);
                        assert(old(self)@.procedures =~= entered.left(
                            e,
                            state,
                            stored,
                        ).procedures);
                    }
                    assert(assumed.entered(e) =~= entered) by {
                        assert(assumed.entered(e).effects =~= entered.effects);
                        assert(assumed.entered(e).procedures =~= entered.procedures);
                    }
                    assert(old(self)@.entered(e) =~= entered);
                    lemma_evaluated_apart(assumed, old(self)@, settled@, run);
                    assert(self@.effects =~= old(self)@.effects);
                }
                (Ghost(Some(run)), error)
            },
        }
    }

    /// Begins an evaluation of `e` by hand: takes the procedure that the
    /// slot of `e` stores out of it, with the scope that owns the effect and
    /// the cell it keeps current. Until the evaluation is settled, `e` cannot run and
    /// the runtime is not at rest. Nothing is taken where `e` cannot run.
    pub fn begin(&mut self, e: Effect) -> (r: Option<(ScopeId, Option<Signal>, Procedure<V>)>)
        requires
            old(self)@.inv(),
        ensures
            final(self)@.inv(),
            final(self).frames() == old(self).frames(),
            r.is_some() == old(self)@.runnable(e),
            match r {
                Some((owner, target, procedure)) => {
                    &&& old(self)@.effect(e) == (EffectState { owner, target })
                    &&& old(self)@.procedure(e) == procedure
                    &&& final(self)@ == old(self)@.entered(e)
                    &&& live(final(self)@.effects, e.callback)
                    &&& final(self)@.effects[e.callback.index as int].entry is Vacant
                },
                None => final(self)@ == old(self)@,
            },
    {
        match self.lift_effect(e) {
            Some(body) => Some((body.owner, body.target, body.procedure)),
            None => None,
        }
    }

    /// Settles an evaluation of `e`, whose procedure has returned `outcome`
    /// and has read `reads`, and whose slot is still vacant. `e` becomes a
    /// reader of each of `reads` that holds a value; the others are not
    /// recorded. Where `e` keeps the cell `target` current,
    /// the procedure succeeded and its result differs from what the cell
    /// holds, the result is written to the cell and the readers of the cell
    /// are evaluated. Then `procedure` is stored back in the slot of `e`.
    /// Returns the evaluation as it went and the error it ended in, if any;
    /// the procedure given is recorded both as evaluated and as stored.
    pub fn settle(
        &mut self,
        e: Effect,
        owner: ScopeId,
        target: Option<Signal>,
        procedure: Procedure<V>,
        reads: &Vec<ReadOnlySignal>,
        outcome: Result<V, Error>,
    ) -> (r: (Ghost<Run<V>>, Option<Error>))
        requires
            old(self)@.inv(),
            live(old(self)@.effects, e.callback),
            old(self)@.effects[e.callback.index as int].entry is Vacant,
        ensures
            final(self)@.inv(),
            final(self).frames() == old(self).frames(),
            final(self)@.effects == old(self)@.left(
                e,
                (EffectState { owner, target }),
                procedure,
            ).effects,
            final(self)@.procedure(e) == procedure,
            r.0@.effect == e,
            r.0@.evaluated == procedure,
            r.0@.procedure == procedure,
            r.0@.reads == held_reads(old(self)@.signals, reads@),
            r.0@.outcome == outcome,
            valid_run(old(self)@.left(e, (EffectState { owner, target }), procedure), r.0@),
            final(self)@ == after_run(
                old(self)@.left(e, (EffectState { owner, target }), procedure),
                r.0@,
            ),
            r.1 == if run_failed(r.0@) {
                Some(run_error(r.0@))
            } else {
                None::<Error>
            },
        decreases idle_count(old(self)@.effects), 2nat,
    {
        let ghost given = procedure;
        let ghost before = old(self)@.left(e, EffectState { owner, target }, procedure);
        assert(before.entered(e) =~= old(self)@) by {
            assert(before.entered(e).effects =~= old(self)@.effects);
            assert(old(self)@.procedures[e.callback.index as int].is_none());
            assert(before.entered(e).procedures =~= old(self)@.procedures);
        }
        self.commit(e, reads);
        let ghost found = self@;
        let ghost held = held_reads(old(self)@.signals, reads@);
        proof {
            lemma_held_reads(old(self)@, e, reads@);
        }
        let mut wrote = false;
        let mut error: Option<Error> = None;
        let ghost mut nested: Seq<Run<V>> = Seq::empty();
        match outcome {
            Ok(value) => {
                match target {
                    Some(cell) => {
                        match self.peek(cell.read_only()) {
                            Ok(current) => {
                                if value != current {
                                    wrote = true;
                                    let snapshot = self.store(cell, value);
                                    let (runs, failure) = self.propagate(&snapshot);
                                    proof {
                                        nested = runs@;
                                    }
                                    error = failure;
                                }
                            },
                            Err(_) => {},
                        }
                    },
                    None => {},
                }
            },
            Err(failure) => {
                error = Some(failure);
            },
        }
        self.install(e, EffectBody { owner, target, procedure });
        let ghost run = Run {
            effect: e,
            evaluated: given,
            procedure: given,
            reads: held,
            outcome,
            wrote,
            nested,
        };
        proof {
            assert(found == discovered(before, run));
            assert(self@.effects =~= before.effects);
        }
        (Ghost(run), error)
    }

    /// Evaluates the effects of `snapshot` in order, passing over those
    /// that cannot run, and stops at the first evaluation that fails.
    fn propagate(&mut self, snapshot: &Vec<Effect>) -> (r: (Ghost<Seq<Run<V>>>, Option<Error>))
        requires
            old(self)@.inv(),
        ensures
            final(self)@.inv(),
            final(self).frames() == old(self).frames(),
            final(self)@.effects == old(self)@.effects,
            valid_runs(old(self)@, snapshot@, r.0@),
            final(self)@ == after_runs(old(self)@, r.0@),
            r.1 == if failed(r.0@) {
                Some(error_of(r.0@))
            } else {
                None::<Error>
            },
        decreases idle_count(old(self)@.effects), 1nat,
    {
        let ghost mut runs: Seq<Run<V>> = Seq::empty();
        let mut i: usize = 0;
        assert(snapshot@.take(0) =~= Seq::empty());
        while i < snapshot.len()
            invariant
                i <= snapshot.len(),
                self@.inv(),
                self.frames() == old(self).frames(),
                self@.effects == old(self)@.effects,
                valid_runs(old(self)@, snapshot@.take(i as int), runs),
                !failed(runs),
                self@ == after_runs(old(self)@, runs),
            decreases snapshot.len() - i,
        {
            let ghost before = self@;
            let (ran, failure) = self.run_effect(snapshot[i]);
            proof {
                assert(snapshot@.take(i + 1).drop_last() =~= snapshot@.take(i as int));
                assert(snapshot@.take(i + 1).last() == snapshot@[i as int]);
                match ran@ {
                    None => {},
                    Some(run) => {
                        assert(runs.push(run).drop_last() =~= runs);
                        runs = runs.push(run);
                    },
                }
                assert(valid_runs(old(self)@, snapshot@.take(i + 1), runs));
            }
            match failure {
                Some(e) => {
                    proof {
                        lemma_aborted(old(self)@, snapshot@, i + 1, runs);
                    }
                    return (Ghost(runs), Some(e));
                },
                None => {},
            }
            i += 1;
        }
        assert(snapshot@.take(snapshot.len() as int) =~= snapshot@);
        (Ghost(runs), None)
    }
}

impl<V: Copy + PartialEq> Runtime<V> {
    /// Replaces the value of `signal` by `value`, whatever it was, requests
    /// an update of each plain consumer that read the cell, and evaluates
    /// each effect that read it, once each. All of this is done when the
    /// call returns. An effect whose procedure fails
    /// ends the write with that error: the effects that were still to come
    /// are not evaluated.
    pub fn write(&mut self, signal: Signal, value: V) -> (r: Result<(), Error>)
        requires
            old(self).wf(),
        ensures
            final(self).wf(),
            final(self)@.later_than(old(self)@),
            forall|cell: Signal| #[trigger]
                old(self)@.has_signal(cell) ==> final(self)@.has_signal(cell) && final(
                    self)@.signal(cell).owner == old(self)@.signal(cell).owner && final(
                    self)@.signal(cell).subscribers == old(self)@.signal(cell).subscribers,
            !old(self)@.has_signal(signal) ==> r == Err::<(), Error>(Error::UseAfterInvalidate)
                && final(self)@ == old(self)@,
            old(self)@.has_signal(signal) ==> exists|runs: Seq<Run<V>>| #[trigger]
                propagated(old(self)@, signal, value, runs, final(self)@, r),
    {
        if !self.signals.contains(signal.inner) {
            return Err(Error::UseAfterInvalidate);
        }
        let snapshot = self.store(signal, value);
        let (runs, failure) = self.propagate(&snapshot);
        let r = match failure {
            Some(e) => Err(e),
            None => Ok(()),
        };
        proof {
            assert(propagated(old(self)@, signal, value, runs@, self@, r));
            lemma_write_later(old(self)@, signal, value, runs@);
            lemma_wf_kept(old(self)@, self@);
        }
        r
    }

    /// Offers `value` to `signal`: the cell is written, as `write` does it,
    /// only if `value` differs from what it holds. Returns whether it was
    /// written.
    pub fn write_if_changed(&mut self, signal: Signal, value: V) -> (r: Result<bool, Error>)
        requires
            old(self).wf(),
        ensures
            final(self).wf(),
            final(self)@.later_than(old(self)@),
            forall|cell: Signal| #[trigger]
                old(self)@.has_signal(cell) ==> final(self)@.has_signal(cell) && final(
                    self)@.signal(cell).owner == old(self)@.signal(cell).owner && final(
                    self)@.signal(cell).subscribers == old(self)@.signal(cell).subscribers,
            !old(self)@.has_signal(signal) ==> r == Err::<bool, Error>(Error::UseAfterInvalidate)
                && final(self)@ == old(self)@,
            old(self)@.has_signal(signal) ==> exists|changed: bool, runs: Seq<Run<V>>| #[trigger]
                offered(old(self)@, signal, value, changed, runs, final(self)@, r),
    {
        match self.peek(signal.read_only()) {
            Err(e) => Err(e),
            Ok(current) => {
                if value != current {
                    let snapshot = self.store(signal, value);
                    let (runs, failure) = self.propagate(&snapshot);
                    let r = match failure {
                        Some(e) => Err(e),
                        None => Ok(true),
                    };
                    proof {
                        assert(offered(old(self)@, signal, value, true, runs@, self@, r));
                        lemma_write_later(old(self)@, signal, value, runs@);
                        lemma_wf_kept(old(self)@, self@);
                    }
                    r
                } else {
                    assert(offered(
                        old(self)@,
                        signal,
                        value,
                        false,
                        Seq::<Run<V>>::empty(),
                        self@,
                        Ok::<bool, Error>(false),
                    ));
                    Ok(false)
                }
            },
        }
    }

    /// The name that the next effect created in `owner` will get.
    pub fn upcoming_effect(&self, owner: ScopeId) -> (e: Effect)
        requires
            self.wf(),
        ensures
            e == self@.next_effect(owner),
    {
        proof {
            lemma_effect_pool(self.effects@, self.effects.pool());
        }
        Effect { source: owner, callback: self.effects.upcoming() }
    }

    /// Registers `effect` as a reader of `signal`, as if its procedure had
    /// read the cell; nothing happens where it is a reader already. An
    /// effect that cannot run is refused, and so is a cell that holds no
    /// value.
    pub fn subscribe_effect(&mut self, signal: ReadOnlySignal, effect: Effect) -> (r: Result<
        (),
        Error,
    >)
        requires
            old(self).wf(),
        ensures
            final(self).wf(),
            final(self)@.later_than(old(self)@),
            old(self)@.has_signal(signal.source()) && old(self)@.runnable(effect) ==> r.is_ok()
                && final(self)@ == old(self)@.subscribed(effect, signal.source()),
            !(old(self)@.has_signal(signal.source()) && old(self)@.runnable(effect)) ==> r
                == Err::<(), Error>(Error::UseAfterInvalidate) && final(self)@ == old(self)@,
    {
        if self.signals.contains(signal.cell().inner) && self.effects.contains(effect.callback) {
            self.subscribe(effect, signal.cell());
            Ok(())
        } else {
            Err(Error::UseAfterInvalidate)
        }
    }

    /// Registers an effect of `owner` whose first evaluation is over: the
    /// procedure read `reads` and is stored, as it is given, to be evaluated
    /// again whenever one of those cells is written.
    pub fn register_effect(
        &mut self,
        owner: ScopeId,
        reads: &Vec<ReadOnlySignal>,
        procedure: Procedure<V>,
    ) -> (effect: Effect)
        requires
            old(self).wf(),
        ensures
            final(self).wf(),
            final(self)@.later_than(old(self)@),
            effect == old(self)@.next_effect(owner),
            final(self)@ == registered(
                old(self)@,
                effect,
                EffectState { owner, target: None },
                reads@,
                procedure,
            ),
            final(self)@.runnable(effect),
            final(self)@.effect(effect) == (EffectState { owner, target: None }),
            final(self)@.procedure(effect) == procedure,
            forall|k: int|
                0 <= k < reads@.len() && old(self)@.has_signal((#[trigger] reads@[k]).source())
                    ==> final(self)@.signal(reads@[k].source()).effect_subscribers.contains(effect),
            forall|s: Signal| #[trigger]
                old(self)@.has_signal(s) ==> final(self)@.has_signal(s) && same_cell(
                    old(self)@.signal(s),
                    final(self)@.signal(s),
                ),
            forall|e: Effect| #[trigger]
                old(self)@.runnable(e) ==> final(self)@.runnable(e) && final(self)@.effect(e)
                    == old(self)@.effect(e),
    {
        let ghost given = procedure;
        let effect = self.reserve_effect(owner);
        self.commit(effect, reads);
        self.install(effect, EffectBody { owner, target: None, procedure });
        proof {
            let state = EffectState { owner, target: None };
            lemma_registered_wf(old(self)@, effect, state, reads@, given);
            lemma_registered_later(old(self)@, effect, state, reads@, given);
            assert forall|k: int|
                0 <= k < reads@.len() && old(self)@.has_signal(
                    (#[trigger] reads@[k]).source(),
                ) implies self@.signal(reads@[k].source()).effect_subscribers.contains(effect) by {
                lemma_first_reading_subscribes(old(self)@, effect, state, reads@, given, k);
            }
            lemma_registered_keeps(old(self)@, effect, state, reads@, given);
        }
        effect
    }

    /// Registers a selector of `owner` whose first evaluation is over: the
    /// procedure read `reads` and returned `first`, which is the first
    /// value of the selector's cell. The cell is made last: it has no
    /// readers, and nobody is notified of its first value.
    pub fn register_selector(
        &mut self,
        owner: ScopeId,
        first: V,
        reads: &Vec<ReadOnlySignal>,
        procedure: Procedure<V>,
    ) -> (selector: ReadOnlySignal)
        requires
            old(self).wf(),
        ensures
            final(self).wf(),
            final(self)@.later_than(old(self)@),
            selector.source() == old(self)@.next_signal(),
            final(self)@ == selector_registered(old(self)@, owner, first, reads@, procedure),
            !old(self)@.has_signal(selector.source()),
            final(self)@.has_signal(selector.source()),
            final(self)@.signal(selector.source()).value == first,
            final(self)@.signal(selector.source()).owner == owner,
            final(self)@.signal(selector.source()).effect_subscribers == Seq::<Effect>::empty(),
            final(self)@.runnable(old(self)@.next_effect(owner)),
            final(self)@.effect(old(self)@.next_effect(owner)) == (EffectState {
                owner,
                target: Some(selector.source()),
            }),
            final(self)@.procedure(old(self)@.next_effect(owner)) == procedure,
            forall|cell: Signal| #[trigger]
                is_selector_cell(final(self)@, cell) ==> cell == selector.source()
                    || is_selector_cell(old(self)@, cell),
            forall|k: int|
                0 <= k < reads@.len() && old(self)@.has_signal((#[trigger] reads@[k]).source())
                    ==> final(self)@.signal(reads@[k].source()).effect_subscribers.contains(
                    old(self)@.next_effect(owner),
                ),
            forall|s: Signal| #[trigger]
                old(self)@.has_signal(s) ==> final(self)@.has_signal(s) && same_cell(
                    old(self)@.signal(s),
                    final(self)@.signal(s),
                ),
            forall|e: Effect| #[trigger]
                old(self)@.runnable(e) ==> final(self)@.runnable(e) && final(self)@.effect(e)
                    == old(self)@.effect(e),
    {
        proof {
            lemma_signal_pool(self.signals@, self.signals.pool());
        }
        let cell = Signal { inner: self.signals.upcoming() };
        let ghost given = procedure;
        let effect = self.reserve_effect(owner);
        self.commit(effect, reads);
        self.install(effect, EffectBody { owner, target: Some(cell), procedure });
        let ghost state = EffectState { owner, target: Some(cell) };
        let ghost linked = self@;
        proof {
            lemma_registered_wf(old(self)@, effect, state, reads@, given);
            lemma_registered_later(old(self)@, effect, state, reads@, given);
            lemma_registered_keeps(old(self)@, effect, state, reads@, given);
            lemma_registered_next_signal(old(self)@, effect, state, reads@, given);
            assert forall|k: int|
                0 <= k < reads@.len() && old(self)@.has_signal(
                    (#[trigger] reads@[k]).source(),
                ) implies linked.signal(reads@[k].source()).effect_subscribers.contains(effect) by {
                lemma_first_reading_subscribes(old(self)@, effect, state, reads@, given, k);
            }
        }
        let data = SignalData {
            value: first,
            subscribers: Vec::new(),
            effect_subscribers: Vec::new(),
            owner,
        };
        assert(signal_state(data).subscribers =~= Seq::empty());
        assert(signal_state(data).effect_subscribers =~= Seq::empty());
        let made = self.reserve_signal();
        self.init_signal(made, data);
        proof {
            lemma_with_new_signal(linked, owner, first);
            assert(self@ == linked.with_new_signal(owner, first));
            assert(self@.effects == linked.effects);
            assert forall|cell: Signal| #[trigger] is_selector_cell(self@, cell) implies cell
                == made || is_selector_cell(old(self)@, cell) by {
                let i = choose|i: int|
                    0 <= i < self@.effects.len() && (#[trigger] self@.effects[i]).entry is Full
                        && self@.effects[i].entry->Full_0.target == Some(cell);
                if i != effect.callback.index {
                    assert(linked.effects[i] == old(self)@.effects[i]);
                    if old(self)@.effect_pool.len() == 0 {
                        assert(i < old(self)@.effects.len());
                    }
                    assert(old(self)@.effects[i].entry is Full);
                }
            }
        }
        made.read_only()
    }

    /// Evaluates `procedure` for the first time, as the effect that `owner`
    /// is about to register: the frame of that effect is on the stack while
    /// the procedure runs. Returns what the procedure returned and read.
    fn discover(&mut self, owner: ScopeId, procedure: &mut Procedure<V>) -> (r: (
        Result<V, Error>,
        Vec<ReadOnlySignal>,
    ))
        requires
            old(self)@.inv(),
        ensures
            final(self)@ == old(self)@,
            final(self).frames() == old(self).frames(),
    {
        proof {
            lemma_effect_pool(self.effects@, self.effects.pool());
        }
        let upcoming = Effect { source: owner, callback: self.effects.upcoming() };
        self.stack.push(upcoming);
        let mut tracker = Tracker::new(&self.signals);
        let outcome = procedure.body.run(&mut tracker);
        let reads = tracker.into_reads();
        let popped = self.stack.pop();
        assert(self.frames() =~= old(self).frames());
        (outcome, reads)
    }

    /// Registers the effect `procedure` for `scope` and evaluates it once,
    /// at once, to discover what it reads. It is evaluated again whenever a
    /// cell that it read is written. Without a scope, or where the first
    /// evaluation fails, no effect is registered.
    pub fn create_effect(&mut self, scope: Option<ScopeId>, procedure: Procedure<V>) -> (r:
        Result<Effect, Error>)
        requires
            old(self).wf(),
        ensures
            final(self).wf(),
            final(self)@.later_than(old(self)@),
            scope.is_none() ==> r == Err::<Effect, Error>(Error::NotInReactiveContext) && final(
                self)@ == old(self)@,
            scope.is_some() ==> exists|
                reads: Seq<ReadOnlySignal>,
                outcome: Result<V, Error>,
                stored: Procedure<V>,
            | #[trigger]
                effect_created(
                    old(self)@,
                    scope.unwrap(),
                    reads,
                    outcome,
                    stored,
                    final(self)@,
                    r,
                ),
    {
        let owner = match scope {
            Some(owner) => owner,
            None => {
                return Err(Error::NotInReactiveContext);
            },
        };
        let mut procedure = procedure;
        let (outcome, reads) = self.discover(owner, &mut procedure);
        let ghost stored = procedure;
        let r = match outcome {
            Ok(_) => Ok(self.register_effect(owner, &reads, procedure)),
            Err(e) => Err(e),
        };
        proof {
            let held = held_reads(old(self)@.signals, reads@);
            lemma_held_reads(old(self)@.with_new_effect(), old(self)@.next_effect(owner), reads@);
            assert(effect_created(old(self)@, owner, held, outcome, stored, self@, r));
        }
        r
    }

    /// Creates a selector for `scope`: a cell whose value is what
    /// `procedure` computes, kept current by an effect of its own. The
    /// procedure is evaluated once, at once, and its result is the cell's
    /// first value. From then on the procedure is evaluated again whenever
    /// a cell that it read is written, and its result is written to the
    /// selector's cell only if it differs from what the cell holds. Without
    /// a scope, or where the first evaluation fails, no selector is created.
    pub fn create_selector(&mut self, scope: Option<ScopeId>, procedure: Procedure<V>) -> (r:
        Result<ReadOnlySignal, Error>)
        requires
            old(self).wf(),
        ensures
            final(self).wf(),
            final(self)@.later_than(old(self)@),
            scope.is_none() ==> r == Err::<ReadOnlySignal, Error>(Error::NotInReactiveContext)
                && final(self)@ == old(self)@,
            scope.is_some() ==> exists|
                reads: Seq<ReadOnlySignal>,
                outcome: Result<V, Error>,
                stored: Procedure<V>,
            | #[trigger]
                selector_created(
                    old(self)@,
                    scope.unwrap(),
                    reads,
                    outcome,
                    stored,
                    final(self)@,
                    r,
                ),
            r.is_err() ==> final(self)@ == old(self)@,
            r.is_ok() ==> {
                &&& !old(self)@.has_signal(r.unwrap().source())
                &&& final(self)@.has_signal(r.unwrap().source())
                &&& final(self)@.signal(r.unwrap().source()).owner == scope.unwrap()
                &&& final(self)@.runnable(old(self)@.next_effect(scope.unwrap()))
                &&& final(self)@.effect(old(self)@.next_effect(scope.unwrap())).target == Some(
                    r.unwrap().source(),
                )
                &&& forall|s: Signal| #[trigger]
                    old(self)@.has_signal(s) ==> final(self)@.has_signal(s) && same_cell(
                        old(self)@.signal(s),
                        final(self)@.signal(s),
                    )
                &&& forall|e: Effect| #[trigger]
                    old(self)@.runnable(e) ==> final(self)@.runnable(e) && final(self)@.effect(e)
                        == old(self)@.effect(e)
                &&& forall|cell: Signal| #[trigger]
                    is_selector_cell(final(self)@, cell) ==> cell == r.unwrap().source()
                        || is_selector_cell(old(self)@, cell)
            },
    {
        let owner = match scope {
            Some(owner) => owner,
            None => {
                return Err(Error::NotInReactiveContext);
            },
        };
        let mut procedure = procedure;
        let (outcome, reads) = self.discover(owner, &mut procedure);
        let ghost stored = procedure;
        let r = match outcome {
            Ok(first) => Ok(self.register_selector(owner, first, &reads, procedure)),
            Err(e) => Err(e),
        };
        proof {
            let held = held_reads(old(self)@.signals, reads@);
            lemma_held_reads(old(self)@.with_new_effect(), old(self)@.next_effect(owner), reads@);
            assert(selector_created(old(self)@, owner, held, outcome, stored, self@, r));
        }
        r
    }

    /// Tears `scope` down: every cell and every effect that it owns is
    /// invalidated, and every name of one of them is stale from now on.
    pub fn teardown(&mut self, scope: ScopeId)
        requires
            old(self).wf(),
        ensures
            final(self).wf(),
            final(self)@.later_than(old(self)@),
            final(self)@ == old(self)@.torn_down(scope),
    {
        let cells: usize = self.signals.len();
        let mut i: usize = 0;
        proof {
            let expected = old(self)@.torn_down_to(scope, 0, 0);
            assert(self@.signals =~= expected.signals);
            assert(self@.effects =~= expected.effects);
            assert(self@.procedures =~= expected.procedures);
        }
        while i < cells
            invariant
                i <= cells,
                cells == old(self)@.signals.len(),
                self.frames() == old(self).frames(),
                self@.inv(),
                old(self)@.inv(),
                self@ == old(self)@.torn_down_to(scope, i as int, 0),
            decreases cells - i,
        {
            let ghost before = self@;
            match self.signal_at(i) {
                Some((s, owner)) => {
                    if owner == scope {
                        self.discard_signal(s);
                    }
                },
                None => {},
            }
            proof {
                let expected = old(self)@.torn_down_to(scope, i + 1, 0);
                assert(self@.signals =~= expected.signals);
                assert(self@.effects =~= expected.effects);
                assert(self@.procedures =~= expected.procedures);
            }
            i += 1;
        }
        let procedures: usize = self.effects.len();
        let mut k: usize = 0;
        while k < procedures
            invariant
                k <= procedures,
                procedures == old(self)@.effects.len(),
                self.frames() == old(self).frames(),
                self@.inv(),
                old(self)@.inv(),
                self@ == old(self)@.torn_down_to(scope, old(self)@.signals.len() as int, k as int),
            decreases procedures - k,
        {
            let ghost before = self@;
            match self.effect_at(k) {
                Some(e) => {
                    if e.source == scope {
                        self.discard_effect(e);
                    }
                },
                None => {},
            }
            proof {
                let expected = old(self)@.torn_down_to(
                    scope,
                    old(self)@.signals.len() as int,
                    k + 1,
                );
                assert(self@.signals =~= expected.signals);
                assert(self@.effects =~= expected.effects);
                assert(self@.procedures =~= expected.procedures);
            }
            k += 1;
        }
        proof {
            let after = old(self)@.torn_down(scope);
            assert forall|j: int| 0 <= j < after.signals.len() implies match (
            #[trigger] after.signals[j]).entry {
                Entry::Released => true,
                Entry::Vacant => false,
                Entry::Full(state) => state.subscribers.no_duplicates()
                    && state.effect_subscribers.no_duplicates(),
            } by {
                assert(after.signals[j] == old(self)@.signals[j] || after.signals[j] == released(
                    old(self)@.signals[j],
                ));
            }
            assert forall|j: int| 0 <= j < after.effects.len() implies !((
            #[trigger] after.effects[j]).entry is Vacant) by {
                assert(after.effects[j] == old(self)@.effects[j] || after.effects[j] == released(
                    old(self)@.effects[j],
                ));
            }
        }
    }
}

} // verus!
