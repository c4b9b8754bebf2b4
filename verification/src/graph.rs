//! The reactive graph as a mathematical value, and what an operation of the
//! runtime does to it: the model over which every contract is stated.

use vstd::prelude::*;
use vstd::std_specs::cmp::PartialEqSpec;
use crate::arena::{
    content, filled, holds, issued, lemma_issued_succeeds, lemma_next_not_issued,
    lemma_reserve_pooled, lemma_succeeds_trans,
    lemma_reserve_succeeds, lemma_update_pooled, live, next_handle, pool_after_reserve, pooled,
    released, reserved, succeeds, vacated, Entry, Handle, Slot,
};
use crate::effect::Effect;
use crate::error::Error;
use crate::scope::ScopeId;
use crate::tracker::Procedure;
use crate::signal::{
    lemma_with_member, with_member, without_member, ReadOnlySignal, Signal, SignalData,
};

verus! {

/// The mathematical content of a cell.
pub ghost struct SignalState<V> {
    pub value: V,
    pub subscribers: Seq<ScopeId>,
    pub effect_subscribers: Seq<Effect>,
    pub owner: ScopeId,
}

/// The mathematical content of an effect's slot: everything but the
/// procedure itself, of which nothing is known.
pub ghost struct EffectState {
    pub owner: ScopeId,
    pub target: Option<Signal>,
}

/// The reactive graph as a mathematical value: the cells, the effects (a
/// vacant slot is an effect that is being evaluated), the invalidated slots
/// of either kind that wait to be handed out again, the procedure that each
/// effect's slot stores, and the consumers whose update was requested and
/// not yet collected.
#[verifier::reject_recursive_types(V)]
pub ghost struct Graph<V> {
    pub signals: Seq<Slot<SignalState<V>>>,
    pub signal_pool: Seq<usize>,
    pub effects: Seq<Slot<EffectState>>,
    pub effect_pool: Seq<usize>,
    pub procedures: Seq<Option<Procedure<V>>>,
    pub scheduled: Seq<ScopeId>,
}

/// One evaluation of an effect: the procedure that was evaluated, as the
/// slot stored it (`evaluated`) and as the evaluation left it
/// (`procedure`), what it read and returned, whether the result was written
/// to the effect's own cell, and the evaluations which that write set off,
/// in order.
#[verifier::reject_recursive_types(V)]
pub ghost struct Run<V> {
    pub effect: Effect,
    pub evaluated: Procedure<V>,
    pub procedure: Procedure<V>,
    pub reads: Seq<ReadOnlySignal>,
    pub outcome: Result<V, Error>,
    pub wrote: bool,
    pub nested: Seq<Run<V>>,
}

/// The mathematical content of what a cell stores.
pub open spec fn signal_state<V>(data: SignalData<V>) -> SignalState<V> {
    SignalState {
        value: data.value,
        subscribers: data.subscribers@,
        effect_subscribers: data.effect_subscribers@,
        owner: data.owner,
    }
}

/// The slot of a cell with its content taken as a mathematical value.
pub open spec fn signal_slot<V>(slot: Slot<SignalData<V>>) -> Slot<SignalState<V>> {
    Slot {
        generation: slot.generation,
        entry: match slot.entry {
            Entry::Released => Entry::Released,
            Entry::Vacant => Entry::Vacant,
            Entry::Full(data) => Entry::Full(signal_state(data)),
        },
    }
}

/// The slots of all cells, each taken as a mathematical value.
pub open spec fn signal_slots<V>(slots: Seq<Slot<SignalData<V>>>) -> Seq<Slot<SignalState<V>>> {
    Seq::new(slots.len(), |i: int| signal_slot(slots[i]))
}

/// The slot holds a cell that `scope` owns.
pub open spec fn owned_signal<V>(slot: Slot<SignalState<V>>, scope: ScopeId) -> bool {
    slot.entry is Full && slot.entry->Full_0.owner == scope
}

/// The slot holds an effect that `scope` owns.
pub open spec fn owned_effect(slot: Slot<EffectState>, scope: ScopeId) -> bool {
    slot.entry is Full && slot.entry->Full_0.owner == scope
}

/// A procedure is stored for exactly the slots that are full.
pub open spec fn stored_where_full<V>(
    effects: Seq<Slot<EffectState>>,
    procedures: Seq<Option<Procedure<V>>>,
) -> bool {
    &&& procedures.len() == effects.len()
    &&& forall|i: int|
        0 <= i < effects.len() ==> ((#[trigger] procedures[i]) is Some <==> effects[i].entry is Full)
}

/// `later` is the content `earlier` of a cell but for its effect readers:
/// it has the value, the owner and the plain consumers of `earlier`.
pub open spec fn same_cell<V>(earlier: SignalState<V>, later: SignalState<V>) -> bool {
    &&& later.value == earlier.value
    &&& later.owner == earlier.owner
    &&& later.subscribers == earlier.subscribers
}

/// The readers of a cell are sound for the effects `effects`: none is
/// listed twice, and every effect among them was issued.
pub open spec fn sound_readers<V>(state: SignalState<V>, effects: Seq<Slot<EffectState>>) -> bool {
    &&& state.subscribers.no_duplicates()
    &&& state.effect_subscribers.no_duplicates()
    &&& forall|k: int|
        0 <= k < state.effect_subscribers.len() ==> issued(
            effects,
            (#[trigger] state.effect_subscribers[k]).callback,
        )
}

impl<V> Graph<V> {
    /// The graph without cells and effects.
    pub open spec fn empty() -> Graph<V> {
        Graph {
            signals: Seq::empty(),
            signal_pool: Seq::empty(),
            effects: Seq::empty(),
            effect_pool: Seq::empty(),
            procedures: Seq::empty(),
            scheduled: Seq::empty(),
        }
    }

    /// `s` names a cell that holds a value.
    pub open spec fn has_signal(self, s: Signal) -> bool {
        holds(self.signals, s.inner)
    }

    /// The content of the cell `s`, meaningful where `has_signal(s)`.
    pub open spec fn signal(self, s: Signal) -> SignalState<V> {
        content(self.signals, s.inner)
    }

    /// `e` names an effect whose procedure is stored and not being evaluated.
    pub open spec fn runnable(self, e: Effect) -> bool {
        holds(self.effects, e.callback)
    }

    /// The content of the slot of `e`, meaningful where `runnable(e)`.
    pub open spec fn effect(self, e: Effect) -> EffectState {
        content(self.effects, e.callback)
    }

    /// The graph with the content of cell `s` replaced.
    pub open spec fn with_signal(self, s: Signal, state: SignalState<V>) -> Graph<V> {
        Graph {
            signals: self.signals.update(
                s.inner.index as int,
                filled(self.signals[s.inner.index as int], state),
            ),
            ..self
        }
    }

    /// The graph after `e` was registered as a reader of `s`; unchanged
    /// where `s` holds no value or `e` is registered already.
    pub open spec fn subscribed(self, e: Effect, s: Signal) -> Graph<V> {
        if self.has_signal(s) {
            self.with_signal(
                s,
                SignalState {
                    effect_subscribers: with_member(self.signal(s).effect_subscribers, e),
                    ..self.signal(s)
                },
            )
        } else {
            self
        }
    }

    /// The name that the next cell to be created will get.
    pub open spec fn next_signal(self) -> Signal {
        Signal { inner: next_handle(self.signals, self.signal_pool) }
    }

    /// The name that the next effect to be created in `scope` will get.
    pub open spec fn next_effect(self, scope: ScopeId) -> Effect {
        Effect { source: scope, callback: next_handle(self.effects, self.effect_pool) }
    }

    /// The graph with one more cell, owned by `owner`, which holds `value`
    /// and has no readers.
    pub open spec fn with_new_signal(self, owner: ScopeId, value: V) -> Graph<V> {
        let at = next_handle(self.signals, self.signal_pool).index as int;
        let slots = reserved(self.signals, self.signal_pool);
        Graph {
            signals: slots.update(
                at,
                filled(
                    slots[at],
                    SignalState {
                        value,
                        subscribers: Seq::empty(),
                        effect_subscribers: Seq::empty(),
                        owner,
                    },
                ),
            ),
            signal_pool: pool_after_reserve(self.signal_pool),
            ..self
        }
    }

    /// The graph with one more effect, which is being evaluated.
    pub open spec fn with_new_effect(self) -> Graph<V> {
        Graph {
            effects: reserved(self.effects, self.effect_pool),
            effect_pool: pool_after_reserve(self.effect_pool),
            procedures: if self.effect_pool.len() == 0 {
                self.procedures.push(None)
            } else {
                self.procedures.update(self.effect_pool.last() as int, None)
            },
            ..self
        }
    }

    /// The graph after the plain consumer `consumer` was registered as a
    /// reader of `s`; unchanged where it is registered already.
    pub open spec fn watched(self, consumer: ScopeId, s: Signal) -> Graph<V> {
        self.with_signal(
            s,
            SignalState {
                subscribers: with_member(self.signal(s).subscribers, consumer),
                ..self.signal(s)
            },
        )
    }

    /// The graph after the plain consumer `consumer` was taken off the
    /// readers of `s`.
    pub open spec fn unwatched(self, consumer: ScopeId, s: Signal) -> Graph<V> {
        self.with_signal(
            s,
            SignalState {
                subscribers: without_member(self.signal(s).subscribers, consumer),
                ..self.signal(s)
            },
        )
    }

    /// The graph after the effect `e` was taken off the readers of `s`.
    pub open spec fn unsubscribed(self, e: Effect, s: Signal) -> Graph<V> {
        self.with_signal(
            s,
            SignalState {
                effect_subscribers: without_member(self.signal(s).effect_subscribers, e),
                ..self.signal(s)
            },
        )
    }

    /// The graph after the requested updates were collected.
    pub open spec fn collected(self) -> Graph<V> {
        Graph { scheduled: Seq::empty(), ..self }
    }

    /// The graph after the first `cells` cells and the first `procedures`
    /// effects were invalidated where `scope` owns them.
    pub open spec fn torn_down_to(self, scope: ScopeId, cells: int, procedures: int) -> Graph<V> {
        Graph {
            signals: Seq::new(
                self.signals.len(),
                |i: int|
                    if i < cells && owned_signal(self.signals[i], scope) {
                        released(self.signals[i])
                    } else {
                        self.signals[i]
                    },
            ),
            signal_pool: pool_after_teardown(
                self.signals,
                self.signal_pool,
                |slot: Slot<SignalState<V>>| owned_signal(slot, scope),
                cells,
            ),
            effects: Seq::new(
                self.effects.len(),
                |i: int|
                    if i < procedures && owned_effect(self.effects[i], scope) {
                        released(self.effects[i])
                    } else {
                        self.effects[i]
                    },
            ),
            effect_pool: pool_after_teardown(
                self.effects,
                self.effect_pool,
                |slot: Slot<EffectState>| owned_effect(slot, scope),
                procedures,
            ),
            procedures: Seq::new(
                self.procedures.len(),
                |i: int|
                    if i < procedures && i < self.effects.len() && owned_effect(
                        self.effects[i],
                        scope,
                    ) {
                        None
                    } else {
                        self.procedures[i]
                    },
            ),
            ..self
        }
    }

    /// The graph after every cell and every effect that `scope` owns was
    /// invalidated. Subscriber lists keep the names of the effects that are
    /// gone; such an effect is passed over when its turn comes.
    pub open spec fn torn_down(self, scope: ScopeId) -> Graph<V> {
        self.torn_down_to(scope, self.signals.len() as int, self.effects.len() as int)
    }

    /// The graph after `v` replaced the value of `s` and an update of each
    /// plain consumer of `s` was requested. No effect has run yet.
    pub open spec fn stored(self, s: Signal, v: V) -> Graph<V> {
        Graph {
            scheduled: self.scheduled + self.signal(s).subscribers,
            ..self.with_signal(s, SignalState { value: v, ..self.signal(s) })
        }
    }

    /// The procedure that the slot of `e` stores, meaningful where `runnable(e)`.
    pub open spec fn procedure(self, e: Effect) -> Procedure<V> {
        self.procedures[e.callback.index as int]->Some_0
    }

    /// The graph while `e` is being evaluated: its slot is vacant, its
    /// procedure taken out.
    pub open spec fn entered(self, e: Effect) -> Graph<V> {
        Graph {
            effects: self.effects.update(
                e.callback.index as int,
                vacated(self.effects[e.callback.index as int]),
            ),
            procedures: self.procedures.update(e.callback.index as int, None),
            ..self
        }
    }

    /// The graph after the evaluation of `e` ended: its slot is full
    /// again and stores `procedure`.
    pub open spec fn left(self, e: Effect, state: EffectState, procedure: Procedure<V>) -> Graph<V> {
        Graph {
            effects: self.effects.update(
                e.callback.index as int,
                filled(self.effects[e.callback.index as int], state),
            ),
            procedures: self.procedures.update(e.callback.index as int, Some(procedure)),
            ..self
        }
    }

    /// `s` names a cell that was invalidated: its slot has moved on to a
    /// later generation.
    pub open spec fn retired(self, s: Signal) -> bool {
        &&& s.inner.index < self.signals.len()
        &&& self.signals[s.inner.index as int].generation > s.inner.generation
    }

    /// This graph is a later state of `earlier`: it has every slot that
    /// `earlier` has, and no slot has gone back to an earlier generation.
    pub open spec fn later_than(self, earlier: Graph<V>) -> bool {
        &&& earlier.signals.len() <= self.signals.len()
        &&& earlier.effects.len() <= self.effects.len()
        &&& forall|i: int|
            0 <= i < earlier.signals.len() ==> earlier.signals[i].generation <= (
            #[trigger] self.signals[i]).generation
        &&& forall|i: int|
            0 <= i < earlier.effects.len() ==> earlier.effects[i].generation <= (
            #[trigger] self.effects[i]).generation
    }

    /// What holds of the graph at every moment: the pools are pools, a
    /// procedure is stored for exactly the effects that can run, no cell
    /// is reserved without a value, no subscriber is listed twice,
    /// and every effect listed as a reader was issued: no cell lists the
    /// name of an effect that is yet to come.
    pub open spec fn inv(self) -> bool {
        &&& pooled(self.signals, self.signal_pool)
        &&& pooled(self.effects, self.effect_pool)
        &&& stored_where_full(self.effects, self.procedures)
        &&& forall|i: int|
            0 <= i < self.signals.len() ==> match (#[trigger] self.signals[i]).entry {
                Entry::Released => true,
                Entry::Vacant => false,
                Entry::Full(state) => sound_readers(state, self.effects),
            }
    }

    /// What holds of the graph between two operations: besides `inv`,
    /// no effect is being evaluated, and of the effects that keep a cell
    /// current each keeps a cell of its own, whose name was issued. (While
    /// an effect is being evaluated its slot is vacant and the graph does
    /// not tell which cell it keeps.)
    pub open spec fn wf(self) -> bool {
        &&& self.inv()
        &&& forall|i: int|
            0 <= i < self.effects.len() ==> !((#[trigger] self.effects[i]).entry is Vacant)
        &&& sound_keepers(self.effects, self.signals)
    }

    /// The effect in the slot of `keeper` alone keeps `cell` current: no
    /// effect in another slot, whose procedure is stored, does.
    pub open spec fn sole_keeper(self, cell: Signal, keeper: Handle) -> bool {
        &&& live(self.effects, keeper)
        &&& forall|i: int|
            0 <= i < self.effects.len() && (#[trigger] self.effects[i]).entry is Full
                && self.effects[i].entry->Full_0.target == Some(cell) ==> i == keeper.index
    }
}

/// The effects that keep a cell current are sound for the cells
/// `signals`: each keeps a cell whose name was issued, and no two keep the
/// same cell.
pub open spec fn sound_keepers<V>(effects: Seq<Slot<EffectState>>, signals: Seq<Slot<SignalState<V>>>) -> bool {
    &&& forall|i: int|
        0 <= i < effects.len() && (#[trigger] effects[i]).entry is Full
            && effects[i].entry->Full_0.target is Some ==> issued(
            signals,
            effects[i].entry->Full_0.target->Some_0.inner,
        )
    &&& forall|i: int, j: int|
        0 <= i < effects.len() && 0 <= j < effects.len() && (#[trigger] effects[i]).entry is Full
            && (#[trigger] effects[j]).entry is Full && effects[i].entry->Full_0.target is Some
            && effects[i].entry->Full_0.target == effects[j].entry->Full_0.target ==> i == j
}

/// Keepers stay sound whatever becomes of the cells' slots, as long as
/// none is revived or goes back a generation.
pub proof fn lemma_keepers_succeed<V>(
    effects: Seq<Slot<EffectState>>,
    signals: Seq<Slot<SignalState<V>>>,
    later: Seq<Slot<SignalState<V>>>,
)
    requires
        sound_keepers(effects, signals),
        succeeds(signals, later),
    ensures
        sound_keepers(effects, later),
{
    assert forall|i: int|
        0 <= i < effects.len() && (#[trigger] effects[i]).entry is Full
            && effects[i].entry->Full_0.target is Some implies issued(
        later,
        effects[i].entry->Full_0.target->Some_0.inner,
    ) by {
        lemma_issued_succeeds(signals, later, effects[i].entry->Full_0.target->Some_0.inner);
    }
}

/// An operation that leaves the effects as they are, and revives no cell,
/// leaves a graph at rest at rest.
pub proof fn lemma_wf_kept<V>(g: Graph<V>, h: Graph<V>)
    requires
        g.wf(),
        h.inv(),
        h.effects == g.effects,
        succeeds(g.signals, h.signals),
    ensures
        h.wf(),
{
    lemma_keepers_succeed(g.effects, g.signals, h.signals);
}

/// In a graph at rest the effect that keeps a cell current is its sole keeper.
pub proof fn lemma_sole_keeper<V>(g: Graph<V>, e: Effect, cell: Signal)
    requires
        g.wf(),
        g.runnable(e),
        g.effect(e).target == Some(cell),
    ensures
        g.sole_keeper(cell, e.callback),
{
    assert(g.effects[e.callback.index as int].entry is Full);
}

/// The pool after the first `upto` slots were invalidated where `owned`
/// holds of them: each of those that has a generation left joins the
/// pool, in the order of the slots.
pub open spec fn pool_after_teardown<T>(
    slots: Seq<Slot<T>>,
    pool: Seq<usize>,
    owned: spec_fn(Slot<T>) -> bool,
    upto: int,
) -> Seq<usize>
    decreases upto,
{
    if upto <= 0 {
        pool
    } else {
        let before = pool_after_teardown(slots, pool, owned, upto - 1);
        if upto - 1 < slots.len() && owned(slots[upto - 1]) && slots[upto - 1].generation + 1
            < u64::MAX {
            before.push((upto - 1) as usize)
        } else {
            before
        }
    }
}

/// In a graph that `inv` holds of, the readers of a cell are sound.
pub proof fn lemma_readers_distinct<V>(g: Graph<V>, s: Signal)
    requires
        g.inv(),
        g.has_signal(s),
    ensures
        g.signal(s).subscribers.no_duplicates(),
        g.signal(s).effect_subscribers.no_duplicates(),
        sound_readers(g.signal(s), g.effects),
{
    assert(g.signals[s.inner.index as int].entry is Full);
}

/// Replacing the content of a cell by one with sound readers keeps `inv`.
pub proof fn lemma_with_signal_inv<V>(g: Graph<V>, s: Signal, state: SignalState<V>)
    requires
        g.inv(),
        g.has_signal(s),
        sound_readers(state, g.effects),
    ensures
        g.with_signal(s, state).inv(),
        succeeds(g.signals, g.with_signal(s, state).signals),
{
    let h = g.with_signal(s, state);
    lemma_update_pooled(
        g.signals,
        g.signal_pool,
        s.inner.index as int,
        filled(g.signals[s.inner.index as int], state),
    );
    assert forall|i: int| 0 <= i < h.signals.len() implies match (#[trigger] h.signals[i]).entry {
        Entry::Released => true,
        Entry::Vacant => false,
        Entry::Full(st) => sound_readers(st, h.effects),
    } by {
        if i != s.inner.index as int {
            assert(h.signals[i] == g.signals[i]);
        }
    }
}

/// Whatever becomes of the effects' slots, as long as none is revived or
/// goes back a generation, `inv` is kept.
pub proof fn lemma_effects_succeed_inv<V>(
    g: Graph<V>,
    effects: Seq<Slot<EffectState>>,
    pool: Seq<usize>,
    procedures: Seq<Option<Procedure<V>>>,
)
    requires
        g.inv(),
        pooled(effects, pool),
        succeeds(g.effects, effects),
        stored_where_full(effects, procedures),
    ensures
        (Graph { effects, effect_pool: pool, procedures, ..g }).inv(),
{
    let h = Graph { effects, effect_pool: pool, procedures, ..g };
    assert forall|i: int| 0 <= i < h.signals.len() implies match (#[trigger] h.signals[i]).entry {
        Entry::Released => true,
        Entry::Vacant => false,
        Entry::Full(st) => sound_readers(st, h.effects),
    } by {
        assert(h.signals[i] == g.signals[i]);
        match g.signals[i].entry {
            Entry::Full(st) => {
                assert forall|k: int| 0 <= k < st.effect_subscribers.len() implies issued(
                    effects,
                    (#[trigger] st.effect_subscribers[k]).callback,
                ) by {
                    lemma_issued_succeeds(g.effects, effects, st.effect_subscribers[k].callback);
                }
            },
            _ => {},
        }
    }
}

/// A new cell keeps `inv`, and its name names it.
pub proof fn lemma_with_new_signal<V>(g: Graph<V>, owner: ScopeId, value: V)
    requires
        g.inv(),
        reserved(g.signals, g.signal_pool).len() <= usize::MAX,
    ensures
        g.with_new_signal(owner, value).inv(),
        !g.has_signal(g.next_signal()),
        g.with_new_signal(owner, value).has_signal(g.next_signal()),
        g.with_new_signal(owner, value).signal(g.next_signal()).value == value,
        g.with_new_signal(owner, value).signal(g.next_signal()).owner == owner,
        g.with_new_signal(owner, value).signal(g.next_signal()).effect_subscribers
            == Seq::<Effect>::empty(),
        g.with_new_signal(owner, value).signal(g.next_signal()).subscribers
            == Seq::<ScopeId>::empty(),
        g.with_new_signal(owner, value).later_than(g),
        succeeds(g.signals, g.with_new_signal(owner, value).signals),
        forall|s: Signal| #[trigger]
            g.has_signal(s) ==> g.with_new_signal(owner, value).has_signal(s) && g.with_new_signal(
                owner,
                value,
            ).signal(s) == g.signal(s),
{
    let h = g.with_new_signal(owner, value);
    let at = g.next_signal().inner.index as int;
    let slots = reserved(g.signals, g.signal_pool);
    lemma_reserve_pooled(g.signals, g.signal_pool);
    lemma_reserve_succeeds(g.signals, g.signal_pool);
    lemma_update_pooled(slots, pool_after_reserve(g.signal_pool), at, h.signals[at]);
    assert forall|i: int| 0 <= i < h.signals.len() implies match (#[trigger] h.signals[i]).entry {
        Entry::Released => true,
        Entry::Vacant => false,
        Entry::Full(st) => sound_readers(st, h.effects),
    } by {
        if i != at {
            assert(h.signals[i] == g.signals[i]);
        }
    }
    assert forall|s: Signal| #[trigger] g.has_signal(s) implies h.has_signal(s) && h.signal(s)
        == g.signal(s) by {
        assert(s.inner.index as int != at);
    }
}

/// The number of effects whose procedure is stored: the bound on how deep
/// evaluations can nest.
pub open spec fn idle_count(effects: Seq<Slot<EffectState>>) -> nat
    decreases effects.len(),
{
    if effects.len() == 0 {
        0
    } else {
        idle_count(effects.drop_last()) + if effects.last().entry is Full {
            1nat
        } else {
            0nat
        }
    }
}

/// Replacing one slot changes the number of stored procedures by what the
/// old and the new slot contribute.
pub proof fn lemma_idle_count_update(effects: Seq<Slot<EffectState>>, i: int, slot: Slot<EffectState>)
    requires
        0 <= i < effects.len(),
    ensures
        idle_count(effects.update(i, slot)) + (if effects[i].entry is Full {
            1nat
        } else {
            0nat
        }) == idle_count(effects) + (if slot.entry is Full {
            1nat
        } else {
            0nat
        }),
    decreases effects.len(),
{
    let updated = effects.update(i, slot);
    if i == effects.len() - 1 {
        assert(updated.drop_last() =~= effects.drop_last());
    } else {
        assert(updated.drop_last() =~= effects.drop_last().update(i, slot));
        lemma_idle_count_update(effects.drop_last(), i, slot);
    }
}

/// Those of `reads` that name a cell of `signals` that holds a value, in
/// their order: the reads that were not refused.
pub open spec fn held_reads<V>(signals: Seq<Slot<SignalState<V>>>, reads: Seq<ReadOnlySignal>) -> Seq<
    ReadOnlySignal,
>
    decreases reads.len(),
{
    if reads.len() == 0 {
        reads
    } else if holds(signals, reads.last().source().inner) {
        held_reads(signals, reads.drop_last()).push(reads.last())
    } else {
        held_reads(signals, reads.drop_last())
    }
}

/// The graph after `e` was registered as a reader of each of `reads`.
pub open spec fn subscribe_all<V>(g: Graph<V>, e: Effect, reads: Seq<ReadOnlySignal>) -> Graph<V>
    decreases reads.len(),
{
    if reads.len() == 0 {
        g
    } else {
        subscribe_all(g, e, reads.drop_last()).subscribed(e, reads.last().source())
    }
}

/// The graph right after the procedure of `run.effect` returned and its
/// reads were registered: the effect is still being evaluated.
pub open spec fn discovered<V>(g: Graph<V>, run: Run<V>) -> Graph<V> {
    subscribe_all(g.entered(run.effect), run.effect, run.reads)
}

/// The graph after the evaluation `run`, which started in `g`.
pub open spec fn after_run<V>(g: Graph<V>, run: Run<V>) -> Graph<V>
    decreases run,
{
    let state = g.effect(run.effect);
    let found = discovered(g, run);
    let settled = if run.wrote {
        after_runs(found.stored(state.target->Some_0, run.outcome->Ok_0), run.nested)
    } else {
        found
    };
    settled.left(run.effect, state, run.procedure)
}

/// The graph after the evaluations `runs`, one after the other, the first
/// of which started in `g`.
pub open spec fn after_runs<V>(g: Graph<V>, runs: Seq<Run<V>>) -> Graph<V>
    decreases runs,
{
    if runs.len() == 0 {
        g
    } else {
        after_run(after_runs(g, runs.drop_last()), runs.last())
    }
}

/// The evaluation ended in an error, its own or that of an evaluation it set off.
pub open spec fn run_failed<V>(run: Run<V>) -> bool
    decreases run,
{
    run.outcome is Err || failed(run.nested)
}

/// The last of `runs` ended in an error.
pub open spec fn failed<V>(runs: Seq<Run<V>>) -> bool
    decreases runs,
{
    runs.len() > 0 && run_failed(runs.last())
}

/// The error in which a failed evaluation ended.
pub open spec fn run_error<V>(run: Run<V>) -> Error
    decreases run,
{
    match run.outcome {
        Err(e) => e,
        Ok(_) => error_of(run.nested),
    }
}

/// The error in which the last of `runs` ended, meaningful where `failed(runs)`.
pub open spec fn error_of<V>(runs: Seq<Run<V>>) -> Error
    decreases runs,
{
    if runs.len() > 0 {
        run_error(runs.last())
    } else {
        Error::UseAfterInvalidate
    }
}

/// Whether the result of `run`, started in `g`, is due to be compared with
/// the effect's own cell: the procedure succeeded and the effect has a cell
/// that still holds a value.
pub open spec fn write_back_due<V>(g: Graph<V>, run: Run<V>) -> bool {
    &&& run.outcome is Ok
    &&& g.effect(run.effect).target is Some
    &&& discovered(g, run).has_signal(g.effect(run.effect).target->Some_0)
}

/// `run` is an evaluation that the graph `g` admits: the effect could run,
/// the procedure that was evaluated is the one that its slot stored,
/// every read that is recorded is of a cell that held a value,
/// its result was written to its own cell only where a write-back was due
/// and the value differed, and the write set off exactly the evaluations of
/// the cell's readers.
pub open spec fn valid_run<V: PartialEq>(g: Graph<V>, run: Run<V>) -> bool
    decreases run, 0nat,
{
    let found = discovered(g, run);
    let target = g.effect(run.effect).target->Some_0;
    &&& g.runnable(run.effect)
    &&& g.procedure(run.effect) == run.evaluated
    &&& forall|k: int| 0 <= k < run.reads.len() ==> g.has_signal((#[trigger] run.reads[k]).source())
    &&& run.wrote ==> write_back_due(g, run)
    &&& write_back_due(g, run) && V::obeys_eq_spec() ==> run.wrote == !(run.outcome->Ok_0).eq_spec(
        &found.signal(target).value,
    )
    &&& run.wrote ==> valid_runs(
        found.stored(target, run.outcome->Ok_0),
        found.signal(target).effect_subscribers,
        run.nested,
    )
    &&& !run.wrote ==> run.nested.len() == 0
}

/// `runs` are the evaluations that a write sets off in `g` for the readers
/// `snapshot`, taken in order: a reader is evaluated when its turn comes,
/// unless it cannot run then or an earlier evaluation failed.
pub open spec fn valid_runs<V: PartialEq>(g: Graph<V>, snapshot: Seq<Effect>, runs: Seq<Run<V>>) -> bool
    decreases runs, snapshot.len(),
{
    if snapshot.len() == 0 {
        runs.len() == 0
    } else {
        let e = snapshot.last();
        let before = snapshot.drop_last();
        ||| {
            &&& valid_runs(g, before, runs)
            &&& (failed(runs) || !after_runs(g, runs).runnable(e))
        }
        ||| {
            &&& runs.len() > 0
            &&& runs.last().effect == e
            &&& valid_runs(g, before, runs.drop_last())
            &&& !failed(runs.drop_last())
            &&& valid_run(after_runs(g, runs.drop_last()), runs.last())
        }
    }
}

/// Listing one more issued effect keeps the readers of a cell sound.
pub proof fn lemma_sound_with_reader<V>(state: SignalState<V>, effects: Seq<Slot<EffectState>>, e: Effect)
    requires
        sound_readers(state, effects),
        issued(effects, e.callback),
    ensures
        sound_readers(
            SignalState { effect_subscribers: with_member(state.effect_subscribers, e), ..state },
            effects,
        ),
{
    lemma_with_member(state.effect_subscribers, e);
    let after = with_member(state.effect_subscribers, e);
    assert forall|k: int| 0 <= k < after.len() implies issued(
        effects,
        (#[trigger] after[k]).callback,
    ) by {
        if k < state.effect_subscribers.len() {
            assert(after[k] == state.effect_subscribers[k]);
        }
    }
}

/// Registering readers changes neither the effects nor the requests, and
/// keeps `inv`.
pub proof fn lemma_subscribe_all<V>(g: Graph<V>, e: Effect, reads: Seq<ReadOnlySignal>)
    requires
        g.inv(),
        issued(g.effects, e.callback),
    ensures
        subscribe_all(g, e, reads).inv(),
        subscribe_all(g, e, reads).effects == g.effects,
        subscribe_all(g, e, reads).effect_pool == g.effect_pool,
        subscribe_all(g, e, reads).signal_pool == g.signal_pool,
        subscribe_all(g, e, reads).procedures == g.procedures,
        subscribe_all(g, e, reads).scheduled == g.scheduled,
        subscribe_all(g, e, reads).signals.len() == g.signals.len(),
        succeeds(g.signals, subscribe_all(g, e, reads).signals),
    decreases reads.len(),
{
    if reads.len() > 0 {
        lemma_subscribe_all(g, e, reads.drop_last());
        let h = subscribe_all(g, e, reads.drop_last());
        let s = reads.last().source();
        lemma_succeeds_trans(g.signals, h.signals, subscribe_all(g, e, reads).signals);
        if h.has_signal(s) {
            lemma_readers_distinct(h, s);
            lemma_with_member(h.signal(s).effect_subscribers, e);
            lemma_sound_with_reader(h.signal(s), h.effects, e);
            lemma_with_signal_inv(
                h,
                s,
                SignalState {
                    effect_subscribers: with_member(h.signal(s).effect_subscribers, e),
                    ..h.signal(s)
                },
            );
        }
    }
}

/// Registering an effect in a graph at rest leaves a graph in which the
/// effect can run and no effect is being evaluated; it is at rest unless
/// the effect is to keep a cell that is yet to come.
pub proof fn lemma_registered_wf<V>(
    g: Graph<V>,
    e: Effect,
    state: EffectState,
    reads: Seq<ReadOnlySignal>,
    procedure: Procedure<V>,
)
    requires
        g.wf(),
        e.callback == next_handle(g.effects, g.effect_pool),
        reserved(g.effects, g.effect_pool).len() <= usize::MAX,
    ensures
        registered(g, e, state, reads, procedure).inv(),
        forall|i: int|
            0 <= i < registered(g, e, state, reads, procedure).effects.len() ==> !((#[trigger] registered(g, e, state, reads, procedure).effects[i]).entry is Vacant),
        registered(g, e, state, reads, procedure).runnable(e),
        registered(g, e, state, reads, procedure).effect(e) == state,
        forall|i: int|
            0 <= i < g.effects.len() && i != e.callback.index ==> (#[trigger] registered(g, e, state, reads, procedure).effects[i]) == g.effects[i],
        succeeds(g.signals, registered(g, e, state, reads, procedure).signals),
        state.target is None ==> registered(g, e, state, reads, procedure).wf(),
{
    let h = g.with_new_effect();
    lemma_reserve_pooled(g.effects, g.effect_pool);
    lemma_reserve_succeeds(g.effects, g.effect_pool);
    lemma_effects_succeed_inv(g, h.effects, h.effect_pool, h.procedures);
    lemma_subscribe_all(h, e, reads);
    let found = subscribe_all(h, e, reads);
    let r = registered(g, e, state, reads, procedure);
    let at = e.callback.index as int;
    lemma_update_pooled(found.effects, found.effect_pool, at, filled(found.effects[at], state));
    assert(succeeds(found.effects, r.effects));
    lemma_effects_succeed_inv(found, r.effects, r.effect_pool, r.procedures);
    assert forall|i: int| 0 <= i < r.effects.len() implies !((#[trigger] r.effects[i]).entry
        is Vacant) by {
        if i != at {
            assert(r.effects[i] == g.effects[i]);
        }
    }
    if g.effect_pool.len() > 0 {
        assert(g.effect_pool[g.effect_pool.len() - 1] < g.effects.len());
    }
    lemma_keepers_succeed(g.effects, g.signals, r.signals);
    if state.target is None {
        assert forall|i: int|
            0 <= i < r.effects.len() && i != at && (#[trigger] r.effects[i]).entry
                is Full implies r.effects[i] == g.effects[i] by {}
        assert(sound_keepers(r.effects, r.signals));
    }
}

/// Registering a selector in a graph at rest leaves a graph at rest.
pub proof fn lemma_selector_registered_wf<V>(
    g: Graph<V>,
    owner: ScopeId,
    first: V,
    reads: Seq<ReadOnlySignal>,
    procedure: Procedure<V>,
)
    requires
        g.wf(),
        reserved(g.effects, g.effect_pool).len() <= usize::MAX,
        reserved(g.signals, g.signal_pool).len() <= usize::MAX,
    ensures
        selector_registered(g, owner, first, reads, procedure).wf(),
{
    let e = g.next_effect(owner);
    let cell = g.next_signal();
    let state = EffectState { owner, target: Some(cell) };
    let linked = registered(g, e, state, reads, procedure);
    let after = selector_registered(g, owner, first, reads, procedure);
    lemma_registered_wf(g, e, state, reads, procedure);
    lemma_subscribe_all(g.with_new_effect(), e, reads);
    assert(linked.signal_pool == g.signal_pool && linked.signals.len() == g.signals.len());
    lemma_with_new_signal(linked, owner, first);
    lemma_next_not_issued(g.signals, g.signal_pool);
    lemma_keepers_succeed(g.effects, g.signals, linked.signals);
    lemma_keepers_succeed(g.effects, linked.signals, after.signals);
    assert(linked.next_signal().inner.index == cell.inner.index);
    let at = e.callback.index as int;
    assert forall|i: int|
        0 <= i < after.effects.len() && (#[trigger] after.effects[i]).entry is Full
            && after.effects[i].entry->Full_0.target is Some implies issued(
        after.signals,
        after.effects[i].entry->Full_0.target->Some_0.inner,
    ) by {
        if i != at {
            assert(after.effects[i] == g.effects[i]);
        }
    }
    assert forall|i: int, j: int|
        0 <= i < after.effects.len() && 0 <= j < after.effects.len() && (
        #[trigger] after.effects[i]).entry is Full && (#[trigger] after.effects[j]).entry is Full
            && after.effects[i].entry->Full_0.target is Some && after.effects[i].entry->Full_0.target
            == after.effects[j].entry->Full_0.target implies i == j by {
        if i != at {
            assert(after.effects[i] == g.effects[i]);
        }
        if j != at {
            assert(after.effects[j] == g.effects[j]);
        }
    }
}

/// Writing `v` to the cell `s` of `before` set off the evaluations `runs`
/// and left the graph `after` and the result `result`.
pub open spec fn propagated<V: PartialEq>(
    before: Graph<V>,
    s: Signal,
    v: V,
    runs: Seq<Run<V>>,
    after: Graph<V>,
    result: Result<(), Error>,
) -> bool {
    &&& valid_runs(before.stored(s, v), before.signal(s).effect_subscribers, runs)
    &&& after == after_runs(before.stored(s, v), runs)
    &&& result == if failed(runs) {
        Err::<(), Error>(error_of(runs))
    } else {
        Ok::<(), Error>(())
    }
}

/// Offering `v` to the cell `s` of `before` was found to change it or not
/// (`changed`), set off the evaluations `runs` if it did, and left the
/// graph `after` and the result `result`.
pub open spec fn offered<V: PartialEq>(
    before: Graph<V>,
    s: Signal,
    v: V,
    changed: bool,
    runs: Seq<Run<V>>,
    after: Graph<V>,
    result: Result<bool, Error>,
) -> bool {
    &&& V::obeys_eq_spec() ==> changed == !v.eq_spec(&before.signal(s).value)
    &&& if changed {
        &&& valid_runs(before.stored(s, v), before.signal(s).effect_subscribers, runs)
        &&& after == after_runs(before.stored(s, v), runs)
        &&& result == if failed(runs) {
            Err::<bool, Error>(error_of(runs))
        } else {
            Ok::<bool, Error>(true)
        }
    } else {
        &&& runs.len() == 0
        &&& after == before
        &&& result == Ok::<bool, Error>(false)
    }
}

/// The graph in which the effect `e` with the content `state` has been
/// registered: it is one more effect, a reader of each of `reads`, and its
/// slot stores `procedure`.
pub open spec fn registered<V>(
    g: Graph<V>,
    e: Effect,
    state: EffectState,
    reads: Seq<ReadOnlySignal>,
    procedure: Procedure<V>,
) -> Graph<V> {
    subscribe_all(g.with_new_effect(), e, reads).left(e, state, procedure)
}

/// The graph in which a selector of `owner` has been registered, whose
/// procedure read `reads` and returned `first`: its effect is a reader of
/// each of `reads` and stores `procedure`, and its cell, made last, holds
/// `first` and has no reader.
pub open spec fn selector_registered<V>(
    g: Graph<V>,
    owner: ScopeId,
    first: V,
    reads: Seq<ReadOnlySignal>,
    procedure: Procedure<V>,
) -> Graph<V> {
    registered(
        g,
        g.next_effect(owner),
        EffectState { owner, target: Some(g.next_signal()) },
        reads,
        procedure,
    ).with_new_signal(owner, first)
}

/// Creating a selector in `scope`, whose procedure read `reads`,
/// returned `outcome` and was left as `stored` by its first evaluation,
/// left the graph `after` and the result `result`: where the procedure
/// failed, nothing was created.
pub open spec fn selector_created<V>(
    before: Graph<V>,
    scope: ScopeId,
    reads: Seq<ReadOnlySignal>,
    outcome: Result<V, Error>,
    stored: Procedure<V>,
    after: Graph<V>,
    result: Result<ReadOnlySignal, Error>,
) -> bool {
    match outcome {
        Ok(v) => {
            &&& result is Ok
            &&& result->Ok_0.source() == before.next_signal()
            &&& forall|k: int|
                0 <= k < reads.len() ==> before.has_signal((#[trigger] reads[k]).source())
            &&& after == selector_registered(before, scope, v, reads, stored)
        },
        Err(e) => {
            &&& result == Err::<ReadOnlySignal, Error>(e)
            &&& after == before
        },
    }
}

/// Creating an effect in `scope`, whose procedure read `reads`, ended in
/// `outcome` and was left as `stored` by its first evaluation, left the
/// graph `after` and the result `result`: where the procedure failed,
/// nothing was created.
pub open spec fn effect_created<V>(
    before: Graph<V>,
    scope: ScopeId,
    reads: Seq<ReadOnlySignal>,
    outcome: Result<V, Error>,
    stored: Procedure<V>,
    after: Graph<V>,
    result: Result<Effect, Error>,
) -> bool {
    match outcome {
        Ok(_) => {
            &&& result == Ok::<Effect, Error>(before.next_effect(scope))
            &&& forall|k: int|
                0 <= k < reads.len() ==> before.has_signal((#[trigger] reads[k]).source())
            &&& after == registered(
                before,
                before.next_effect(scope),
                EffectState { owner: scope, target: None },
                reads,
                stored,
            )
        },
        Err(e) => {
            &&& result == Err::<Effect, Error>(e)
            &&& after == before
        },
    }
}

} // verus!
