//! What evaluations leave untouched: the lemmas about the model of the graph
//! on which the laws and the runtime rest.

use vstd::prelude::*;
use crate::arena::{next_handle, succeeds, Entry, Slot};
use crate::effect::Effect;
use crate::graph::{
    after_run, after_runs, discovered, held_reads, registered, run_error, run_failed, same_cell,
    subscribe_all, valid_run, valid_runs, EffectState, Graph, Run, SignalState,
};
use crate::signal::{lemma_with_member, ReadOnlySignal, Signal};
use crate::tracker::Procedure;

verus! {

/// The cell in `later` is the cell in `earlier` some evaluations on: it
/// has the same generation, owner and plain consumers, is alive if and only
/// if the other is, and has every reader that the other has.
pub open spec fn cell_advanced<V>(earlier: Slot<SignalState<V>>, later: Slot<SignalState<V>>) -> bool {
    &&& later.generation == earlier.generation
    &&& match earlier.entry {
        Entry::Released => later.entry is Released,
        Entry::Vacant => later.entry is Vacant,
        Entry::Full(before) => {
            &&& later.entry is Full
            &&& later.entry->Full_0.owner == before.owner
            &&& later.entry->Full_0.subscribers == before.subscribers
            &&& forall|x: Effect| #[trigger]
                before.effect_subscribers.contains(x)
                    ==> later.entry->Full_0.effect_subscribers.contains(x)
        },
    }
}

/// The cells of `later` are those of `earlier` some evaluations on, and
/// the requests of `earlier` are still the first of `later`.
pub open spec fn advanced<V>(earlier: Graph<V>, later: Graph<V>) -> bool {
    &&& later.signals.len() == earlier.signals.len()
    &&& forall|i: int|
        0 <= i < earlier.signals.len() ==> cell_advanced(
            earlier.signals[i],
            #[trigger] later.signals[i],
        )
    &&& earlier.scheduled.is_prefix_of(later.scheduled)
}

/// Evaluations on evaluations are evaluations.
pub proof fn lemma_advanced_trans<V>(a: Graph<V>, b: Graph<V>, c: Graph<V>)
    requires
        advanced(a, b),
        advanced(b, c),
    ensures
        advanced(a, c),
{
    assert forall|i: int| 0 <= i < a.signals.len() implies cell_advanced(
        a.signals[i],
        #[trigger] c.signals[i],
    ) by {
        assert(cell_advanced(a.signals[i], b.signals[i]));
        assert(cell_advanced(b.signals[i], c.signals[i]));
    }
}

/// What registering `e` as a reader of `reads` does to one cell that
/// holds a value: its readers are those it had and, where it is among
/// `reads`, `e`. Nothing else of it changes.
pub proof fn lemma_subscribe_all_cell<V>(g: Graph<V>, e: Effect, reads: Seq<ReadOnlySignal>, s: Signal)
    requires
        g.has_signal(s),
    ensures
        subscribe_all(g, e, reads).has_signal(s),
        subscribe_all(g, e, reads).signal(s).value == g.signal(s).value,
        subscribe_all(g, e, reads).signal(s).owner == g.signal(s).owner,
        subscribe_all(g, e, reads).signal(s).subscribers == g.signal(s).subscribers,
        forall|x: Effect| #[trigger]
            g.signal(s).effect_subscribers.contains(x) ==> subscribe_all(g, e, reads).signal(
                s,
            ).effect_subscribers.contains(x),
        forall|x: Effect| #[trigger]
            subscribe_all(g, e, reads).signal(s).effect_subscribers.contains(x) ==> x == e
                || g.signal(s).effect_subscribers.contains(x),
        forall|k: int|
            0 <= k < reads.len() && (#[trigger] reads[k]).source() == s ==> subscribe_all(
                g,
                e,
                reads,
            ).signal(s).effect_subscribers.contains(e),
        (forall|k: int| 0 <= k < reads.len() ==> (#[trigger] reads[k]).source() != s)
            ==> subscribe_all(g, e, reads).signal(s) == g.signal(s),
    decreases reads.len(),
{
    if reads.len() > 0 {
        let h = subscribe_all(g, e, reads.drop_last());
        let t = reads.last().source();
        lemma_subscribe_all_cell(g, e, reads.drop_last(), s);
        let r = h.subscribed(e, t);
        assert(r == subscribe_all(g, e, reads));
        let before = h.signal(s).effect_subscribers;
        if h.has_signal(t) && t.inner.index == s.inner.index {
            assert(t == s);
            assert(reads[reads.len() - 1].source() == s);
            let after = r.signal(s).effect_subscribers;
            lemma_with_member(before, e);
            assert forall|k: int|
                0 <= k < reads.len() && (#[trigger] reads[k]).source() == s implies after.contains(
                e,
            ) by {}
        } else {
            assert(r.signals[s.inner.index as int] == h.signals[s.inner.index as int]);
            if forall|k: int| 0 <= k < reads.len() ==> (#[trigger] reads[k]).source() != s {
                assert forall|k: int| 0 <= k < reads.drop_last().len() implies (
                #[trigger] reads.drop_last()[k]).source() != s by {
                    assert(reads.drop_last()[k] == reads[k]);
                }
            }
            assert forall|k: int|
                0 <= k < reads.len() && (#[trigger] reads[k]).source()
                    == s implies before.contains(e) by {
                if k == reads.len() - 1 {
                    assert(t == s);
                    assert(h.has_signal(s));
                } else {
                    assert(reads.drop_last()[k] == reads[k]);
                }
            }
        }
    }
}

/// Registering `e` as a reader of `reads` touches nothing but the readers
/// of those cells: no value, no effect and no request changes.
pub proof fn lemma_subscribe_all_advanced<V>(g: Graph<V>, e: Effect, reads: Seq<ReadOnlySignal>)
    ensures
        advanced(g, subscribe_all(g, e, reads)),
        subscribe_all(g, e, reads).effects == g.effects,
        subscribe_all(g, e, reads).effect_pool == g.effect_pool,
        subscribe_all(g, e, reads).signal_pool == g.signal_pool,
        subscribe_all(g, e, reads).procedures == g.procedures,
        subscribe_all(g, e, reads).scheduled == g.scheduled,
    decreases reads.len(),
{
    if reads.len() > 0 {
        let h = subscribe_all(g, e, reads.drop_last());
        let s = reads.last().source();
        lemma_subscribe_all_advanced(g, e, reads.drop_last());
        let r = h.subscribed(e, s);
        assert(r == subscribe_all(g, e, reads));
        if h.has_signal(s) {
            lemma_with_member(h.signal(s).effect_subscribers, e);
        }
        assert forall|i: int| 0 <= i < h.signals.len() implies cell_advanced(
            h.signals[i],
            #[trigger] r.signals[i],
        ) by {}
        assert(advanced(h, r));
        lemma_advanced_trans(g, h, r);
    }
}

/// An evaluation that the graph admits leaves every effect as it was and
/// every cell some evaluations on.
pub proof fn lemma_run_advanced<V: PartialEq>(g: Graph<V>, run: Run<V>)
    requires
        valid_run(g, run),
    ensures
        after_run(g, run).effects == g.effects,
        advanced(g, after_run(g, run)),
        advanced(discovered(g, run), after_run(g, run)),
    decreases run, 0nat,
{
    let e = run.effect;
    let state = g.effect(e);
    let found = discovered(g, run);
    lemma_subscribe_all_advanced(g.entered(e), e, run.reads);
    assert(advanced(g, found));
    if run.wrote {
        let target = state.target->Some_0;
        let written = found.stored(target, run.outcome->Ok_0);
        assert(advanced(found, written)) by {
            assert forall|i: int| 0 <= i < found.signals.len() implies cell_advanced(
                found.signals[i],
                #[trigger] written.signals[i],
            ) by {}
        }
        lemma_runs_advanced(written, found.signal(target).effect_subscribers, run.nested);
        let settled = after_runs(written, run.nested);
        lemma_advanced_trans(g, found, written);
        lemma_advanced_trans(g, written, settled);
        lemma_advanced_trans(found, written, settled);
        assert(settled.effects == g.entered(e).effects);
        assert(after_run(g, run).effects =~= g.effects);
        assert(advanced(g, after_run(g, run)));
        assert(advanced(found, after_run(g, run)));
    } else {
        assert(after_run(g, run).effects =~= g.effects);
        assert(advanced(g, after_run(g, run)));
        assert(advanced(found, after_run(g, run)));
    }
}

/// The evaluations that a write sets off leave every effect as it was and
/// every cell some evaluations on.
pub proof fn lemma_runs_advanced<V: PartialEq>(g: Graph<V>, snapshot: Seq<Effect>, runs: Seq<Run<V>>)
    requires
        valid_runs(g, snapshot, runs),
    ensures
        after_runs(g, runs).effects == g.effects,
        advanced(g, after_runs(g, runs)),
    decreases runs, snapshot.len(),
{
    if snapshot.len() == 0 {
    } else {
        let before = snapshot.drop_last();
        if valid_runs(g, before, runs) {
            lemma_runs_advanced(g, before, runs);
        } else {
            let earlier = after_runs(g, runs.drop_last());
            lemma_runs_advanced(g, before, runs.drop_last());
            lemma_run_advanced(earlier, runs.last());
            lemma_advanced_trans(g, earlier, after_run(earlier, runs.last()));
        }
    }
}

/// A write invalidates nothing and revives nothing.
pub proof fn lemma_write_later<V: PartialEq>(g: Graph<V>, s: Signal, v: V, runs: Seq<Run<V>>)
    requires
        g.has_signal(s),
        valid_runs(g.stored(s, v), g.signal(s).effect_subscribers, runs),
    ensures
        after_runs(g.stored(s, v), runs).later_than(g),
        after_runs(g.stored(s, v), runs).effects == g.effects,
        succeeds(g.signals, after_runs(g.stored(s, v), runs).signals),
        forall|cell: Signal| #[trigger]
            g.has_signal(cell) ==> after_runs(g.stored(s, v), runs).has_signal(cell) && after_runs(
                g.stored(s, v),
                runs,
            ).signal(cell).owner == g.signal(cell).owner && after_runs(g.stored(s, v), runs).signal(
                cell,
            ).subscribers == g.signal(cell).subscribers,
{
    let written = g.stored(s, v);
    lemma_runs_advanced(written, g.signal(s).effect_subscribers, runs);
    let after = after_runs(written, runs);
    assert forall|i: int| 0 <= i < g.signals.len() implies g.signals[i].generation <= (
    #[trigger] after.signals[i]).generation && (g.signals[i].generation == after.signals[i].generation
        && !(g.signals[i].entry is Released) ==> !(after.signals[i].entry is Released)) by {
        assert(cell_advanced(written.signals[i], after.signals[i]));
    }
    assert forall|i: int| 0 <= i < g.signals.len() implies g.signals[i].generation <= (
    #[trigger] after.signals[i]).generation by {
        assert(cell_advanced(written.signals[i], after.signals[i]));
    }
    assert forall|cell: Signal| #[trigger] g.has_signal(cell) implies after.has_signal(cell)
        && after.signal(cell).owner == g.signal(cell).owner && after.signal(cell).subscribers
        == g.signal(cell).subscribers by {
        assert(cell_advanced(
            written.signals[cell.inner.index as int],
            after.signals[cell.inner.index as int],
        ));
    }
}

/// Registering an effect invalidates nothing and revives nothing.
pub proof fn lemma_registered_later<V>(
    g: Graph<V>,
    e: Effect,
    state: EffectState,
    reads: Seq<ReadOnlySignal>,
    procedure: Procedure<V>,
)
    requires
        g.inv(),
        e.callback == next_handle(g.effects, g.effect_pool),
    ensures
        registered(g, e, state, reads, procedure).later_than(g),
{
    lemma_subscribe_all_advanced(g.with_new_effect(), e, reads);
    let found = subscribe_all(g.with_new_effect(), e, reads);
    let after = registered(g, e, state, reads, procedure);
    assert forall|i: int| 0 <= i < g.signals.len() implies g.signals[i].generation <= (
    #[trigger] after.signals[i]).generation by {
        assert(cell_advanced(g.with_new_effect().signals[i], found.signals[i]));
    }
    if g.effect_pool.len() > 0 {
        assert(g.effect_pool[g.effect_pool.len() - 1] < g.effects.len());
    }
}

/// Registering an effect leaves every cell its value and every other
/// effect as it was.
pub proof fn lemma_registered_keeps<V>(
    g: Graph<V>,
    e: Effect,
    state: EffectState,
    reads: Seq<ReadOnlySignal>,
    procedure: Procedure<V>,
)
    requires
        g.inv(),
        e.callback == next_handle(g.effects, g.effect_pool),
    ensures
        forall|s: Signal| #[trigger]
            g.has_signal(s) ==> registered(g, e, state, reads, procedure).has_signal(s) && same_cell(
                g.signal(s),
                registered(g, e, state, reads, procedure).signal(s),
            ),
        forall|x: Effect| #[trigger]
            g.runnable(x) ==> registered(g, e, state, reads, procedure).runnable(x) && registered(g, e, state, reads, procedure).effect(x) == g.effect(x),
{
    let after = registered(g, e, state, reads, procedure);
    lemma_subscribe_all_advanced(g.with_new_effect(), e, reads);
    assert forall|s: Signal| #[trigger] g.has_signal(s) implies after.has_signal(s) && same_cell(
        g.signal(s),
        after.signal(s),
    ) by {
        assert(g.with_new_effect().has_signal(s));
        lemma_subscribe_all_cell(g.with_new_effect(), e, reads, s);
    }
    if g.effect_pool.len() > 0 {
        let at = g.effect_pool[g.effect_pool.len() - 1];
        assert(g.effects[at as int].entry is Released);
    }
    assert forall|x: Effect| #[trigger] g.runnable(x) implies after.runnable(x) && after.effect(x)
        == g.effect(x) by {
        assert(x.callback.index != e.callback.index);
        assert(after.effects[x.callback.index as int] == g.effects[x.callback.index as int]);
    }
}

/// Reads that were refused register nobody: registering `e` as a reader
/// of `reads` is registering it as a reader of those that held a value.
pub proof fn lemma_held_reads<V>(g: Graph<V>, e: Effect, reads: Seq<ReadOnlySignal>)
    ensures
        subscribe_all(g, e, held_reads(g.signals, reads)) == subscribe_all(g, e, reads),
        forall|k: int|
            0 <= k < held_reads(g.signals, reads).len() ==> g.has_signal(
                (#[trigger] held_reads(g.signals, reads)[k]).source(),
            ),
    decreases reads.len(),
{
    if reads.len() > 0 {
        let rest = reads.drop_last();
        let last = reads.last();
        lemma_held_reads(g, e, rest);
        lemma_subscribe_all_advanced(g, e, rest);
        let h = subscribe_all(g, e, rest);
        if g.has_signal(last.source()) {
            let held = held_reads(g.signals, rest).push(last);
            assert(held.drop_last() =~= held_reads(g.signals, rest));
            assert(held.last() == last);
        } else {
            if h.has_signal(last.source()) {
                assert(cell_advanced(
                    g.signals[last.source().inner.index as int],
                    h.signals[last.source().inner.index as int],
                ));
            }
        }
    }
}

/// Registering an effect hands out no name for a cell: the next cell gets
/// the name it would have got before.
pub proof fn lemma_registered_next_signal<V>(
    g: Graph<V>,
    e: Effect,
    state: EffectState,
    reads: Seq<ReadOnlySignal>,
    procedure: Procedure<V>,
)
    requires
        g.inv(),
    ensures
        registered(g, e, state, reads, procedure).next_signal() == g.next_signal(),
        registered(g, e, state, reads, procedure).signal_pool == g.signal_pool,
        registered(g, e, state, reads, procedure).signals.len() == g.signals.len(),
{
    lemma_subscribe_all_advanced(g.with_new_effect(), e, reads);
    let found = subscribe_all(g.with_new_effect(), e, reads);
    if g.signal_pool.len() > 0 {
        let at = g.signal_pool[g.signal_pool.len() - 1] as int;
        assert(cell_advanced(g.with_new_effect().signals[at], found.signals[at]));
    }
}

/// An evaluation goes as it goes whichever procedure the slot stored:
/// what is recorded of it but for the procedure evaluated, and the graph it
/// leaves, are the same.
pub proof fn lemma_evaluated_apart<V: PartialEq>(g: Graph<V>, h: Graph<V>, run: Run<V>, other: Run<V>)
    requires
        valid_run(g, run),
        h.runnable(run.effect),
        h.entered(run.effect) == g.entered(run.effect),
        h.effect(run.effect) == g.effect(run.effect),
        h.signals == g.signals,
        other == (Run { evaluated: h.procedure(run.effect), ..run }),
    ensures
        valid_run(h, other),
        after_run(h, other) == after_run(g, run),
        run_failed(other) == run_failed(run),
        run_error(other) == run_error(run),
{
    assert(discovered(h, other) == discovered(g, run));
}

} // verus!
