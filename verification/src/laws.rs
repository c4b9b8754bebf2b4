//! What holds of every graph and every write: subscription, memoisation,
//! invalidation and run-once, each proved from the model of the graph.

use vstd::prelude::*;
use vstd::std_specs::cmp::PartialEqSpec;
use crate::arena::{issued, lemma_next_not_issued, reserved, Handle};
use crate::effect::Effect;
use crate::error::Error;
use crate::frame::{
    cell_advanced, lemma_registered_keeps, lemma_registered_next_signal, lemma_run_advanced,
    lemma_runs_advanced, lemma_subscribe_all_advanced, lemma_subscribe_all_cell,
};
use crate::graph::{
    after_run, after_runs, discovered, failed, lemma_registered_wf,
    lemma_selector_registered_wf, lemma_sole_keeper, lemma_with_new_signal, offered,
    propagated, registered, selector_created, valid_run, valid_runs, write_back_due, EffectState,
    Graph, Run,
};
use crate::scope::ScopeId;
use crate::selector::{dependent_used, memo_after, selector_used, Dependent};
use crate::signal::{ReadOnlySignal, Signal};
use crate::tracker::Procedure;

verus! {

/// Later states of later states are later states.
pub proof fn lemma_later_trans<V>(a: Graph<V>, b: Graph<V>, c: Graph<V>)
    requires
        b.later_than(a),
        c.later_than(b),
    ensures
        c.later_than(a),
{
    assert forall|i: int| 0 <= i < a.signals.len() implies a.signals[i].generation <= (
    #[trigger] c.signals[i]).generation by {
        assert(a.signals[i].generation <= b.signals[i].generation);
    }
    assert forall|i: int| 0 <= i < a.effects.len() implies a.effects[i].generation <= (
    #[trigger] c.effects[i]).generation by {
        assert(a.effects[i].generation <= b.effects[i].generation);
    }
}

/// Stale is stale for ever. A cell that was invalidated holds no value
/// in any later state, so every read and every write of it is refused from
/// then on, whatever was done in between and whoever has the slot now.
pub proof fn lemma_stale_forever<V>(earlier: Graph<V>, later: Graph<V>, s: Signal)
    requires
        earlier.retired(s),
        later.later_than(earlier),
    ensures
        later.retired(s),
        !later.has_signal(s),
{
    assert(earlier.signals[s.inner.index as int].generation <= later.signals[s.inner.index as int].generation);
}

/// A torn down scope stays torn down. A cell whose owner was torn down
/// holds no value in any later state.
pub proof fn lemma_torn_down_forever<V>(g: Graph<V>, scope: ScopeId, later: Graph<V>, s: Signal)
    requires
        g.inv(),
        g.has_signal(s),
        g.signal(s).owner == scope,
        later.later_than(g.torn_down(scope)),
    ensures
        !later.has_signal(s),
{
    assert(g.signals[s.inner.index as int].generation < u64::MAX);
    assert(g.torn_down(scope).retired(s));
    lemma_stale_forever(g.torn_down(scope), later, s);
}

/// Reading subscribes. An effect that read the cell `s` in an evaluation is
/// a reader of `s` when the evaluation is over, whatever else happened in it.
pub proof fn lemma_reading_subscribes<V: PartialEq>(g: Graph<V>, run: Run<V>, k: int)
    requires
        valid_run(g, run),
        0 <= k < run.reads.len(),
        g.has_signal(run.reads[k].source()),
    ensures
        after_run(g, run).has_signal(run.reads[k].source()),
        after_run(g, run).signal(run.reads[k].source()).effect_subscribers.contains(run.effect),
{
    let s = run.reads[k].source();
    let found = discovered(g, run);
    assert(g.entered(run.effect).has_signal(s));
    lemma_subscribe_all_cell(g.entered(run.effect), run.effect, run.reads, s);
    lemma_run_advanced(g, run);
    assert(cell_advanced(
        found.signals[s.inner.index as int],
        after_run(g, run).signals[s.inner.index as int],
    ));
}

/// Reading subscribes, from the first evaluation on. An effect that read
/// the cell `s` when it was registered is a reader of `s` from then on.
pub proof fn lemma_first_reading_subscribes<V>(
    g: Graph<V>,
    e: Effect,
    state: EffectState,
    reads: Seq<ReadOnlySignal>,
    procedure: Procedure<V>,
    k: int,
)
    requires
        0 <= k < reads.len(),
        g.has_signal(reads[k].source()),
    ensures
        registered(g, e, state, reads, procedure).has_signal(reads[k].source()),
        registered(g, e, state, reads, procedure).signal(reads[k].source()).effect_subscribers.contains(e),
{
    let s = reads[k].source();
    assert(g.with_new_effect().has_signal(s));
    lemma_subscribe_all_cell(g.with_new_effect(), e, reads, s);
}

/// Every reader is evaluated. Where the evaluations that a write set off
/// all succeeded, every effect of `snapshot` that could run when the write
/// began is among them.
pub proof fn lemma_readers_rerun<V: PartialEq>(
    g: Graph<V>,
    snapshot: Seq<Effect>,
    runs: Seq<Run<V>>,
    e: Effect,
)
    requires
        valid_runs(g, snapshot, runs),
        !failed(runs),
        snapshot.contains(e),
        g.runnable(e),
    ensures
        exists|i: int| 0 <= i < runs.len() && (#[trigger] runs[i]).effect == e,
    decreases snapshot.len(),
{
    let last = snapshot.last();
    let before = snapshot.drop_last();
    let at = choose|j: int| 0 <= j < snapshot.len() && snapshot[j] == e;
    lemma_runs_advanced(g, snapshot, runs);
    if valid_runs(g, before, runs) && (failed(runs) || !after_runs(g, runs).runnable(last)) {
        assert(e != last);
        assert(before[at] == e);
        lemma_readers_rerun(g, before, runs, e);
    } else {
        if e == last {
            assert(runs[runs.len() - 1].effect == e);
        } else {
            assert(before[at] == e);
            lemma_readers_rerun(g, before, runs.drop_last(), e);
            let i = choose|i: int|
                0 <= i < runs.drop_last().len() && (#[trigger] runs.drop_last()[i]).effect == e;
            assert(runs[i].effect == e);
        }
    }
}

/// Subscription is honoured. An effect that is a reader of `s`, and whose
/// procedure is stored, is evaluated before a write to `s` returns,
/// provided that the write succeeds.
pub proof fn lemma_write_reruns_readers<V: PartialEq>(
    before: Graph<V>,
    s: Signal,
    v: V,
    runs: Seq<Run<V>>,
    after: Graph<V>,
    e: Effect,
)
    requires
        before.has_signal(s),
        propagated(before, s, v, runs, after, Ok::<(), Error>(())),
        before.signal(s).effect_subscribers.contains(e),
        before.runnable(e),
    ensures
        exists|i: int| 0 <= i < runs.len() && (#[trigger] runs[i]).effect == e,
{
    lemma_readers_rerun(before.stored(s, v), before.signal(s).effect_subscribers, runs, e);
}

/// Only readers are evaluated. Each evaluation that a write to a cell
/// sets off itself is one of an effect that was a reader of the cell when
/// the write began.
pub proof fn lemma_only_readers_rerun<V: PartialEq>(
    g: Graph<V>,
    snapshot: Seq<Effect>,
    runs: Seq<Run<V>>,
    i: int,
)
    requires
        valid_runs(g, snapshot, runs),
        0 <= i < runs.len(),
    ensures
        snapshot.contains(runs[i].effect),
    decreases snapshot.len(),
{
    if snapshot.len() > 0 {
        let before = snapshot.drop_last();
        if valid_runs(g, before, runs) {
            lemma_only_readers_rerun(g, before, runs, i);
            let j = choose|j: int| 0 <= j < before.len() && before[j] == runs[i].effect;
            assert(snapshot[j] == runs[i].effect);
        } else if i == runs.len() - 1 {
            assert(snapshot[snapshot.len() - 1] == runs[i].effect);
        } else {
            lemma_only_readers_rerun(g, before, runs.drop_last(), i);
            let j = choose|j: int|
                0 <= j < before.len() && before[j] == runs.drop_last()[i].effect;
            assert(snapshot[j] == runs[i].effect);
        }
    }
}

/// No spurious evaluation. A write to `s` does not itself set off an
/// evaluation of an effect that is no reader of `s`.
pub proof fn lemma_write_spares_others<V: PartialEq>(
    before: Graph<V>,
    s: Signal,
    v: V,
    runs: Seq<Run<V>>,
    after: Graph<V>,
    result: Result<(), Error>,
    e: Effect,
)
    requires
        before.has_signal(s),
        propagated(before, s, v, runs, after, result),
        !before.signal(s).effect_subscribers.contains(e),
    ensures
        forall|i: int| 0 <= i < runs.len() ==> (#[trigger] runs[i]).effect != e,
{
    assert forall|i: int| 0 <= i < runs.len() implies (#[trigger] runs[i]).effect != e by {
        lemma_only_readers_rerun(
            before.stored(s, v),
            before.signal(s).effect_subscribers,
            runs,
            i,
        );
    }
}

/// A selector is memoised. Where the procedure of a selector returns what
/// the selector's cell holds already, the evaluation writes nothing: the
/// cell keeps its value, no update of a consumer is requested and no
/// effect is evaluated in its course.
pub proof fn lemma_selector_memoized<V: PartialEq>(g: Graph<V>, run: Run<V>, cell: Signal, v: V)
    requires
        valid_run(g, run),
        V::obeys_eq_spec(),
        g.effect(run.effect).target == Some(cell),
        g.has_signal(cell),
        run.outcome == Ok::<V, Error>(v),
        v.eq_spec(&g.signal(cell).value),
    ensures
        !run.wrote,
        run.nested.len() == 0,
        after_run(g, run).has_signal(cell),
        after_run(g, run).signal(cell).value == g.signal(cell).value,
        after_run(g, run).scheduled == g.scheduled,
{
    assert(g.entered(run.effect).has_signal(cell));
    lemma_subscribe_all_cell(g.entered(run.effect), run.effect, run.reads, cell);
    lemma_subscribe_all_advanced(g.entered(run.effect), run.effect, run.reads);
    assert(write_back_due(g, run));
}

/// A selector follows its procedure. Where the procedure of a selector
/// returns a value that differs from what the selector's cell holds, the
/// evaluation writes it: hence, once the evaluation is over, the cell
/// holds that value, unless an evaluation that the write set off wrote the
/// cell again.
pub proof fn lemma_selector_writes_change<V: PartialEq>(g: Graph<V>, run: Run<V>, cell: Signal, v: V)
    requires
        valid_run(g, run),
        V::obeys_eq_spec(),
        g.effect(run.effect).target == Some(cell),
        g.has_signal(cell),
        run.outcome == Ok::<V, Error>(v),
        !v.eq_spec(&g.signal(cell).value),
    ensures
        run.wrote,
        run.nested.len() == 0 ==> after_run(g, run).has_signal(cell) && after_run(g, run).signal(
            cell,
        ).value == v,
{
    assert(g.entered(run.effect).has_signal(cell));
    lemma_subscribe_all_cell(g.entered(run.effect), run.effect, run.reads, cell);
    assert(write_back_due(g, run));
}

/// Teardown invalidates. A cell that `scope` owns holds no value once
/// the scope is torn down, so every read and every write of it is refused.
pub proof fn lemma_teardown_invalidates<V>(g: Graph<V>, scope: ScopeId, s: Signal)
    requires
        g.has_signal(s),
        g.signal(s).owner == scope,
    ensures
        !g.torn_down(scope).has_signal(s),
{
}

/// Teardown invalidates effects too: the effects that `scope` owns cannot
/// run once the scope is torn down.
pub proof fn lemma_teardown_stops_effects<V>(g: Graph<V>, scope: ScopeId, e: Effect)
    requires
        g.runnable(e),
        g.effect(e).owner == scope,
    ensures
        !g.torn_down(scope).runnable(e),
{
}

/// Teardown spares what other scopes own.
pub proof fn lemma_teardown_spares_others<V>(g: Graph<V>, scope: ScopeId, s: Signal)
    requires
        g.has_signal(s),
        g.signal(s).owner != scope,
    ensures
        g.torn_down(scope).has_signal(s),
        g.torn_down(scope).signal(s) == g.signal(s),
{
}

/// The effect in the slot `slot` is evaluated in `run` or in an
/// evaluation that `run` set off, at any depth.
pub open spec fn run_evaluates<V>(run: Run<V>, slot: Handle) -> bool
    decreases run,
{
    run.effect.callback == slot || evaluates(run.nested, slot)
}

/// The effect in the slot `slot` is evaluated in one of `runs`, at any depth.
pub open spec fn evaluates<V>(runs: Seq<Run<V>>, slot: Handle) -> bool
    decreases runs,
{
    runs.len() > 0 && (evaluates(runs.drop_last(), slot) || run_evaluates(runs.last(), slot))
}

/// The effect in the slot `slot` is listed among `readers`, under whatever scope.
pub open spec fn listed(readers: Seq<Effect>, slot: Handle) -> bool {
    exists|k: int| 0 <= k < readers.len() && (#[trigger] readers[k]).callback == slot
}

/// `cell` is kept current by a selector of `g` whose procedure is stored.
pub open spec fn is_selector_cell<V>(g: Graph<V>, cell: Signal) -> bool {
    exists|i: int|
        0 <= i < g.effects.len() && (#[trigger] g.effects[i]).entry is Full
            && g.effects[i].entry->Full_0.target == Some(cell)
}

/// The cell that is made next is plain: in a graph at rest no selector
/// keeps current a cell whose name is yet to be issued.
pub proof fn lemma_next_cell_is_plain<V>(g: Graph<V>)
    requires
        g.wf(),
    ensures
        !is_selector_cell(g, g.next_signal()),
{
    lemma_next_not_issued(g.signals, g.signal_pool);
    if is_selector_cell(g, g.next_signal()) {
        let i = choose|i: int|
            0 <= i < g.effects.len() && (#[trigger] g.effects[i]).entry is Full
                && g.effects[i].entry->Full_0.target == Some(g.next_signal());
        assert(issued(g.signals, g.effects[i].entry->Full_0.target->Some_0.inner));
    }
}

/// The cells that a selector of `g` keeps current.
pub open spec fn selector_cells<V>(g: Graph<V>) -> Set<Signal> {
    Set::new(|t: Signal| is_selector_cell(g, t))
}

/// Right after a cell was written and before any effect ran, every
/// selector keeps one of the cells that the selectors kept before.
proof fn lemma_selector_cells_cover<V>(before: Graph<V>, s: Signal, v: V)
    ensures
        targets_within(before.stored(s, v), selector_cells(before)),
{
    let written = before.stored(s, v);
    assert forall|i: int|
        0 <= i < written.effects.len() && (#[trigger] written.effects[i]).entry is Full
            && written.effects[i].entry->Full_0.target is Some implies selector_cells(
        before,
    ).contains(written.effects[i].entry->Full_0.target->Some_0) by {
        assert(is_selector_cell(before, written.effects[i].entry->Full_0.target->Some_0));
    }
}

/// Every selector of `g` whose procedure is stored keeps a cell of `cells` current.
pub open spec fn targets_within<V>(g: Graph<V>, cells: Set<Signal>) -> bool {
    forall|i: int|
        0 <= i < g.effects.len() && (#[trigger] g.effects[i]).entry is Full
            && g.effects[i].entry->Full_0.target is Some ==> cells.contains(
            g.effects[i].entry->Full_0.target->Some_0,
        )
}

/// The effect in the slot `slot` is a reader of no cell of `cells`.
pub open spec fn apart<V>(g: Graph<V>, slot: Handle, cells: Set<Signal>) -> bool {
    forall|t: Signal|
        cells.contains(t) && #[trigger] g.has_signal(t) ==> !listed(
            g.signal(t).effect_subscribers,
            slot,
        )
}

proof fn lemma_run_spares<V: PartialEq>(g: Graph<V>, run: Run<V>, slot: Handle, cells: Set<Signal>)
    requires
        valid_run(g, run),
        run.effect.callback != slot,
        targets_within(g, cells),
        apart(g, slot, cells),
    ensures
        !run_evaluates(run, slot),
        apart(after_run(g, run), slot, cells),
    decreases run, 0nat,
{
    let state = g.effect(run.effect);
    let entered = g.entered(run.effect);
    let found = discovered(g, run);
    lemma_subscribe_all_advanced(entered, run.effect, run.reads);
    assert forall|t: Signal| cells.contains(t) && #[trigger] found.has_signal(t) implies !listed(
        found.signal(t).effect_subscribers,
        slot,
    ) by {
        assert(cell_advanced(entered.signals[t.inner.index as int], found.signals[t.inner.index as int]));
        assert(g.has_signal(t));
        lemma_subscribe_all_cell(entered, run.effect, run.reads, t);
        if listed(found.signal(t).effect_subscribers, slot) {
            let k = choose|k: int|
                0 <= k < found.signal(t).effect_subscribers.len() && (
                #[trigger] found.signal(t).effect_subscribers[k]).callback == slot;
            let x = found.signal(t).effect_subscribers[k];
            assert(found.signal(t).effect_subscribers.contains(x));
            assert(g.signal(t).effect_subscribers.contains(x));
            let j = choose|j: int|
                0 <= j < g.signal(t).effect_subscribers.len() && g.signal(t).effect_subscribers[j]
                    == x;
            assert(g.signal(t).effect_subscribers[j].callback == slot);
        }
    }
    if run.wrote {
        let target = state.target->Some_0;
        assert(g.effects[run.effect.callback.index as int].entry is Full);
        assert(cells.contains(target));
        let written = found.stored(target, run.outcome->Ok_0);
        assert forall|t: Signal| cells.contains(t) && #[trigger] written.has_signal(
            t,
        ) implies !listed(written.signal(t).effect_subscribers, slot) by {
            assert(found.has_signal(t));
        }
        assert forall|i: int|
            0 <= i < written.effects.len() && (#[trigger] written.effects[i]).entry is Full
                && written.effects[i].entry->Full_0.target is Some implies cells.contains(
            written.effects[i].entry->Full_0.target->Some_0,
        ) by {
            assert(written.effects[i] == g.effects[i]);
        }
        assert(found.has_signal(target));
        lemma_runs_spares(written, found.signal(target).effect_subscribers, run.nested, slot, cells);
        let settled = after_runs(written, run.nested);
        assert forall|t: Signal| cells.contains(t) && #[trigger] after_run(g, run).has_signal(
            t,
        ) implies !listed(after_run(g, run).signal(t).effect_subscribers, slot) by {
            assert(settled.has_signal(t));
        }
    } else {
        assert(run.nested.len() == 0);
        assert forall|t: Signal| cells.contains(t) && #[trigger] after_run(g, run).has_signal(
            t,
        ) implies !listed(after_run(g, run).signal(t).effect_subscribers, slot) by {
            assert(found.has_signal(t));
        }
    }
}

proof fn lemma_runs_spares<V: PartialEq>(
    g: Graph<V>,
    snapshot: Seq<Effect>,
    runs: Seq<Run<V>>,
    slot: Handle,
    cells: Set<Signal>,
)
    requires
        valid_runs(g, snapshot, runs),
        !listed(snapshot, slot),
        targets_within(g, cells),
        apart(g, slot, cells),
    ensures
        !evaluates(runs, slot),
        apart(after_runs(g, runs), slot, cells),
    decreases runs, snapshot.len(),
{
    if snapshot.len() > 0 {
        let before = snapshot.drop_last();
        assert(!listed(before, slot)) by {
            if listed(before, slot) {
                let j = choose|j: int| 0 <= j < before.len() && (#[trigger] before[j]).callback == slot;
                assert(snapshot[j].callback == slot);
            }
        }
        if valid_runs(g, before, runs) {
            lemma_runs_spares(g, before, runs, slot, cells);
        } else {
            let earlier = after_runs(g, runs.drop_last());
            lemma_runs_spares(g, before, runs.drop_last(), slot, cells);
            lemma_runs_advanced(g, before, runs.drop_last());
            assert(runs.last().effect.callback != slot) by {
                if runs.last().effect.callback == slot {
                    assert(snapshot[snapshot.len() - 1].callback == slot);
                }
            }
            lemma_run_spares(earlier, runs.last(), slot, cells);
        }
    }
}

proof fn lemma_run_keeps_value<V: PartialEq>(g: Graph<V>, run: Run<V>, cells: Set<Signal>, t: Signal)
    requires
        valid_run(g, run),
        targets_within(g, cells),
        !cells.contains(t),
        g.has_signal(t),
    ensures
        after_run(g, run).has_signal(t),
        after_run(g, run).signal(t).value == g.signal(t).value,
    decreases run, 0nat,
{
    let state = g.effect(run.effect);
    let entered = g.entered(run.effect);
    let found = discovered(g, run);
    assert(entered.has_signal(t));
    lemma_subscribe_all_cell(entered, run.effect, run.reads, t);
    lemma_subscribe_all_advanced(entered, run.effect, run.reads);
    if run.wrote {
        let target = state.target->Some_0;
        assert(g.effects[run.effect.callback.index as int].entry is Full);
        assert(cells.contains(target));
        assert(found.has_signal(target));
        let written = found.stored(target, run.outcome->Ok_0);
        assert(written.has_signal(t) && written.signal(t).value == found.signal(t).value);
        assert forall|i: int|
            0 <= i < written.effects.len() && (#[trigger] written.effects[i]).entry is Full
                && written.effects[i].entry->Full_0.target is Some implies cells.contains(
            written.effects[i].entry->Full_0.target->Some_0,
        ) by {
            assert(written.effects[i] == g.effects[i]);
        }
        lemma_runs_keep_value(
            written,
            found.signal(target).effect_subscribers,
            run.nested,
            cells,
            t,
        );
    }
}

proof fn lemma_runs_keep_value<V: PartialEq>(
    g: Graph<V>,
    snapshot: Seq<Effect>,
    runs: Seq<Run<V>>,
    cells: Set<Signal>,
    t: Signal,
)
    requires
        valid_runs(g, snapshot, runs),
        targets_within(g, cells),
        !cells.contains(t),
        g.has_signal(t),
    ensures
        after_runs(g, runs).has_signal(t),
        after_runs(g, runs).signal(t).value == g.signal(t).value,
    decreases runs, snapshot.len(),
{
    if snapshot.len() > 0 {
        let before = snapshot.drop_last();
        if valid_runs(g, before, runs) {
            lemma_runs_keep_value(g, before, runs, cells, t);
        } else {
            let earlier = after_runs(g, runs.drop_last());
            lemma_runs_keep_value(g, before, runs.drop_last(), cells, t);
            lemma_runs_advanced(g, before, runs.drop_last());
            lemma_run_keeps_value(earlier, runs.last(), cells, t);
        }
    }
}

/// `run`, or an evaluation that it set off, is an evaluation of the
/// effect in the slot `keeper` that wrote its result to its cell.
pub open spec fn run_writes<V>(run: Run<V>, keeper: Handle) -> bool
    decreases run,
{
    (run.effect.callback == keeper && run.wrote) || writes(run.nested, keeper)
}

/// One of `runs`, at any depth, is an evaluation of the effect in the
/// slot `keeper` that wrote its result to its cell.
pub open spec fn writes<V>(runs: Seq<Run<V>>, keeper: Handle) -> bool
    decreases runs,
{
    runs.len() > 0 && (writes(runs.drop_last(), keeper) || run_writes(runs.last(), keeper))
}

proof fn lemma_run_keeps_kept<V: PartialEq>(g: Graph<V>, run: Run<V>, cell: Signal, keeper: Handle)
    requires
        valid_run(g, run),
        g.has_signal(cell),
        g.sole_keeper(cell, keeper),
        !run_writes(run, keeper),
    ensures
        after_run(g, run).has_signal(cell),
        after_run(g, run).signal(cell).value == g.signal(cell).value,
    decreases run, 0nat,
{
    let state = g.effect(run.effect);
    let entered = g.entered(run.effect);
    let found = discovered(g, run);
    assert(entered.has_signal(cell));
    lemma_subscribe_all_cell(entered, run.effect, run.reads, cell);
    lemma_subscribe_all_advanced(entered, run.effect, run.reads);
    if run.wrote {
        let target = state.target->Some_0;
        assert(g.effects[run.effect.callback.index as int].entry is Full);
        assert(found.has_signal(target));
        assert(target != cell);
        let written = found.stored(target, run.outcome->Ok_0);
        assert(written.has_signal(cell) && written.signal(cell).value == found.signal(cell).value);
        assert(written.sole_keeper(cell, keeper)) by {
            assert forall|i: int|
                0 <= i < written.effects.len() && (#[trigger] written.effects[i]).entry is Full
                    && written.effects[i].entry->Full_0.target == Some(cell) implies i
                == keeper.index by {
                assert(written.effects[i] == g.effects[i]);
            }
        }
        lemma_runs_keep_kept(
            written,
            found.signal(target).effect_subscribers,
            run.nested,
            cell,
            keeper,
        );
    }
}

proof fn lemma_runs_keep_kept<V: PartialEq>(
    g: Graph<V>,
    snapshot: Seq<Effect>,
    runs: Seq<Run<V>>,
    cell: Signal,
    keeper: Handle,
)
    requires
        valid_runs(g, snapshot, runs),
        g.has_signal(cell),
        g.sole_keeper(cell, keeper),
        !writes(runs, keeper),
    ensures
        after_runs(g, runs).has_signal(cell),
        after_runs(g, runs).signal(cell).value == g.signal(cell).value,
    decreases runs, snapshot.len(),
{
    if snapshot.len() > 0 {
        let before = snapshot.drop_last();
        if valid_runs(g, before, runs) {
            lemma_runs_keep_kept(g, before, runs, cell, keeper);
        } else {
            let earlier = after_runs(g, runs.drop_last());
            lemma_runs_keep_kept(g, before, runs.drop_last(), cell, keeper);
            lemma_runs_advanced(g, before, runs.drop_last());
            lemma_run_keeps_kept(earlier, runs.last(), cell, keeper);
        }
    }
}

/// The cell `cell` holds after an evaluation what the evaluation left in
/// it: the result `w` where the evaluation wrote, else what it held, which
/// the result then equals.
pub open spec fn follows<V: PartialEq>(held: V, wrote: bool, w: V, after: V) -> bool {
    &&& wrote ==> after == w
    &&& !wrote ==> after == held
    &&& V::obeys_eq_spec() ==> wrote == !w.eq_spec(&held)
}

proof fn lemma_keeper_run_follows<V: PartialEq>(
    g: Graph<V>,
    run: Run<V>,
    cell: Signal,
    keeper: Handle,
    w: V,
)
    requires
        valid_run(g, run),
        g.has_signal(cell),
        g.sole_keeper(cell, keeper),
        run.effect.callback == keeper,
        g.effect(run.effect).target == Some(cell),
        run.outcome == Ok::<V, Error>(w),
        !writes(run.nested, keeper),
    ensures
        after_run(g, run).has_signal(cell),
        follows(g.signal(cell).value, run.wrote, w, after_run(g, run).signal(cell).value),
{
    let entered = g.entered(run.effect);
    let found = discovered(g, run);
    assert(entered.has_signal(cell));
    lemma_subscribe_all_cell(entered, run.effect, run.reads, cell);
    lemma_subscribe_all_advanced(entered, run.effect, run.reads);
    assert(write_back_due(g, run));
    if run.wrote {
        let written = found.stored(cell, w);
        assert(written.has_signal(cell) && written.signal(cell).value == w);
        assert(written.sole_keeper(cell, keeper)) by {
            assert forall|i: int|
                0 <= i < written.effects.len() && (#[trigger] written.effects[i]).entry is Full
                    && written.effects[i].entry->Full_0.target == Some(cell) implies i
                == keeper.index by {
                if i != keeper.index {
                    assert(written.effects[i] == g.effects[i]);
                }
            }
        }
        lemma_runs_keep_kept(written, found.signal(cell).effect_subscribers, run.nested, cell, keeper);
    }
}

proof fn lemma_runs_follow<V: PartialEq>(
    g: Graph<V>,
    snapshot: Seq<Effect>,
    runs: Seq<Run<V>>,
    cell: Signal,
    keeper: Handle,
    at: int,
    w: V,
)
    requires
        valid_runs(g, snapshot, runs),
        g.has_signal(cell),
        g.sole_keeper(cell, keeper),
        g.effects[keeper.index as int].entry is Full,
        g.effects[keeper.index as int].entry->Full_0.target == Some(cell),
        0 <= at < runs.len(),
        runs[at].effect.callback == keeper,
        runs[at].outcome == Ok::<V, Error>(w),
        !writes(runs[at].nested, keeper),
        !writes(runs.take(at), keeper),
        forall|j: int| at < j < runs.len() ==> !run_writes(#[trigger] runs[j], keeper),
    ensures
        after_runs(g, runs).has_signal(cell),
        follows(g.signal(cell).value, runs[at].wrote, w, after_runs(g, runs).signal(cell).value),
    decreases runs, snapshot.len(),
{
    if snapshot.len() > 0 {
        let before = snapshot.drop_last();
        if valid_runs(g, before, runs) {
            lemma_runs_follow(g, before, runs, cell, keeper, at, w);
        } else {
            let rest = runs.drop_last();
            let earlier = after_runs(g, rest);
            lemma_runs_advanced(g, before, rest);
            if at == runs.len() - 1 {
                assert(runs.take(at) =~= rest);
                lemma_runs_keep_kept(g, before, rest, cell, keeper);
                lemma_keeper_run_follows(earlier, runs.last(), cell, keeper, w);
            } else {
                assert(rest[at] == runs[at]);
                assert(rest.take(at) =~= runs.take(at));
                assert forall|j: int| at < j < rest.len() implies !run_writes(
                    #[trigger] rest[j],
                    keeper,
                ) by {
                    assert(rest[j] == runs[j]);
                }
                lemma_runs_follow(g, before, rest, cell, keeper, at, w);
                assert(!run_writes(runs[runs.len() - 1], keeper));
                lemma_run_keeps_kept(earlier, runs.last(), cell, keeper);
            }
        }
    }
}

/// A selector follows its procedure through a whole write. Where the
/// write to `s` itself sets off the evaluation `runs[at]` of a selector's
/// effect, the procedure returns `w`, and no other evaluation in the course
/// of the write is one of that effect that writes, the selector's cell
/// holds when the write returns what that evaluation left in it: `w` where
/// `w` differs from what the cell held, else what it held, which `w` equals.
pub proof fn lemma_selector_follows_through_write<V: PartialEq>(
    before: Graph<V>,
    s: Signal,
    v: V,
    runs: Seq<Run<V>>,
    after: Graph<V>,
    result: Result<(), Error>,
    e: Effect,
    cell: Signal,
    at: int,
    w: V,
)
    requires
        before.wf(),
        before.has_signal(s),
        propagated(before, s, v, runs, after, result),
        before.runnable(e),
        before.effect(e).target == Some(cell),
        before.has_signal(cell),
        cell != s,
        0 <= at < runs.len(),
        runs[at].effect.callback == e.callback,
        runs[at].outcome == Ok::<V, Error>(w),
        !writes(runs[at].nested, e.callback),
        !writes(runs.take(at), e.callback),
        forall|j: int| at < j < runs.len() ==> !run_writes(#[trigger] runs[j], e.callback),
    ensures
        after.has_signal(cell),
        follows(before.signal(cell).value, runs[at].wrote, w, after.signal(cell).value),
{
    lemma_sole_keeper(before, e, cell);
    let written = before.stored(s, v);
    assert(written.has_signal(cell) && written.signal(cell).value == before.signal(cell).value);
    lemma_runs_follow(written, before.signal(s).effect_subscribers, runs, cell, e.callback, at, w);
}

proof fn lemma_run_keeps_procedure<V: PartialEq>(g: Graph<V>, run: Run<V>, x: Effect)
    requires
        valid_run(g, run),
        g.runnable(x),
        g.procedures.len() == g.effects.len(),
        !run_evaluates(run, x.callback),
    ensures
        after_run(g, run).runnable(x),
        after_run(g, run).procedures.len() == g.procedures.len(),
        after_run(g, run).procedure(x) == g.procedure(x),
    decreases run, 0nat,
{
    let state = g.effect(run.effect);
    let entered = g.entered(run.effect);
    let found = discovered(g, run);
    lemma_subscribe_all_advanced(entered, run.effect, run.reads);
    lemma_run_advanced(g, run);
    assert(run.effect.callback.index != x.callback.index);
    if run.wrote {
        let target = state.target->Some_0;
        let written = found.stored(target, run.outcome->Ok_0);
        assert(written.runnable(x));
        lemma_runs_keep_procedure(written, found.signal(target).effect_subscribers, run.nested, x);
    }
}

proof fn lemma_runs_keep_procedure<V: PartialEq>(
    g: Graph<V>,
    snapshot: Seq<Effect>,
    runs: Seq<Run<V>>,
    x: Effect,
)
    requires
        valid_runs(g, snapshot, runs),
        g.runnable(x),
        g.procedures.len() == g.effects.len(),
        !evaluates(runs, x.callback),
    ensures
        after_runs(g, runs).runnable(x),
        after_runs(g, runs).procedures.len() == g.procedures.len(),
        after_runs(g, runs).procedure(x) == g.procedure(x),
    decreases runs, snapshot.len(),
{
    if snapshot.len() > 0 {
        let before = snapshot.drop_last();
        if valid_runs(g, before, runs) {
            lemma_runs_keep_procedure(g, before, runs, x);
        } else {
            let earlier = after_runs(g, runs.drop_last());
            lemma_runs_keep_procedure(g, before, runs.drop_last(), x);
            lemma_runs_advanced(g, before, runs.drop_last());
            lemma_run_keeps_procedure(earlier, runs.last(), x);
        }
    }
}

/// What is not evaluated keeps its procedure. An effect that is not
/// evaluated in the course of a write stores, when the write returns, the
/// procedure it stored; one that is evaluated was evaluated as its slot
/// stored it, and stores what its last evaluation left. A procedure that
/// was handed to a call and dropped is stored nowhere.
pub proof fn lemma_unevaluated_keeps_procedure<V: PartialEq>(
    before: Graph<V>,
    s: Signal,
    v: V,
    runs: Seq<Run<V>>,
    after: Graph<V>,
    result: Result<(), Error>,
    x: Effect,
)
    requires
        before.inv(),
        before.has_signal(s),
        propagated(before, s, v, runs, after, result),
        before.runnable(x),
        !evaluates(runs, x.callback),
    ensures
        after.runnable(x),
        after.procedure(x) == before.procedure(x),
{
    lemma_runs_keep_procedure(before.stored(s, v), before.signal(s).effect_subscribers, runs, x);
}

/// One effect alone writes a selector's cell. A cell that a selector
/// keeps current, and that is not itself written, holds after a write what
/// it held before, unless an evaluation of the selector's effect wrote to
/// it in the course of the write: no other evaluation changes it.
pub proof fn lemma_selector_cell_changes_only_by_its_effect<V: PartialEq>(
    before: Graph<V>,
    s: Signal,
    v: V,
    runs: Seq<Run<V>>,
    after: Graph<V>,
    result: Result<(), Error>,
    e: Effect,
    cell: Signal,
)
    requires
        before.wf(),
        before.has_signal(s),
        propagated(before, s, v, runs, after, result),
        before.runnable(e),
        before.effect(e).target == Some(cell),
        before.has_signal(cell),
        cell != s,
        !writes(runs, e.callback),
    ensures
        after.has_signal(cell),
        after.signal(cell).value == before.signal(cell).value,
{
    lemma_sole_keeper(before, e, cell);
    let written = before.stored(s, v);
    assert(written.has_signal(cell) && written.signal(cell).value == before.signal(cell).value);
    lemma_runs_keep_kept(written, before.signal(s).effect_subscribers, runs, cell, e.callback);
}

/// A selector is memoised through a whole write. Where no evaluation of
/// a selector's effect in the course of a write returned a value that
/// differs from what the selector's cell held, the cell holds what it held
/// before when the write returns.
pub proof fn lemma_selector_memoized_through_write<V: PartialEq>(
    before: Graph<V>,
    s: Signal,
    v: V,
    runs: Seq<Run<V>>,
    after: Graph<V>,
    result: Result<(), Error>,
    e: Effect,
    cell: Signal,
)
    requires
        before.wf(),
        before.has_signal(s),
        propagated(before, s, v, runs, after, result),
        before.runnable(e),
        before.effect(e).target == Some(cell),
        before.has_signal(cell),
        cell != s,
        V::obeys_eq_spec(),
        forall|run: Run<V>| #[trigger]
            evaluated_in(runs, run) && run.effect.callback == e.callback ==> run.outcome is Ok ==> (
            run.outcome->Ok_0).eq_spec(&before.signal(cell).value),
    ensures
        after.has_signal(cell),
        after.signal(cell).value == before.signal(cell).value,
        !writes(runs, e.callback),
{
    lemma_sole_keeper(before, e, cell);
    let written = before.stored(s, v);
    assert(written.has_signal(cell) && written.signal(cell).value == before.signal(cell).value);
    lemma_runs_memoized(
        written,
        before.signal(s).effect_subscribers,
        runs,
        runs,
        cell,
        e.callback,
    );
    lemma_runs_keep_kept(written, before.signal(s).effect_subscribers, runs, cell, e.callback);
}

/// `run` is one of `runs` or of the evaluations that they set off, at any depth.
pub open spec fn evaluated_in<V>(runs: Seq<Run<V>>, run: Run<V>) -> bool
    decreases runs,
{
    runs.len() > 0 && (evaluated_in(runs.drop_last(), run) || runs.last() == run || evaluated_in(
        runs.last().nested,
        run,
    ))
}

proof fn lemma_run_memoized<V: PartialEq>(
    g: Graph<V>,
    run: Run<V>,
    all: Seq<Run<V>>,
    cell: Signal,
    keeper: Handle,
)
    requires
        valid_run(g, run),
        g.has_signal(cell),
        g.sole_keeper(cell, keeper),
        g.effects[keeper.index as int].entry is Full ==> g.effects[keeper.index as int].entry->Full_0.target
            == Some(cell),
        V::obeys_eq_spec(),
        evaluated_in(all, run),
        forall|other: Run<V>| #[trigger] evaluated_in(run.nested, other) ==> evaluated_in(all, other),
        forall|other: Run<V>| #[trigger]
            evaluated_in(all, other) && other.effect.callback == keeper ==> other.outcome is Ok ==> (
            other.outcome->Ok_0).eq_spec(&g.signal(cell).value),
    ensures
        !run_writes(run, keeper),
    decreases run, 0nat,
{
    let state = g.effect(run.effect);
    let entered = g.entered(run.effect);
    let found = discovered(g, run);
    assert(entered.has_signal(cell));
    lemma_subscribe_all_cell(entered, run.effect, run.reads, cell);
    lemma_subscribe_all_advanced(entered, run.effect, run.reads);
    if run.wrote {
        let target = state.target->Some_0;
        assert(g.effects[run.effect.callback.index as int].entry is Full);
        assert(found.has_signal(target));
        if target == cell {
            assert(run.effect.callback == keeper);
        }
        if run.effect.callback == keeper {
            assert(target == cell);
            assert(found.signal(cell).value == g.signal(cell).value);
            assert(false);
        }
        let written = found.stored(target, run.outcome->Ok_0);
        assert(written.has_signal(cell) && written.signal(cell).value == g.signal(cell).value);
        assert(written.sole_keeper(cell, keeper)) by {
            assert forall|i: int|
                0 <= i < written.effects.len() && (#[trigger] written.effects[i]).entry is Full
                    && written.effects[i].entry->Full_0.target == Some(cell) implies i
                == keeper.index by {
                assert(written.effects[i] == g.effects[i]);
            }
        }
        lemma_runs_memoized(
            written,
            found.signal(target).effect_subscribers,
            run.nested,
            all,
            cell,
            keeper,
        );
    } else {
        assert(run.nested.len() == 0);
    }
}

proof fn lemma_runs_memoized<V: PartialEq>(
    g: Graph<V>,
    snapshot: Seq<Effect>,
    runs: Seq<Run<V>>,
    all: Seq<Run<V>>,
    cell: Signal,
    keeper: Handle,
)
    requires
        valid_runs(g, snapshot, runs),
        g.has_signal(cell),
        g.sole_keeper(cell, keeper),
        g.effects[keeper.index as int].entry is Full ==> g.effects[keeper.index as int].entry->Full_0.target
            == Some(cell),
        V::obeys_eq_spec(),
        forall|other: Run<V>| #[trigger] evaluated_in(runs, other) ==> evaluated_in(all, other),
        forall|other: Run<V>| #[trigger]
            evaluated_in(all, other) && other.effect.callback == keeper ==> other.outcome is Ok ==> (
            other.outcome->Ok_0).eq_spec(&g.signal(cell).value),
    ensures
        !writes(runs, keeper),
    decreases runs, snapshot.len(),
{
    if snapshot.len() > 0 {
        let before = snapshot.drop_last();
        if valid_runs(g, before, runs) {
            lemma_runs_memoized(g, before, runs, all, cell, keeper);
        } else {
            let earlier = after_runs(g, runs.drop_last());
            let last = runs.last();
            assert forall|other: Run<V>| #[trigger]
                evaluated_in(runs.drop_last(), other) implies evaluated_in(all, other) by {
                assert(evaluated_in(runs, other));
            }
            lemma_runs_memoized(g, before, runs.drop_last(), all, cell, keeper);
            lemma_runs_keep_kept(g, before, runs.drop_last(), cell, keeper);
            lemma_runs_advanced(g, before, runs.drop_last());
            assert(evaluated_in(runs, last));
            assert forall|other: Run<V>| #[trigger]
                evaluated_in(last.nested, other) implies evaluated_in(all, other) by {
                assert(evaluated_in(runs, other));
            }
            lemma_run_memoized(earlier, last, all, cell, keeper);
        }
    }
}

/// A write is kept. When a write to the cell `s` returns, `s` holds the
/// value written, provided that no selector keeps `s` current.
pub proof fn lemma_write_is_kept<V: PartialEq>(
    before: Graph<V>,
    s: Signal,
    v: V,
    runs: Seq<Run<V>>,
    after: Graph<V>,
    result: Result<(), Error>,
)
    requires
        before.has_signal(s),
        propagated(before, s, v, runs, after, result),
        !is_selector_cell(before, s),
    ensures
        after.has_signal(s),
        after.signal(s).value == v,
{
    let cells = selector_cells(before);
    let written = before.stored(s, v);
    lemma_selector_cells_cover(before, s, v);
    lemma_runs_keep_value(written, before.signal(s).effect_subscribers, runs, cells, s);
}

/// A write touches no other plain cell. A cell other than the one written
/// that no selector keeps current holds, when the write returns, what it
/// held before.
pub proof fn lemma_write_spares_plain_cells<V: PartialEq>(
    before: Graph<V>,
    s: Signal,
    v: V,
    runs: Seq<Run<V>>,
    after: Graph<V>,
    result: Result<(), Error>,
    other: Signal,
)
    requires
        before.has_signal(s),
        propagated(before, s, v, runs, after, result),
        before.has_signal(other),
        other != s,
        !is_selector_cell(before, other),
    ensures
        after.has_signal(other),
        after.signal(other).value == before.signal(other).value,
{
    let cells = selector_cells(before);
    let written = before.stored(s, v);
    lemma_selector_cells_cover(before, s, v);
    assert(written.has_signal(other) && written.signal(other).value == before.signal(other).value);
    lemma_runs_keep_value(written, before.signal(s).effect_subscribers, runs, cells, other);
}

/// Each reader is evaluated at most once by the write itself. The
/// evaluations that a write to a cell sets off itself are evaluations of
/// different effects, as the readers of a cell are listed once each.
pub proof fn lemma_each_reader_once<V: PartialEq>(
    g: Graph<V>,
    snapshot: Seq<Effect>,
    runs: Seq<Run<V>>,
    i: int,
    j: int,
)
    requires
        valid_runs(g, snapshot, runs),
        snapshot.no_duplicates(),
        0 <= i < j < runs.len(),
    ensures
        runs[i].effect != runs[j].effect,
    decreases snapshot.len(),
{
    if snapshot.len() > 0 {
        let before = snapshot.drop_last();
        assert(before.no_duplicates());
        if valid_runs(g, before, runs) {
            lemma_each_reader_once(g, before, runs, i, j);
        } else if j == runs.len() - 1 {
            lemma_only_readers_rerun(g, before, runs.drop_last(), i);
            let k = choose|k: int| 0 <= k < before.len() && before[k] == runs.drop_last()[i].effect;
            assert(snapshot[k] == runs[i].effect);
            assert(snapshot[snapshot.len() - 1] == runs[j].effect);
        } else {
            lemma_each_reader_once(g, before, runs.drop_last(), i, j);
        }
    }
}

/// No spurious evaluation, at any depth. An effect that is a reader
/// neither of the cell that is written nor of any cell that a selector
/// keeps current is not evaluated in the course of the write, neither by
/// the write itself nor by a write that a selector made in its course.
pub proof fn lemma_write_spares_strangers<V: PartialEq>(
    before: Graph<V>,
    s: Signal,
    v: V,
    runs: Seq<Run<V>>,
    after: Graph<V>,
    result: Result<(), Error>,
    slot: Handle,
)
    requires
        before.has_signal(s),
        propagated(before, s, v, runs, after, result),
        !listed(before.signal(s).effect_subscribers, slot),
        forall|t: Signal|
            #[trigger] is_selector_cell(before, t) && before.has_signal(t) ==> !listed(
                before.signal(t).effect_subscribers,
                slot,
            ),
    ensures
        !evaluates(runs, slot),
        !writes(runs, slot),
{
    let cells = selector_cells(before);
    let written = before.stored(s, v);
    lemma_selector_cells_cover(before, s, v);
    assert forall|t: Signal| cells.contains(t) && #[trigger] written.has_signal(
        t,
    ) implies !listed(written.signal(t).effect_subscribers, slot) by {
        assert(is_selector_cell(before, t));
        assert(before.has_signal(t));
    }
    lemma_runs_spares(written, before.signal(s).effect_subscribers, runs, slot, cells);
    lemma_writes_evaluates(runs, slot);
}

/// An evaluation that wrote is an evaluation.
pub proof fn lemma_writes_evaluates<V>(runs: Seq<Run<V>>, slot: Handle)
    ensures
        writes(runs, slot) ==> evaluates(runs, slot),
    decreases runs, 1nat,
{
    if runs.len() > 0 {
        lemma_writes_evaluates(runs.drop_last(), slot);
        lemma_run_writes_evaluates(runs.last(), slot);
    }
}

proof fn lemma_run_writes_evaluates<V>(run: Run<V>, slot: Handle)
    ensures
        run_writes(run, slot) ==> run_evaluates(run, slot),
    decreases run, 0nat,
{
    lemma_writes_evaluates(run.nested, slot);
}

/// No cell lists an effect that is yet to come: the name that the next
/// effect will get is among the readers of no cell.
pub proof fn lemma_effect_to_come_reads_nothing<V>(g: Graph<V>, scope: ScopeId, s: Signal)
    requires
        g.inv(),
        g.has_signal(s),
    ensures
        !g.signal(s).effect_subscribers.contains(g.next_effect(scope)),
        !listed(g.signal(s).effect_subscribers, g.next_effect(scope).callback),
{
    let e = g.next_effect(scope);
    lemma_next_not_issued(g.effects, g.effect_pool);
    assert(g.signals[s.inner.index as int].entry is Full);
    if listed(g.signal(s).effect_subscribers, e.callback) {
        let k = choose|k: int|
            0 <= k < g.signal(s).effect_subscribers.len() && (
            #[trigger] g.signal(s).effect_subscribers[k]).callback == e.callback;
        assert(issued(g.effects, g.signal(s).effect_subscribers[k].callback));
    }
    if g.signal(s).effect_subscribers.contains(e) {
        let k = choose|k: int|
            0 <= k < g.signal(s).effect_subscribers.len() && g.signal(s).effect_subscribers[k] == e;
        assert(g.signal(s).effect_subscribers[k].callback == e.callback);
    }
}

/// A new selector reads only what it read. The effect of a selector is a
/// reader of no cell that its procedure did not read in its first
/// evaluation, so a write to such a cell does not itself set off an
/// evaluation of the selector.
pub proof fn lemma_selector_reads_only_what_it_read<V>(
    before: Graph<V>,
    scope: ScopeId,
    reads: Seq<ReadOnlySignal>,
    v: V,
    stored: Procedure<V>,
    after: Graph<V>,
    result: Result<ReadOnlySignal, Error>,
    s: Signal,
)
    requires
        before.wf(),
        reserved(before.signals, before.signal_pool).len() <= usize::MAX,
        reserved(before.effects, before.effect_pool).len() <= usize::MAX,
        selector_created(before, scope, reads, Ok::<V, Error>(v), stored, after, result),
        before.has_signal(s),
        forall|k: int| 0 <= k < reads.len() ==> (#[trigger] reads[k]).source() != s,
    ensures
        after.has_signal(s),
        after.signal(s) == before.signal(s),
        !after.signal(s).effect_subscribers.contains(before.next_effect(scope)),
        !listed(after.signal(s).effect_subscribers, before.next_effect(scope).callback),
{
    let e = before.next_effect(scope);
    let state = EffectState { owner: scope, target: Some(before.next_signal()) };
    let linked = registered(before, e, state, reads, stored);
    lemma_effect_to_come_reads_nothing(before, scope, s);
    assert(before.with_new_effect().has_signal(s));
    lemma_subscribe_all_cell(before.with_new_effect(), e, reads, s);
    lemma_registered_wf(before, e, state, reads, stored);
    lemma_registered_next_signal(before, e, state, reads, stored);
    assert(linked.has_signal(s));
    lemma_with_new_signal(linked, scope, v);
}

/// No spurious evaluation of a new selector. A selector whose procedure,
/// in its first evaluation, read neither the cell `s` nor a cell that a
/// selector keeps current is not evaluated in the course of a write to `s`,
/// at any depth, and holds after the write the value it was created with.
pub proof fn lemma_new_selector_is_spared<V: PartialEq>(
    before: Graph<V>,
    scope: ScopeId,
    reads: Seq<ReadOnlySignal>,
    first: V,
    stored: Procedure<V>,
    created: Graph<V>,
    selector: Result<ReadOnlySignal, Error>,
    s: Signal,
    v: V,
    runs: Seq<Run<V>>,
    after: Graph<V>,
    result: Result<(), Error>,
)
    requires
        before.wf(),
        reserved(before.signals, before.signal_pool).len() <= usize::MAX,
        reserved(before.effects, before.effect_pool).len() <= usize::MAX,
        selector_created(before, scope, reads, Ok::<V, Error>(first), stored, created, selector),
        before.has_signal(s),
        forall|k: int| 0 <= k < reads.len() ==> (#[trigger] reads[k]).source() != s,
        forall|k: int| 0 <= k < reads.len() ==> !is_selector_cell(before, (#[trigger] reads[k]).source()),
        propagated(created, s, v, runs, after, result),
    ensures
        !listed(created.signal(s).effect_subscribers, before.next_effect(scope).callback),
        !evaluates(runs, before.next_effect(scope).callback),
        after.has_signal(selector->Ok_0.source()),
        after.signal(selector->Ok_0.source()).value == first,
{
    let e = before.next_effect(scope);
    let cell = before.next_signal();
    let state = EffectState { owner: scope, target: Some(cell) };
    let linked = registered(before, e, state, reads, stored);
    lemma_selector_is_one_of_each(before, scope, reads, first, stored, created, selector);
    lemma_selector_reads_only_what_it_read(before, scope, reads, first, stored, created, selector, s);
    lemma_selector_registered_wf(before, scope, first, reads, stored);
    lemma_registered_wf(before, e, state, reads, stored);
    assert forall|t: Signal|
        #[trigger] is_selector_cell(created, t) && created.has_signal(t) implies !listed(
        created.signal(t).effect_subscribers,
        e.callback,
    ) by {
        let i = choose|i: int|
            0 <= i < created.effects.len() && (#[trigger] created.effects[i]).entry is Full
                && created.effects[i].entry->Full_0.target == Some(t);
        assert(created.effects == linked.effects);
        lemma_subscribe_all_advanced(before.with_new_effect(), e, reads);
        if i == e.callback.index {
            assert(t == cell);
        } else {
            if before.effect_pool.len() == 0 {
                assert(linked.effects.len() == before.effects.len() + 1);
                assert(e.callback.index == before.effects.len());
            } else {
                assert(linked.effects.len() == before.effects.len());
            }
            assert(i < before.effects.len());
            assert(linked.effects[i] == before.effects[i]);
            assert(is_selector_cell(before, t));
            lemma_next_not_issued(before.signals, before.signal_pool);
            assert(issued(before.signals, t.inner));
            assert(t != cell);
            assert(before.has_signal(t)) by {
                lemma_registered_next_signal(before, e, state, reads, stored);
                lemma_with_new_signal(linked, scope, first);
                lemma_registered_keeps(before, e, state, reads, stored);
                if !before.has_signal(t) {
                    lemma_subscribe_all_advanced(before.with_new_effect(), e, reads);
                    assert(cell_advanced(
                        before.with_new_effect().signals[t.inner.index as int],
                        linked.signals[t.inner.index as int],
                    ));
                }
            }
            lemma_selector_reads_only_what_it_read(before, scope, reads, first, stored, created, selector, t);
        }
    }
    lemma_write_spares_strangers(created, s, v, runs, after, result, e.callback);
    assert(cell != s);
    lemma_selector_cell_changes_only_by_its_effect(created, s, v, runs, after, result, e, cell);
}

/// A selector is one cell and one effect. Creating a selector makes a
/// cell, which holds what the procedure returned and has no reader, and an
/// effect, which keeps that cell current; every cell that was there is as
/// it was but for its readers.
pub proof fn lemma_selector_is_one_of_each<V>(
    before: Graph<V>,
    scope: ScopeId,
    reads: Seq<ReadOnlySignal>,
    v: V,
    stored: Procedure<V>,
    after: Graph<V>,
    result: Result<ReadOnlySignal, Error>,
)
    requires
        before.wf(),
        reserved(before.signals, before.signal_pool).len() <= usize::MAX,
        reserved(before.effects, before.effect_pool).len() <= usize::MAX,
        selector_created(before, scope, reads, Ok::<V, Error>(v), stored, after, result),
    ensures
        !before.has_signal(result->Ok_0.source()),
        !before.runnable(before.next_effect(scope)),
        after.has_signal(result->Ok_0.source()),
        after.signal(result->Ok_0.source()).value == v,
        after.signal(result->Ok_0.source()).effect_subscribers == Seq::<Effect>::empty(),
        after.runnable(before.next_effect(scope)),
        after.effect(before.next_effect(scope)).target == Some(result->Ok_0.source()),
        forall|s: Signal| #[trigger]
            before.has_signal(s) ==> after.has_signal(s) && after.signal(s).value == before.signal(
                s,
            ).value,
{
    let cell = before.next_signal();
    let e = before.next_effect(scope);
    let state = EffectState { owner: scope, target: Some(cell) };
    let linked = registered(before, e, state, reads, stored);
    lemma_registered_wf(before, e, state, reads, stored);
    lemma_registered_keeps(before, e, state, reads, stored);
    lemma_registered_next_signal(before, e, state, reads, stored);
    lemma_with_new_signal(linked, scope, v);
    lemma_with_new_signal(before, scope, v);
    lemma_next_not_issued(before.effects, before.effect_pool);
    assert forall|s: Signal| #[trigger] before.has_signal(s) implies after.has_signal(s)
        && after.signal(s).value == before.signal(s).value by {
        assert(linked.has_signal(s));
    }
}

/// Run once. A call site that has made its selector makes no other one:
/// reached again, in whatever scope, it hands out the selector it made and
/// leaves the graph as it is.
pub proof fn lemma_second_use_creates_nothing<V>(
    before: Graph<V>,
    scope: Option<ScopeId>,
    between: Graph<V>,
    first: Result<ReadOnlySignal, Error>,
    again: Option<ScopeId>,
    after: Graph<V>,
    second: Result<ReadOnlySignal, Error>,
)
    requires
        selector_used(before, None, scope, between, first),
        first is Ok,
        selector_used(between, memo_after(None, first), again, after, second),
    ensures
        second == first,
        after == between,
{
}

/// Unchanged dependencies change nothing. Where the call site of a
/// selector with dependencies is reached again with dependencies equal to
/// those last seen, the graph stays as it is: the selector keeps its value
/// and nothing is evaluated.
pub proof fn lemma_same_dependencies_change_nothing<V: PartialEq>(
    before: Graph<V>,
    made: Dependent,
    scope: Option<ScopeId>,
    dependencies: V,
    after: Graph<V>,
    result: Result<ReadOnlySignal, Error>,
)
    requires
        V::obeys_eq_spec(),
        before.has_signal(made.dependencies),
        dependencies.eq_spec(&before.signal(made.dependencies).value),
        dependent_used(before, Some(made), scope, dependencies, after, result),
    ensures
        after == before,
        result == Ok::<ReadOnlySignal, Error>(made.selector),
{
}

/// Whether `result` is a success or which error it is, and no more.
pub open spec fn without_value<T>(result: Result<T, Error>) -> Result<(), Error> {
    match result {
        Ok(_) => Ok(()),
        Err(e) => Err(e),
    }
}

/// Changed dependencies are written. Where the call site of a selector
/// with dependencies is reached again with dependencies that differ from
/// those last seen, they are written to their cell as `write` does it, which
/// evaluates the selector, a reader of that cell.
pub proof fn lemma_changed_dependencies_are_written<V: PartialEq>(
    before: Graph<V>,
    made: Dependent,
    scope: Option<ScopeId>,
    dependencies: V,
    after: Graph<V>,
    result: Result<ReadOnlySignal, Error>,
)
    requires
        V::obeys_eq_spec(),
        before.has_signal(made.dependencies),
        !dependencies.eq_spec(&before.signal(made.dependencies).value),
        dependent_used(before, Some(made), scope, dependencies, after, result),
    ensures
        exists|runs: Seq<Run<V>>| #[trigger]
            propagated(
                before,
                made.dependencies,
                dependencies,
                runs,
                after,
                without_value(result),
            ),
        result is Ok ==> result == Ok::<ReadOnlySignal, Error>(made.selector),
{
    let (changed, runs, inner) = choose|changed: bool, runs: Seq<Run<V>>, inner: Result<bool, Error>|
        {
            &&& #[trigger] offered(before, made.dependencies, dependencies, changed, runs, after, inner)
            &&& result == match inner {
                Ok(_) => Ok::<ReadOnlySignal, Error>(made.selector),
                Err(e) => Err::<ReadOnlySignal, Error>(e),
            }
        };
    assert(propagated(
        before,
        made.dependencies,
        dependencies,
        runs,
        after,
        without_value(result),
    ));
}

} // verus!
