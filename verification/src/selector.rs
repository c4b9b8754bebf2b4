//! Selectors: cells whose value is computed from other cells, created
//! directly or once per call site, with or without dependencies.

use vstd::prelude::*;
use crate::ambient::current_scope;
use crate::arena::holds;
use crate::effect::Effect;
use crate::error::Error;
use crate::frame::{cell_advanced, lemma_runs_advanced};
use crate::graph::{offered, selector_created, Graph, Run};
use crate::laws::{is_selector_cell, lemma_next_cell_is_plain};
use crate::once::RunOnce;
use crate::runtime::Runtime;
use crate::scope::ScopeId;
use crate::signal::{ReadOnlySignal, Signal};
use crate::tracker::{Compute, ComputeWith, Procedure, Tracker};

verus! {

/// What the call site of a selector with dependencies has made: the cell
/// that holds the dependencies last seen, the selector, and the effect
/// that keeps the selector current.
#[derive(Clone, Copy, Debug, PartialEq, Eq, Structural)]
pub struct Dependent {
    pub dependencies: Signal,
    pub selector: ReadOnlySignal,
    pub effect: Effect,
}

/// `made` is sound in `g`: the cell of the dependencies holds a value and
/// is plain, that is, no selector keeps it current; and the selector's
/// effect can run and keeps the selector's cell current, which holds a
/// value.
pub open spec fn dependent_sound<V>(g: Graph<V>, made: Dependent) -> bool {
    &&& g.has_signal(made.dependencies)
    &&& !is_selector_cell(g, made.dependencies)
    &&& g.has_signal(made.selector.source())
    &&& g.runnable(made.effect)
    &&& g.effect(made.effect).target == Some(made.selector.source())
}

/// The procedure of a selector with dependencies: it reads the cell that
/// holds the dependencies, which makes it a reader of that cell, and hands
/// the value to the procedure it wraps.
#[verifier::reject_recursive_types(V)]
pub struct WithDependencies<V> {
    dependencies: ReadOnlySignal,
    inner: Box<dyn ComputeWith<V>>,
}

impl<V: Copy> WithDependencies<V> {
    /// The cell that holds the dependencies.
    pub closed spec fn cell(&self) -> ReadOnlySignal {
        self.dependencies
    }
}

impl<V: Copy> Compute<V> for WithDependencies<V> {
    fn run(&mut self, tracker: &mut Tracker<'_, V>) -> (r: Result<V, Error>)
        ensures
            final(self).cell() == old(self).cell(),
            !holds(old(tracker).cells(), old(self).cell().source().inner) ==> r == Err::<V, Error>(
                Error::UseAfterInvalidate,
            ) && final(tracker).noted() == old(tracker).noted(),
    {
        match tracker.read(self.dependencies) {
            Ok(dependencies) => self.inner.run(dependencies, tracker),
            Err(e) => Err(e),
        }
    }
}

/// Creating a selector in `scope` left the graph `after` and the result
/// `result`: without a scope nothing is created.
pub open spec fn selector_made<V>(
    before: Graph<V>,
    scope: Option<ScopeId>,
    after: Graph<V>,
    result: Result<ReadOnlySignal, Error>,
) -> bool {
    match scope {
        None => result == Err::<ReadOnlySignal, Error>(Error::NotInReactiveContext) && after
            == before,
        Some(owner) => exists|
            reads: Seq<ReadOnlySignal>,
            outcome: Result<V, Error>,
            stored: Procedure<V>,
        | #[trigger] selector_created(before, owner, reads, outcome, stored, after, result),
    }
}

/// What a memo holds after its call site tried to make `result`.
pub open spec fn memo_after<T>(before: Option<T>, result: Result<T, Error>) -> Option<T> {
    match before {
        Some(first) => Some(first),
        None => match result {
            Ok(made) => Some(made),
            Err(_) => None,
        },
    }
}

/// Reaching the call site of a selector, whose memo held `memo`, in `scope`
/// left the graph `after` and the result `result`: the selector is created
/// the first time, and only handed out again from then on.
pub open spec fn selector_used<V>(
    before: Graph<V>,
    memo: Option<ReadOnlySignal>,
    scope: Option<ScopeId>,
    after: Graph<V>,
    result: Result<ReadOnlySignal, Error>,
) -> bool {
    match memo {
        Some(first) => result == Ok::<ReadOnlySignal, Error>(first) && after == before,
        None => selector_made(before, scope, after, result),
    }
}

/// Reaching the call site of a selector with dependencies, whose memo held
/// `memo`, in `scope` and with the dependencies `dependencies` left the
/// graph `after` and the result `result`. The first time, a cell for the
/// dependencies and the selector are created. From then on the
/// dependencies are offered to that cell, which is written only if they
/// differ from those last seen; the write evaluates the selector, a reader
/// of the cell.
pub open spec fn dependent_used<V: PartialEq>(
    before: Graph<V>,
    memo: Option<Dependent>,
    scope: Option<ScopeId>,
    dependencies: V,
    after: Graph<V>,
    result: Result<ReadOnlySignal, Error>,
) -> bool {
    match memo {
        Some(first) => if before.has_signal(first.dependencies) {
            exists|changed: bool, runs: Seq<Run<V>>, inner: Result<bool, Error>|
                {
                    &&& #[trigger] offered(
                        before,
                        first.dependencies,
                        dependencies,
                        changed,
                        runs,
                        after,
                        inner,
                    )
                    &&& result == match inner {
                        Ok(_) => Ok::<ReadOnlySignal, Error>(first.selector),
                        Err(e) => Err::<ReadOnlySignal, Error>(e),
                    }
                }
        } else {
            result == Err::<ReadOnlySignal, Error>(Error::UseAfterInvalidate) && after == before
        },
        None => match scope {
            None => result == Err::<ReadOnlySignal, Error>(Error::NotInReactiveContext)
                && after == before,
            Some(owner) => exists|
                reads: Seq<ReadOnlySignal>,
                outcome: Result<V, Error>,
                stored: Procedure<V>,
            | #[trigger]
                selector_created(
                    before.with_new_signal(owner, dependencies),
                    owner,
                    reads,
                    outcome,
                    stored,
                    after,
                    result,
                ),
        },
    }
}

/// What the memo of a selector with dependencies holds after its call
/// site was reached.
pub open spec fn dependent_memo_after<V>(
    before: Graph<V>,
    memo: Option<Dependent>,
    scope: Option<ScopeId>,
    result: Result<ReadOnlySignal, Error>,
) -> Option<Dependent> {
    match memo {
        Some(first) => Some(first),
        None => match result {
            Ok(made) => Some(
                Dependent {
                    dependencies: before.next_signal(),
                    selector: made,
                    effect: before.next_effect(scope.unwrap()),
                },
            ),
            Err(_) => None,
        },
    }
}

/// Creates a selector that `scope` owns: `f` is evaluated at once and again
/// whenever a cell it read is written, and the selector's value changes
/// only when the result does. Without a scope nothing is created.
pub fn selector_in_scope<V: Copy + PartialEq>(
    rt: &mut Runtime<V>,
    scope: Option<ScopeId>,
    f: Box<dyn Compute<V>>,
) -> (r: Result<ReadOnlySignal, Error>)
    requires
        old(rt).wf(),
    ensures
        final(rt).wf(),
        final(rt)@.later_than(old(rt)@),
        selector_made(old(rt)@, scope, final(rt)@, r),
{
    rt.create_selector(scope, Procedure { body: f })
}

/// Creates a selector that the scope being rendered owns. Outside a
/// scope the selector is refused.
pub fn selector<V: Copy + PartialEq>(rt: &mut Runtime<V>, f: Box<dyn Compute<V>>) -> (r: Result<
    ReadOnlySignal,
    Error,
>)
    requires
        old(rt).wf(),
    ensures
        final(rt).wf(),
        final(rt)@.later_than(old(rt)@),
        exists|scope: Option<ScopeId>| #[trigger] selector_made(old(rt)@, scope, final(rt)@, r),
{
    let scope = current_scope();
    let r = selector_in_scope(rt, scope, f);
    assert(selector_made(old(rt)@, scope, rt@, r));
    r
}

/// The selector of a call site in `scope`: created when the call site is
/// reached for the first time, and the same one on every later call, on
/// which `f` is dropped and nothing is created or evaluated: every effect
/// goes on storing the procedure it stored.
pub fn use_selector_in_scope<V: Copy + PartialEq>(
    rt: &mut Runtime<V>,
    memo: &mut RunOnce<ReadOnlySignal>,
    scope: Option<ScopeId>,
    f: Box<dyn Compute<V>>,
) -> (r: Result<ReadOnlySignal, Error>)
    requires
        old(rt).wf(),
    ensures
        final(rt).wf(),
        final(rt)@.later_than(old(rt)@),
        selector_used(old(rt)@, old(memo).value(), scope, final(rt)@, r),
        final(memo).value() == memo_after(old(memo).value(), r),
{
    match memo.get() {
        Some(first) => Ok(first),
        None => match selector_in_scope(rt, scope, f) {
            Ok(made) => {
                let kept = memo.keep(made);
                Ok(made)
            },
            Err(e) => Err(e),
        },
    }
}

/// The selector of a call site in the scope being rendered.
pub fn use_selector<V: Copy + PartialEq>(
    rt: &mut Runtime<V>,
    memo: &mut RunOnce<ReadOnlySignal>,
    f: Box<dyn Compute<V>>,
) -> (r: Result<ReadOnlySignal, Error>)
    requires
        old(rt).wf(),
    ensures
        final(rt).wf(),
        final(rt)@.later_than(old(rt)@),
        exists|scope: Option<ScopeId>| #[trigger]
            selector_used(old(rt)@, old(memo).value(), scope, final(rt)@, r),
        final(memo).value() == memo_after(old(memo).value(), r),
{
    let scope = current_scope();
    let r = use_selector_in_scope(rt, memo, scope, f);
    assert(selector_used(old(rt)@, old(memo).value(), scope, rt@, r));
    r
}

/// The selector with dependencies of a call site in `scope`. The first
/// time, the dependencies get a cell of their own and the selector is
/// created: it is a reader of that cell, and `f` computes its value from
/// the dependencies and from whatever else it reads. On every later call
/// `f` is dropped, and the dependencies are compared with those last seen:
/// where they differ the cell is written, which evaluates the selector.
pub fn use_selector_with_dependencies_in_scope<V: Copy + PartialEq + 'static>(
    rt: &mut Runtime<V>,
    memo: &mut RunOnce<Dependent>,
    scope: Option<ScopeId>,
    dependencies: V,
    f: Box<dyn ComputeWith<V>>,
) -> (r: Result<ReadOnlySignal, Error>)
    requires
        old(rt).wf(),
    ensures
        final(rt).wf(),
        final(rt)@.later_than(old(rt)@),
        dependent_used(old(rt)@, old(memo).value(), scope, dependencies, final(rt)@, r),
        final(memo).value() == dependent_memo_after(old(rt)@, old(memo).value(), scope, r),
        old(memo).value().is_none() && r.is_ok() ==> dependent_sound(
            final(rt)@,
            final(memo).value().unwrap(),
        ),
        old(memo).value().is_some() && dependent_sound(old(rt)@, old(memo).value().unwrap())
            ==> dependent_sound(final(rt)@, old(memo).value().unwrap()),
{
    match memo.get() {
        Some(first) => {
            let inner = rt.write_if_changed(first.dependencies, dependencies);
            proof {
                if dependent_sound(old(rt)@, first) {
                    lemma_offer_keeps_dependent(old(rt)@, first, dependencies, rt@, inner);
                }
            }
            match inner {
                Ok(_) => Ok(first.selector),
                Err(e) => Err(e),
            }
        },
        None => match scope {
            None => Err(Error::NotInReactiveContext),
            Some(owner) => {
                proof {
                    lemma_next_cell_is_plain(old(rt)@);
                }
                let cell = rt.create_signal(owner, dependencies);
                let ghost created = rt@;
                let effect = rt.upcoming_effect(owner);
                let procedure: Box<dyn Compute<V>> = Box::new(
                    WithDependencies { dependencies: cell.read_only(), inner: f },
                );
                match rt.create_selector(Some(owner), Procedure { body: procedure }) {
                    Ok(made) => {
                        let kept = memo.keep(
                            Dependent { dependencies: cell, selector: made, effect },
                        );
                        proof {
                            assert(!is_selector_cell(created, cell)) by {
                                if is_selector_cell(created, cell) {
                                    let i = choose|i: int|
                                        0 <= i < created.effects.len() && (
                                        #[trigger] created.effects[i]).entry is Full
                                            && created.effects[i].entry->Full_0.target == Some(cell);
                                    assert(old(rt)@.effects[i].entry is Full);
                                }
                            }
                        }
                        Ok(made)
                    },
                    Err(e) => Err(e),
                }
            },
        },
    }
}

/// Offering dependencies keeps what the call site made sound: whatever
/// the write sets off, the cell of the dependencies stays plain and the
/// selector's effect goes on keeping the selector's cell.
pub proof fn lemma_offer_keeps_dependent<V: PartialEq>(
    before: Graph<V>,
    made: Dependent,
    dependencies: V,
    after: Graph<V>,
    result: Result<bool, Error>,
)
    requires
        before.has_signal(made.dependencies),
        exists|changed: bool, runs: Seq<Run<V>>| #[trigger]
            offered(before, made.dependencies, dependencies, changed, runs, after, result),
        dependent_sound(before, made),
    ensures
        dependent_sound(after, made),
{
    let (changed, runs) = choose|changed: bool, runs: Seq<Run<V>>| #[trigger]
        offered(before, made.dependencies, dependencies, changed, runs, after, result);
    if changed {
        let written = before.stored(made.dependencies, dependencies);
        lemma_runs_advanced(written, before.signal(made.dependencies).effect_subscribers, runs);
        assert(cell_advanced(
            written.signals[made.dependencies.inner.index as int],
            after.signals[made.dependencies.inner.index as int],
        ));
        assert(cell_advanced(
            written.signals[made.selector.source().inner.index as int],
            after.signals[made.selector.source().inner.index as int],
        ));
        assert(after.effects == before.effects);
        if is_selector_cell(after, made.dependencies) {
            let i = choose|i: int|
                0 <= i < after.effects.len() && (#[trigger] after.effects[i]).entry is Full
                    && after.effects[i].entry->Full_0.target == Some(made.dependencies);
            assert(before.effects[i].entry is Full);
        }
    }
}

/// The selector with dependencies of a call site in the scope being rendered.
pub fn use_selector_with_dependencies<V: Copy + PartialEq + 'static>(
    rt: &mut Runtime<V>,
    memo: &mut RunOnce<Dependent>,
    dependencies: V,
    f: Box<dyn ComputeWith<V>>,
) -> (r: Result<ReadOnlySignal, Error>)
    requires
        old(rt).wf(),
    ensures
        final(rt).wf(),
        final(rt)@.later_than(old(rt)@),
        exists|scope: Option<ScopeId>|
            {
                &&& #[trigger] dependent_used(
                    old(rt)@,
                    old(memo).value(),
                    scope,
                    dependencies,
                    final(rt)@,
                    r,
                )
                &&& final(memo).value() == dependent_memo_after(
                    old(rt)@,
                    old(memo).value(),
                    scope,
                    r,
                )
            },
        old(memo).value().is_none() && r.is_ok() ==> dependent_sound(
            final(rt)@,
            final(memo).value().unwrap(),
        ),
        old(memo).value().is_some() && dependent_sound(old(rt)@, old(memo).value().unwrap())
            ==> dependent_sound(final(rt)@, old(memo).value().unwrap()),
{
    let scope = current_scope();
    let r = use_selector_with_dependencies_in_scope(rt, memo, scope, dependencies, f);
    assert(dependent_used(old(rt)@, old(memo).value(), scope, dependencies, rt@, r));
    r
}

} // verus!
