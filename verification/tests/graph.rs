use std::cell::{Cell, RefCell};
use std::rc::Rc;

use signals::effect::Effect;
use signals::error::Error;
use signals::runtime::Runtime;
use signals::scope::ScopeId;
use signals::signal::{ReadOnlySignal, Signal};
use signals::tracker::{Compute, Procedure as Stored, Tracker};

/// A procedure made of a closure; it counts its evaluations.
struct Procedure<F> {
    runs: Rc<Cell<u32>>,
    body: F,
}

impl<F: FnMut(&mut Tracker<'_, i64>) -> Result<i64, Error>> Compute<i64> for Procedure<F> {
    fn run(&mut self, tracker: &mut Tracker<'_, i64>) -> Result<i64, Error> {
        self.runs.set(self.runs.get() + 1);
        (self.body)(tracker)
    }
}

fn procedure<F>(runs: &Rc<Cell<u32>>, body: F) -> Stored<i64>
where
    F: FnMut(&mut Tracker<'_, i64>) -> Result<i64, Error> + 'static,
{
    Stored { body: Box::new(Procedure { runs: runs.clone(), body }) }
}

fn reader(runs: &Rc<Cell<u32>>, source: ReadOnlySignal) -> Stored<i64> {
    procedure(runs, move |t| t.read(source))
}

const SCOPE: ScopeId = ScopeId(1);

#[test]
fn signal_holds_the_last_write() {
    let mut rt: Runtime<i64> = Runtime::new();
    let s = rt.create_signal(SCOPE, 1);
    assert_eq!(rt.peek(s.read_only()), Ok(1));
    assert_eq!(rt.write(s, 2), Ok(()));
    assert_eq!(rt.write(s, 2), Ok(()));
    assert_eq!(rt.write(s, 3), Ok(()));
    assert_eq!(rt.peek(s.read_only()), Ok(3));
}

#[test]
fn effect_runs_at_once_and_after_each_write_of_what_it_read() {
    let mut rt: Runtime<i64> = Runtime::new();
    let s = rt.create_signal(SCOPE, 1);
    let runs = Rc::new(Cell::new(0));
    let seen = Rc::new(RefCell::new(Vec::new()));
    let log = seen.clone();
    let source = s.read_only();
    let effect = rt
        .create_effect(
            Some(SCOPE),
            procedure(&runs, move |t| {
                let v = t.read(source)?;
                log.borrow_mut().push(v);
                Ok(v)
            }),
        )
        .unwrap();
    assert_eq!(effect.source, SCOPE);
    assert_eq!(runs.get(), 1);
    assert_eq!(rt.write(s, 2), Ok(()));
    assert_eq!(runs.get(), 2);
    assert_eq!(rt.write(s, 3), Ok(()));
    assert_eq!(runs.get(), 3);
    assert_eq!(*seen.borrow(), vec![1, 2, 3]);
}

#[test]
fn plain_write_reruns_readers_even_when_the_value_is_the_same() {
    let mut rt: Runtime<i64> = Runtime::new();
    let s = rt.create_signal(SCOPE, 1);
    let runs = Rc::new(Cell::new(0));
    rt.create_effect(Some(SCOPE), reader(&runs, s.read_only())).unwrap();
    assert_eq!(rt.write(s, 1), Ok(()));
    assert_eq!(runs.get(), 2);
}

#[test]
fn write_if_changed_skips_equal_values() {
    let mut rt: Runtime<i64> = Runtime::new();
    let s = rt.create_signal(SCOPE, 1);
    let runs = Rc::new(Cell::new(0));
    rt.create_effect(Some(SCOPE), reader(&runs, s.read_only())).unwrap();
    let _ = rt.read(s.read_only(), ScopeId(9));
    assert_eq!(rt.write_if_changed(s, 1), Ok(false));
    assert_eq!(runs.get(), 1);
    assert_eq!(rt.take_scheduled(), vec![]);
    assert_eq!(rt.write_if_changed(s, 2), Ok(true));
    assert_eq!(runs.get(), 2);
    assert_eq!(rt.peek(s.read_only()), Ok(2));
    assert_eq!(rt.take_scheduled(), vec![ScopeId(9)]);
}

#[test]
fn effect_that_never_read_a_signal_is_not_rerun_by_it() {
    let mut rt: Runtime<i64> = Runtime::new();
    let a = rt.create_signal(SCOPE, 1);
    let b = rt.create_signal(SCOPE, 10);
    let runs_a = Rc::new(Cell::new(0));
    let runs_b = Rc::new(Cell::new(0));
    rt.create_effect(Some(SCOPE), reader(&runs_a, a.read_only())).unwrap();
    rt.create_effect(Some(SCOPE), reader(&runs_b, b.read_only())).unwrap();
    assert_eq!(rt.write(a, 2), Ok(()));
    assert_eq!((runs_a.get(), runs_b.get()), (2, 1));
    assert_eq!(rt.write(b, 20), Ok(()));
    assert_eq!((runs_a.get(), runs_b.get()), (2, 2));
}

#[test]
fn reading_twice_subscribes_once() {
    let mut rt: Runtime<i64> = Runtime::new();
    let s = rt.create_signal(SCOPE, 1);
    let runs = Rc::new(Cell::new(0));
    let source = s.read_only();
    rt.create_effect(
        Some(SCOPE),
        procedure(&runs, move |t| Ok(t.read(source)? + t.read(source)?)),
    )
    .unwrap();
    assert_eq!(rt.write(s, 2), Ok(()));
    assert_eq!(runs.get(), 2);
}

#[test]
fn subscriptions_are_discovered_on_every_run_and_never_dropped() {
    let mut rt: Runtime<i64> = Runtime::new();
    let switch = rt.create_signal(SCOPE, 0);
    let a = rt.create_signal(SCOPE, 1);
    let b = rt.create_signal(SCOPE, 2);
    let runs = Rc::new(Cell::new(0));
    let (sw, ra, rb) = (switch.read_only(), a.read_only(), b.read_only());
    rt.create_effect(
        Some(SCOPE),
        procedure(&runs, move |t| if t.read(sw)? == 0 { t.read(ra) } else { t.read(rb) }),
    )
    .unwrap();
    assert_eq!(runs.get(), 1);
    assert_eq!(rt.write(b, 3), Ok(()));
    assert_eq!(runs.get(), 1);
    assert_eq!(rt.write(switch, 1), Ok(()));
    assert_eq!(runs.get(), 2);
    assert_eq!(rt.write(b, 4), Ok(()));
    assert_eq!(runs.get(), 3);
    assert_eq!(rt.write(a, 5), Ok(()));
    assert_eq!(runs.get(), 4);
}

#[test]
fn unsubscribed_effect_is_not_rerun() {
    let mut rt: Runtime<i64> = Runtime::new();
    let s = rt.create_signal(SCOPE, 1);
    let t = rt.create_signal(SCOPE, 1);
    let runs = Rc::new(Cell::new(0));
    let effect = rt.create_effect(Some(SCOPE), reader(&runs, t.read_only())).unwrap();
    assert_eq!(rt.unsubscribe_effect(t.read_only(), effect), Ok(()));
    assert_eq!(rt.write(t, 2), Ok(()));
    assert_eq!(runs.get(), 1);
    assert_eq!(rt.unsubscribe_effect(s.read_only(), effect), Ok(()));
    rt.teardown(SCOPE);
    assert_eq!(rt.unsubscribe_effect(s.read_only(), effect), Err(Error::UseAfterInvalidate));
    assert_eq!(rt.unsubscribe(s.read_only(), SCOPE), Err(Error::UseAfterInvalidate));
}

#[test]
fn plain_consumers_are_scheduled_not_run() {
    let mut rt: Runtime<i64> = Runtime::new();
    let s = rt.create_signal(SCOPE, 1);
    assert_eq!(rt.read(s.read_only(), ScopeId(7)), Ok(1));
    assert_eq!(rt.read(s.read_only(), ScopeId(8)), Ok(1));
    assert_eq!(rt.read(s.read_only(), ScopeId(7)), Ok(1));
    assert_eq!(rt.take_scheduled(), vec![]);
    assert_eq!(rt.write(s, 2), Ok(()));
    assert_eq!(rt.write(s, 3), Ok(()));
    assert_eq!(rt.take_scheduled(), vec![ScopeId(7), ScopeId(8), ScopeId(7), ScopeId(8)]);
    assert_eq!(rt.take_scheduled(), vec![]);
    assert_eq!(rt.unsubscribe(s.read_only(), ScopeId(7)), Ok(()));
    assert_eq!(rt.write(s, 4), Ok(()));
    assert_eq!(rt.take_scheduled(), vec![ScopeId(8)]);
}

#[test]
fn selector_is_computed_at_once_and_follows_its_source() {
    let mut rt: Runtime<i64> = Runtime::new();
    let count = rt.create_signal(SCOPE, 0);
    let runs = Rc::new(Cell::new(0));
    let source = count.read_only();
    let double = rt
        .create_selector(Some(SCOPE), procedure(&runs, move |t| Ok(t.read(source)? * 2)))
        .unwrap();
    assert_eq!(runs.get(), 1);
    assert_eq!(rt.peek(double), Ok(0));
    assert_eq!(rt.write(count, 5), Ok(()));
    assert_eq!(rt.peek(double), Ok(10));
    assert_eq!(runs.get(), 2);
}

#[test]
fn selector_memoises_and_does_not_notify_downstream() {
    let mut rt: Runtime<i64> = Runtime::new();
    let count = rt.create_signal(SCOPE, 1);
    let runs = Rc::new(Cell::new(0));
    let downstream = Rc::new(Cell::new(0));
    let source = count.read_only();
    let sign = rt
        .create_selector(
            Some(SCOPE),
            procedure(&runs, move |t| Ok(if t.read(source)? > 0 { 1 } else { -1 })),
        )
        .unwrap();
    rt.create_effect(Some(SCOPE), reader(&downstream, sign)).unwrap();
    assert_eq!(rt.read(sign, ScopeId(3)), Ok(1));
    assert_eq!(rt.write(count, 2), Ok(()));
    assert_eq!(runs.get(), 2);
    assert_eq!(downstream.get(), 1);
    assert_eq!(rt.peek(sign), Ok(1));
    assert_eq!(rt.take_scheduled(), vec![]);
    assert_eq!(rt.write(count, -2), Ok(()));
    assert_eq!(runs.get(), 3);
    assert_eq!(downstream.get(), 2);
    assert_eq!(rt.peek(sign), Ok(-1));
    assert_eq!(rt.take_scheduled(), vec![ScopeId(3)]);
}

#[test]
fn selectors_chain() {
    let mut rt: Runtime<i64> = Runtime::new();
    let count = rt.create_signal(SCOPE, 1);
    let runs = Rc::new(Cell::new(0));
    let source = count.read_only();
    let double = rt
        .create_selector(Some(SCOPE), procedure(&runs, move |t| Ok(t.read(source)? * 2)))
        .unwrap();
    let plus_one = rt
        .create_selector(Some(SCOPE), procedure(&runs, move |t| Ok(t.read(double)? + 1)))
        .unwrap();
    assert_eq!(rt.peek(plus_one), Ok(3));
    assert_eq!(rt.write(count, 10), Ok(()));
    assert_eq!(rt.peek(double), Ok(20));
    assert_eq!(rt.peek(plus_one), Ok(21));
}

#[test]
fn diamond_runs_the_joining_effect_once_per_path() {
    let mut rt: Runtime<i64> = Runtime::new();
    let base = rt.create_signal(SCOPE, 1);
    let runs = Rc::new(Cell::new(0));
    let joined = Rc::new(Cell::new(0));
    let source = base.read_only();
    let left = rt
        .create_selector(Some(SCOPE), procedure(&runs, move |t| Ok(t.read(source)? + 1)))
        .unwrap();
    let right = rt
        .create_selector(Some(SCOPE), procedure(&runs, move |t| Ok(t.read(source)? * 10)))
        .unwrap();
    rt.create_effect(
        Some(SCOPE),
        procedure(&joined, move |t| Ok(t.read(left)? + t.read(right)?)),
    )
    .unwrap();
    assert_eq!(joined.get(), 1);
    assert_eq!(rt.write(base, 2), Ok(()));
    assert_eq!(joined.get(), 3);
}

#[test]
fn effects_run_in_the_order_in_which_they_subscribed() {
    let mut rt: Runtime<i64> = Runtime::new();
    let s = rt.create_signal(SCOPE, 0);
    let order = Rc::new(RefCell::new(Vec::new()));
    let runs = Rc::new(Cell::new(0));
    let source = s.read_only();
    for name in 0..3 {
        let log = order.clone();
        rt.create_effect(
            Some(SCOPE),
            procedure(&runs, move |t| {
                log.borrow_mut().push(name);
                t.read(source)
            }),
        )
        .unwrap();
    }
    order.borrow_mut().clear();
    assert_eq!(rt.write(s, 1), Ok(()));
    assert_eq!(*order.borrow(), vec![0, 1, 2]);
}

#[test]
fn selector_that_reads_itself_is_not_reentered() {
    let mut rt: Runtime<i64> = Runtime::new();
    let base = rt.create_signal(SCOPE, 1);
    let own: Rc<Cell<Option<ReadOnlySignal>>> = Rc::new(Cell::new(None));
    let runs = Rc::new(Cell::new(0));
    let source = base.read_only();
    let me = own.clone();
    let sel = rt
        .create_selector(
            Some(SCOPE),
            procedure(&runs, move |t| {
                let mine = match me.get() {
                    Some(cell) => t.read(cell)?,
                    None => 0,
                };
                Ok(t.read(source)? + mine)
            }),
        )
        .unwrap();
    own.set(Some(sel));
    assert_eq!(rt.peek(sel), Ok(1));
    assert_eq!(rt.write(base, 2), Ok(()));
    assert_eq!(runs.get(), 2);
    assert_eq!(rt.peek(sel), Ok(3));
    assert_eq!(rt.write(base, 3), Ok(()));
    assert_eq!(runs.get(), 3);
    assert_eq!(rt.peek(sel), Ok(6));
}

#[test]
fn failing_procedure_ends_the_write_with_its_error() {
    let mut rt: Runtime<i64> = Runtime::new();
    let s = rt.create_signal(SCOPE, 1);
    let gone = rt.create_signal(ScopeId(2), 5);
    let first = Rc::new(Cell::new(0));
    let second = Rc::new(Cell::new(0));
    let (source, other) = (s.read_only(), gone.read_only());
    rt.create_effect(
        Some(SCOPE),
        procedure(&first, move |t| Ok(t.read(source)? + t.read(other)?)),
    )
    .unwrap();
    rt.create_effect(Some(SCOPE), reader(&second, s.read_only())).unwrap();
    rt.teardown(ScopeId(2));
    assert_eq!(rt.write(s, 2), Err(Error::UseAfterInvalidate));
    assert_eq!(first.get(), 2);
    assert_eq!(second.get(), 1);
    assert_eq!(rt.peek(s.read_only()), Ok(2));
}

#[test]
fn failing_first_evaluation_registers_nothing() {
    let mut rt: Runtime<i64> = Runtime::new();
    let s = rt.create_signal(SCOPE, 1);
    let runs = Rc::new(Cell::new(0));
    let source = s.read_only();
    let r = rt.create_selector(
        Some(SCOPE),
        procedure(&runs, move |t| {
            t.read(source)?;
            Err(Error::UseAfterInvalidate)
        }),
    );
    assert_eq!(r, Err(Error::UseAfterInvalidate));
    let e = rt.create_effect(
        Some(SCOPE),
        procedure(&runs, move |t| {
            t.read(source)?;
            Err(Error::NotInReactiveContext)
        }),
    );
    assert_eq!(e, Err(Error::NotInReactiveContext));
    assert_eq!(runs.get(), 2);
    assert_eq!(rt.write(s, 2), Ok(()));
    assert_eq!(runs.get(), 2);
}

#[test]
fn creation_without_a_scope_is_refused() {
    let mut rt: Runtime<i64> = Runtime::new();
    let runs = Rc::new(Cell::new(0));
    assert_eq!(
        rt.create_selector(None, procedure(&runs, |_| Ok(1))),
        Err(Error::NotInReactiveContext)
    );
    assert_eq!(
        rt.create_effect(None, procedure(&runs, |_| Ok(1))),
        Err(Error::NotInReactiveContext)
    );
    assert_eq!(runs.get(), 0);
}

#[test]
fn teardown_invalidates_what_the_scope_owns() {
    let mut rt: Runtime<i64> = Runtime::new();
    let kept = rt.create_signal(ScopeId(1), 1);
    let lost = rt.create_signal(ScopeId(2), 2);
    let runs = Rc::new(Cell::new(0));
    let source = kept.read_only();
    let sel = rt
        .create_selector(Some(ScopeId(2)), procedure(&runs, move |t| Ok(t.read(source)? * 2)))
        .unwrap();
    rt.teardown(ScopeId(2));
    assert_eq!(rt.peek(lost.read_only()), Err(Error::UseAfterInvalidate));
    assert_eq!(rt.read(lost.read_only(), ScopeId(1)), Err(Error::UseAfterInvalidate));
    assert_eq!(rt.write(lost, 3), Err(Error::UseAfterInvalidate));
    assert_eq!(rt.write_if_changed(lost, 3), Err(Error::UseAfterInvalidate));
    assert_eq!(rt.peek(sel), Err(Error::UseAfterInvalidate));
    assert_eq!(rt.peek(kept.read_only()), Ok(1));
    assert_eq!(rt.write(kept, 5), Ok(()));
    assert_eq!(runs.get(), 1);
    let later = rt.create_signal(ScopeId(2), 7);
    assert_ne!(later, lost);
    assert_eq!(rt.peek(lost.read_only()), Err(Error::UseAfterInvalidate));
    assert_eq!(rt.peek(later.read_only()), Ok(7));
}

#[test]
fn procedure_sees_invalidated_cells_as_errors() {
    let mut rt: Runtime<i64> = Runtime::new();
    let s = rt.create_signal(SCOPE, 1);
    let lost = rt.create_signal(ScopeId(2), 2);
    rt.teardown(ScopeId(2));
    let seen = Rc::new(RefCell::new(Vec::new()));
    let log = seen.clone();
    let runs = Rc::new(Cell::new(0));
    let (source, other) = (s.read_only(), lost.read_only());
    rt.create_effect(
        Some(SCOPE),
        procedure(&runs, move |t| {
            log.borrow_mut().push(t.read(other));
            t.read(source)
        }),
    )
    .unwrap();
    assert_eq!(*seen.borrow(), vec![Err(Error::UseAfterInvalidate)]);
}

#[test]
fn names_are_handed_out_in_order() {
    let mut rt: Runtime<i64> = Runtime::new();
    let a = rt.create_signal(SCOPE, 1);
    let b = rt.create_signal(SCOPE, 2);
    assert_eq!(a.inner.index, 0);
    assert_eq!(b.inner.index, 1);
    assert_eq!(a.inner.generation, 0);
    let runs = Rc::new(Cell::new(0));
    let e: Effect = rt.create_effect(Some(ScopeId(4)), procedure(&runs, |_| Ok(0))).unwrap();
    assert_eq!(e.callback.index, 0);
    assert_eq!(e.source, ScopeId(4));
    let s: Signal = a;
    assert_eq!(s.read_only(), ReadOnlySignal::new(a));
}

#[test]
fn registered_selector_starts_from_the_value_given() {
    let mut rt: Runtime<i64> = Runtime::new();
    let count = rt.create_signal(SCOPE, 4);
    let runs = Rc::new(Cell::new(0));
    let source = count.read_only();
    let double = rt.register_selector(
        SCOPE,
        8,
        &vec![source],
        procedure(&runs, move |t| Ok(t.read(source)? * 2)),
    );
    assert_eq!(runs.get(), 0);
    assert_eq!(rt.peek(double), Ok(8));
    assert_eq!(rt.write(count, 5), Ok(()));
    assert_eq!(runs.get(), 1);
    assert_eq!(rt.peek(double), Ok(10));
}

#[test]
fn registered_effect_follows_the_reads_given() {
    let mut rt: Runtime<i64> = Runtime::new();
    let a = rt.create_signal(SCOPE, 1);
    let b = rt.create_signal(SCOPE, 2);
    let runs = Rc::new(Cell::new(0));
    let effect = rt.register_effect(SCOPE, &vec![a.read_only()], procedure(&runs, |_| Ok(0)));
    assert_eq!(effect.source, SCOPE);
    assert_eq!(rt.write(b, 3), Ok(()));
    assert_eq!(runs.get(), 0);
    assert_eq!(rt.write(a, 3), Ok(()));
    assert_eq!(runs.get(), 1);
    assert_eq!(rt.subscribe_effect(b.read_only(), effect), Ok(()));
    assert_eq!(rt.subscribe_effect(b.read_only(), effect), Ok(()));
    assert_eq!(rt.write(b, 4), Ok(()));
    assert_eq!(runs.get(), 2);
    rt.teardown(SCOPE);
    assert_eq!(rt.subscribe_effect(b.read_only(), effect), Err(Error::UseAfterInvalidate));
}

#[test]
fn effect_of_a_torn_down_scope_is_passed_over() {
    let mut rt: Runtime<i64> = Runtime::new();
    let s = rt.create_signal(ScopeId(1), 1);
    let gone = Rc::new(Cell::new(0));
    let kept = Rc::new(Cell::new(0));
    rt.create_effect(Some(ScopeId(2)), reader(&gone, s.read_only())).unwrap();
    rt.create_effect(Some(ScopeId(3)), reader(&kept, s.read_only())).unwrap();
    rt.teardown(ScopeId(2));
    assert_eq!(rt.write(s, 2), Ok(()));
    assert_eq!((gone.get(), kept.get()), (1, 2));
}

#[test]
fn slots_of_a_torn_down_scope_are_used_again_and_old_names_stay_stale() {
    let mut rt: Runtime<i64> = Runtime::new();
    let kept = rt.create_signal(ScopeId(1), 1);
    let lost = rt.create_signal(ScopeId(2), 2);
    let runs = Rc::new(Cell::new(0));
    let old_effect = rt.create_effect(Some(ScopeId(2)), reader(&runs, kept.read_only())).unwrap();
    rt.teardown(ScopeId(2));
    let next = rt.create_signal(ScopeId(3), 30);
    assert_eq!(next.inner.index, lost.inner.index);
    assert_eq!(next.inner.generation, lost.inner.generation + 1);
    assert_eq!(rt.peek(next.read_only()), Ok(30));
    assert_eq!(rt.peek(lost.read_only()), Err(Error::UseAfterInvalidate));
    assert_eq!(rt.write(lost, 5), Err(Error::UseAfterInvalidate));
    assert_eq!(rt.peek(next.read_only()), Ok(30));
    let new_runs = Rc::new(Cell::new(0));
    let new_effect = rt.create_effect(Some(ScopeId(3)), reader(&new_runs, next.read_only())).unwrap();
    assert_eq!(new_effect.callback.index, old_effect.callback.index);
    assert_ne!(new_effect, old_effect);
    assert_eq!(rt.write(kept, 2), Ok(()));
    assert_eq!((runs.get(), new_runs.get()), (1, 1));
    assert_eq!(rt.write(next, 31), Ok(()));
    assert_eq!((runs.get(), new_runs.get()), (1, 2));
}

#[test]
fn settled_evaluation_writes_a_result_that_differs_and_evaluates_the_readers() {
    let mut rt: Runtime<i64> = Runtime::new();
    let count = rt.create_signal(SCOPE, 1);
    let runs = Rc::new(Cell::new(0));
    let downstream = Rc::new(Cell::new(0));
    let double = rt.register_selector(SCOPE, 2, &vec![], procedure(&runs, |_| Ok(0)));
    let effect = Effect {
        source: SCOPE,
        callback: signals::arena::Handle { index: 0, generation: 0 },
    };
    rt.create_effect(Some(SCOPE), reader(&downstream, double)).unwrap();
    assert_eq!(rt.read(double, ScopeId(8)), Ok(2));

    let (owner, target, stored) = rt.begin(effect).unwrap();
    assert_eq!(owner, SCOPE);
    assert_eq!(target.map(|cell| cell.read_only()), Some(double));
    assert!(rt.begin(effect).is_none());
    let (_, error) = rt.settle(effect, owner, target, stored, &vec![count.read_only()], Ok(2));
    assert_eq!(error, None);
    assert_eq!(rt.peek(double), Ok(2));
    assert_eq!(downstream.get(), 1);
    assert_eq!(rt.take_scheduled(), vec![]);

    let (owner, target, stored) = rt.begin(effect).unwrap();
    let (_, error) = rt.settle(effect, owner, target, stored, &vec![], Ok(7));
    assert_eq!(error, None);
    assert_eq!(rt.peek(double), Ok(7));
    assert_eq!(downstream.get(), 2);
    assert_eq!(rt.take_scheduled(), vec![ScopeId(8)]);

    let (owner, target, stored) = rt.begin(effect).unwrap();
    let (_, error) =
        rt.settle(effect, owner, target, stored, &vec![], Err(Error::UseAfterInvalidate));
    assert_eq!(error, Some(Error::UseAfterInvalidate));
    assert_eq!(rt.peek(double), Ok(7));
    assert_eq!(downstream.get(), 2);

    assert_eq!(runs.get(), 0);
    assert_eq!(rt.write(count, 5), Ok(()));
    assert_eq!(runs.get(), 1);
    assert_eq!(rt.peek(double), Ok(0));
}

#[test]
fn effect_that_cannot_run_is_not_subscribed() {
    let mut rt: Runtime<i64> = Runtime::new();
    let s = rt.create_signal(SCOPE, 1);
    let runs = Rc::new(Cell::new(0));
    let to_come = rt.upcoming_effect(SCOPE);
    assert_eq!(rt.subscribe_effect(s.read_only(), to_come), Err(Error::UseAfterInvalidate));
    let effect = rt.register_effect(SCOPE, &vec![], procedure(&runs, |_| Ok(0)));
    assert_eq!(effect, to_come);
    assert_eq!(rt.write(s, 2), Ok(()));
    assert_eq!(runs.get(), 0);
    assert_eq!(rt.subscribe_effect(s.read_only(), effect), Ok(()));
    assert_eq!(rt.write(s, 3), Ok(()));
    assert_eq!(runs.get(), 1);
}

#[test]
fn new_selector_is_no_reader_of_its_own_cell() {
    let mut rt: Runtime<i64> = Runtime::new();
    let count = rt.create_signal(SCOPE, 1);
    let runs = Rc::new(Cell::new(0));
    let downstream = Rc::new(Cell::new(0));
    let own = ReadOnlySignal::new(Signal {
        inner: signals::arena::Handle { index: 1, generation: 0 },
    });
    let source = count.read_only();
    let double = rt.register_selector(
        SCOPE,
        2,
        &vec![source, own],
        procedure(&runs, move |t| Ok(t.read(source)? * 2)),
    );
    assert_eq!(double, own);
    rt.create_effect(Some(SCOPE), reader(&downstream, double)).unwrap();
    assert_eq!(rt.write(count, 2), Ok(()));
    assert_eq!(runs.get(), 1);
    assert_eq!(downstream.get(), 2);
    assert_eq!(rt.peek(double), Ok(4));
}
