use std::cell::Cell;
use std::rc::Rc;

use signals::error::Error;
use signals::once::RunOnce;
use signals::runtime::Runtime;
use signals::scope::ScopeId;
use signals::selector::{
    selector, selector_in_scope, use_selector, use_selector_in_scope,
    use_selector_with_dependencies, use_selector_with_dependencies_in_scope, Dependent,
};
use signals::signal::ReadOnlySignal;
use signals::tracker::{Compute, ComputeWith, Tracker};

struct Doubled {
    source: ReadOnlySignal,
    runs: Rc<Cell<u32>>,
}

impl Compute<i64> for Doubled {
    fn run(&mut self, tracker: &mut Tracker<'_, i64>) -> Result<i64, Error> {
        self.runs.set(self.runs.get() + 1);
        Ok(tracker.read(self.source)? * 2)
    }
}

struct TwiceTheDependency {
    runs: Rc<Cell<u32>>,
}

impl ComputeWith<i64> for TwiceTheDependency {
    fn run(&mut self, dependencies: i64, _tracker: &mut Tracker<'_, i64>) -> Result<i64, Error> {
        self.runs.set(self.runs.get() + 1);
        Ok(dependencies * 2)
    }
}

struct DependencyPlus {
    source: ReadOnlySignal,
}

impl ComputeWith<i64> for DependencyPlus {
    fn run(&mut self, dependencies: i64, tracker: &mut Tracker<'_, i64>) -> Result<i64, Error> {
        Ok(dependencies + tracker.read(self.source)?)
    }
}

fn app() -> dioxus_core::Element {
    None
}

const SCOPE: Option<ScopeId> = Some(ScopeId(1));

#[test]
fn selector_follows_its_source() {
    let mut rt: Runtime<i64> = Runtime::new();
    let count = rt.create_signal(ScopeId(1), 0);
    let runs = Rc::new(Cell::new(0));
    let double = selector_in_scope(
        &mut rt,
        SCOPE,
        Box::new(Doubled { source: count.read_only(), runs: runs.clone() }),
    )
    .unwrap();
    assert_eq!(rt.peek(double), Ok(0));
    assert_eq!(rt.write(count, 5), Ok(()));
    assert_eq!(rt.peek(double), Ok(10));
}

#[test]
fn selector_outside_a_scope_is_refused() {
    let mut rt: Runtime<i64> = Runtime::new();
    let count = rt.create_signal(ScopeId(1), 0);
    let runs = Rc::new(Cell::new(0));
    let r = selector_in_scope(
        &mut rt,
        None,
        Box::new(Doubled { source: count.read_only(), runs: runs.clone() }),
    );
    assert_eq!(r, Err(Error::NotInReactiveContext));
    assert_eq!(runs.get(), 0);
}

#[test]
fn selector_outside_a_virtual_dom_is_refused() {
    let mut rt: Runtime<i64> = Runtime::new();
    let count = rt.create_signal(ScopeId(1), 0);
    let runs = Rc::new(Cell::new(0));
    let r = selector(&mut rt, Box::new(Doubled { source: count.read_only(), runs: runs.clone() }));
    assert_eq!(r, Err(Error::NotInReactiveContext));
    let mut memo = RunOnce::new();
    let r = use_selector(
        &mut rt,
        &mut memo,
        Box::new(Doubled { source: count.read_only(), runs: runs.clone() }),
    );
    assert_eq!(r, Err(Error::NotInReactiveContext));
    assert_eq!(memo.get(), None);
    let mut memo: RunOnce<Dependent> = RunOnce::new();
    let r = use_selector_with_dependencies(
        &mut rt,
        &mut memo,
        1,
        Box::new(TwiceTheDependency { runs: runs.clone() }),
    );
    assert_eq!(r, Err(Error::NotInReactiveContext));
    assert_eq!(runs.get(), 0);
}

#[test]
fn selector_inside_a_virtual_dom_belongs_to_the_current_scope() {
    let dom = dioxus_core::VirtualDom::new(app);
    let mut rt: Runtime<i64> = Runtime::new();
    let count = rt.create_signal(ScopeId(0), 3);
    let runs = Rc::new(Cell::new(0));
    let body = Box::new(Doubled { source: count.read_only(), runs: runs.clone() });
    let made = dom.in_runtime(|| dioxus_core::ScopeId::ROOT.in_runtime(|| selector(&mut rt, body)));
    let double = made.unwrap();
    assert_eq!(rt.peek(double), Ok(6));
    let other = rt.create_signal(ScopeId(5), 1);
    rt.teardown(ScopeId(dioxus_core::ScopeId::ROOT.0));
    assert_eq!(rt.peek(double), Err(Error::UseAfterInvalidate));
    assert_eq!(rt.peek(count.read_only()), Err(Error::UseAfterInvalidate));
    assert_eq!(rt.peek(other.read_only()), Ok(1));
}

#[test]
fn use_selector_inside_a_virtual_dom_creates_one_selector() {
    let dom = dioxus_core::VirtualDom::new(app);
    let mut rt: Runtime<i64> = Runtime::new();
    let count = rt.create_signal(ScopeId(0), 3);
    let runs = Rc::new(Cell::new(0));
    let mut memo = RunOnce::new();
    let mut results = Vec::new();
    for _ in 0..2 {
        let body = Box::new(Doubled { source: count.read_only(), runs: runs.clone() });
        let made = dom.in_runtime(|| {
            dioxus_core::ScopeId::ROOT.in_runtime(|| use_selector(&mut rt, &mut memo, body))
        });
        results.push(made.unwrap());
    }
    assert_eq!(results[0], results[1]);
    assert_eq!(runs.get(), 1);
}

#[test]
fn use_selector_creates_one_selector() {
    let mut rt: Runtime<i64> = Runtime::new();
    let count = rt.create_signal(ScopeId(1), 1);
    let runs = Rc::new(Cell::new(0));
    let mut memo = RunOnce::new();
    let first = use_selector_in_scope(
        &mut rt,
        &mut memo,
        SCOPE,
        Box::new(Doubled { source: count.read_only(), runs: runs.clone() }),
    )
    .unwrap();
    let second = use_selector_in_scope(
        &mut rt,
        &mut memo,
        SCOPE,
        Box::new(Doubled { source: count.read_only(), runs: runs.clone() }),
    )
    .unwrap();
    assert_eq!(first, second);
    assert_eq!(runs.get(), 1);
    assert_eq!(rt.write(count, 2), Ok(()));
    assert_eq!(runs.get(), 2);
    assert_eq!(rt.peek(first), Ok(4));
    let mut fresh = RunOnce::new();
    let third = use_selector_in_scope(
        &mut rt,
        &mut fresh,
        SCOPE,
        Box::new(Doubled { source: count.read_only(), runs: runs.clone() }),
    )
    .unwrap();
    assert_ne!(first, third);
}

#[test]
fn use_selector_that_failed_tries_again() {
    let mut rt: Runtime<i64> = Runtime::new();
    let count = rt.create_signal(ScopeId(1), 1);
    let runs = Rc::new(Cell::new(0));
    let mut memo = RunOnce::new();
    let r = use_selector_in_scope(
        &mut rt,
        &mut memo,
        None,
        Box::new(Doubled { source: count.read_only(), runs: runs.clone() }),
    );
    assert_eq!(r, Err(Error::NotInReactiveContext));
    assert_eq!(memo.get(), None);
    let r = use_selector_in_scope(
        &mut rt,
        &mut memo,
        SCOPE,
        Box::new(Doubled { source: count.read_only(), runs: runs.clone() }),
    );
    assert_eq!(memo.get(), Some(r.unwrap()));
}

#[test]
fn selector_with_dependencies_follows_its_dependencies() {
    let mut rt: Runtime<i64> = Runtime::new();
    let runs = Rc::new(Cell::new(0));
    let mut memo: RunOnce<Dependent> = RunOnce::new();
    let sel = use_selector_with_dependencies_in_scope(
        &mut rt,
        &mut memo,
        SCOPE,
        1,
        Box::new(TwiceTheDependency { runs: runs.clone() }),
    )
    .unwrap();
    assert_eq!(rt.peek(sel), Ok(2));
    assert_eq!(runs.get(), 1);
    let again = use_selector_with_dependencies_in_scope(
        &mut rt,
        &mut memo,
        SCOPE,
        1,
        Box::new(TwiceTheDependency { runs: runs.clone() }),
    )
    .unwrap();
    assert_eq!(again, sel);
    assert_eq!(rt.peek(sel), Ok(2));
    assert_eq!(runs.get(), 1);
    let changed = use_selector_with_dependencies_in_scope(
        &mut rt,
        &mut memo,
        SCOPE,
        3,
        Box::new(TwiceTheDependency { runs: runs.clone() }),
    )
    .unwrap();
    assert_eq!(changed, sel);
    assert_eq!(rt.peek(sel), Ok(6));
    assert_eq!(runs.get(), 2);
    let made = memo.get().unwrap();
    assert_eq!(made.selector, sel);
    assert_eq!(made.effect.source, ScopeId(1));
    assert_eq!(rt.peek(made.dependencies.read_only()), Ok(3));
    let (owner, target, stored) = rt.begin(made.effect).unwrap();
    assert_eq!(owner, ScopeId(1));
    assert_eq!(target.map(|cell| cell.read_only()), Some(sel));
    let (_, error) = rt.settle(made.effect, owner, target, stored, &vec![], Ok(6));
    assert_eq!(error, None);
    assert_eq!(runs.get(), 2);
}

#[test]
fn selector_with_dependencies_follows_signals_too() {
    let mut rt: Runtime<i64> = Runtime::new();
    let count = rt.create_signal(ScopeId(1), 10);
    let mut memo: RunOnce<Dependent> = RunOnce::new();
    let sel = use_selector_with_dependencies_in_scope(
        &mut rt,
        &mut memo,
        SCOPE,
        1,
        Box::new(DependencyPlus { source: count.read_only() }),
    )
    .unwrap();
    assert_eq!(rt.peek(sel), Ok(11));
    assert_eq!(rt.write(count, 20), Ok(()));
    assert_eq!(rt.peek(sel), Ok(21));
    use_selector_with_dependencies_in_scope(
        &mut rt,
        &mut memo,
        SCOPE,
        2,
        Box::new(DependencyPlus { source: count.read_only() }),
    )
    .unwrap();
    assert_eq!(rt.peek(sel), Ok(22));
}

#[test]
fn selector_with_dependencies_after_teardown_is_refused() {
    let mut rt: Runtime<i64> = Runtime::new();
    let runs = Rc::new(Cell::new(0));
    let mut memo: RunOnce<Dependent> = RunOnce::new();
    let r = use_selector_with_dependencies_in_scope(
        &mut rt,
        &mut memo,
        None,
        1,
        Box::new(TwiceTheDependency { runs: runs.clone() }),
    );
    assert_eq!(r, Err(Error::NotInReactiveContext));
    assert_eq!(memo.get(), None);
    let sel = use_selector_with_dependencies_in_scope(
        &mut rt,
        &mut memo,
        SCOPE,
        1,
        Box::new(TwiceTheDependency { runs: runs.clone() }),
    )
    .unwrap();
    rt.teardown(ScopeId(1));
    assert_eq!(rt.peek(sel), Err(Error::UseAfterInvalidate));
    let r = use_selector_with_dependencies_in_scope(
        &mut rt,
        &mut memo,
        SCOPE,
        2,
        Box::new(TwiceTheDependency { runs: runs.clone() }),
    );
    assert_eq!(r, Err(Error::UseAfterInvalidate));
    assert_eq!(runs.get(), 1);
}
