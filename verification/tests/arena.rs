use signals::arena::{Arena, Handle};
use signals::effect::Effect;
use signals::error::Error;
use signals::once::RunOnce;
use signals::scope::ScopeId;
use signals::signal::{add_effect, add_scope, append_scopes, copy_effects, remove_effect, remove_scope};
use signals::stack::EffectStack;

#[test]
fn fresh_slot_is_reserved_and_empty() {
    let mut arena: Arena<u32> = Arena::new();
    assert_eq!(arena.len(), 0);
    let h = arena.allocate();
    assert_eq!(h, Handle { index: 0, generation: 0 });
    assert_eq!(arena.len(), 1);
    assert!(arena.is_live(h));
    assert!(!arena.contains(h));
    assert_eq!(arena.read(h), Err(Error::UseAfterInvalidate));
}

#[test]
fn write_needs_a_value_to_replace() {
    let mut arena: Arena<u32> = Arena::new();
    let h = arena.allocate();
    assert_eq!(arena.write(h, 7), Err(Error::UseAfterInvalidate));
    assert_eq!(arena.fill(h, 7), Ok(()));
    assert_eq!(arena.read(h), Ok(&7));
    assert_eq!(arena.write(h, 8), Ok(()));
    assert_eq!(arena.read(h), Ok(&8));
}

#[test]
fn fill_initialises_exactly_once() {
    let mut arena: Arena<u32> = Arena::new();
    let h = arena.allocate();
    assert_eq!(arena.fill(h, 1), Ok(()));
    assert_eq!(arena.fill(h, 2), Err(Error::UseAfterInvalidate));
    assert_eq!(arena.read(h), Ok(&1));
}

#[test]
fn handles_alias_one_slot() {
    let mut arena: Arena<u32> = Arena::new();
    let h = arena.allocate();
    let copy = h;
    assert_eq!(arena.fill(h, 3), Ok(()));
    assert_eq!(arena.write(copy, 4), Ok(()));
    assert_eq!(arena.read(h), Ok(&4));
}

#[test]
fn invalidate_makes_every_handle_stale() {
    let mut arena: Arena<u32> = Arena::new();
    let h = arena.allocate();
    let other = arena.allocate();
    assert_eq!(arena.fill(h, 1), Ok(()));
    assert_eq!(arena.fill(other, 2), Ok(()));
    assert!(arena.invalidate(h));
    assert!(!arena.is_live(h));
    assert_eq!(arena.read(h), Err(Error::UseAfterInvalidate));
    assert_eq!(arena.write(h, 9), Err(Error::UseAfterInvalidate));
    assert_eq!(arena.fill(h, 9), Err(Error::UseAfterInvalidate));
    assert_eq!(arena.take(h), Err(Error::UseAfterInvalidate));
    assert!(!arena.invalidate(h));
    assert_eq!(arena.read(other), Ok(&2));
    assert_eq!(arena.handle_at(0), None);
    assert_eq!(arena.handle_at(1), Some(other));
    assert_eq!(arena.handle_at(2), None);
}

#[test]
fn stale_generation_is_refused() {
    let mut arena: Arena<u32> = Arena::new();
    let h = arena.allocate();
    assert_eq!(arena.fill(h, 1), Ok(()));
    let forged = Handle { index: h.index, generation: h.generation + 1 };
    assert_eq!(arena.read(forged), Err(Error::UseAfterInvalidate));
    assert_eq!(arena.write(forged, 5), Err(Error::UseAfterInvalidate));
    assert!(!arena.invalidate(forged));
    assert_eq!(arena.read(h), Ok(&1));
    let beyond = Handle { index: 10, generation: 0 };
    assert_eq!(arena.read(beyond), Err(Error::UseAfterInvalidate));
    assert!(!arena.is_live(beyond));
}

#[test]
fn take_leaves_the_slot_reserved() {
    let mut arena: Arena<String> = Arena::new();
    let h = arena.allocate();
    assert_eq!(arena.fill(h, String::from("a")), Ok(()));
    assert_eq!(arena.take(h), Ok(String::from("a")));
    assert!(arena.is_live(h));
    assert!(!arena.contains(h));
    assert_eq!(arena.take(h), Err(Error::UseAfterInvalidate));
    assert_eq!(arena.fill(h, String::from("b")), Ok(()));
    assert_eq!(arena.read(h), Ok(&String::from("b")));
}

#[test]
fn stack_is_last_in_first_out() {
    let a = Effect { source: ScopeId(1), callback: Handle { index: 0, generation: 0 } };
    let b = Effect { source: ScopeId(1), callback: Handle { index: 1, generation: 0 } };
    let mut stack = EffectStack::new();
    assert!(stack.is_empty());
    assert_eq!(stack.top(), None);
    assert_eq!(stack.pop(), None);
    stack.push(a);
    stack.push(b);
    assert_eq!(stack.depth(), 2);
    assert_eq!(stack.top(), Some(b));
    assert_eq!(stack.pop(), Some(b));
    assert_eq!(stack.top(), Some(a));
    assert_eq!(stack.pop(), Some(a));
    assert!(stack.is_empty());
}

#[test]
fn subscriber_lists_hold_nothing_twice() {
    let mut scopes: Vec<ScopeId> = Vec::new();
    add_scope(&mut scopes, ScopeId(1));
    add_scope(&mut scopes, ScopeId(2));
    add_scope(&mut scopes, ScopeId(1));
    assert_eq!(scopes, vec![ScopeId(1), ScopeId(2)]);
    remove_scope(&mut scopes, ScopeId(1));
    assert_eq!(scopes, vec![ScopeId(2)]);
    remove_scope(&mut scopes, ScopeId(7));
    assert_eq!(scopes, vec![ScopeId(2)]);

    let a = Effect { source: ScopeId(1), callback: Handle { index: 0, generation: 0 } };
    let b = Effect { source: ScopeId(1), callback: Handle { index: 1, generation: 0 } };
    let mut effects: Vec<Effect> = Vec::new();
    add_effect(&mut effects, a);
    add_effect(&mut effects, b);
    add_effect(&mut effects, a);
    assert_eq!(effects, vec![a, b]);
    assert_eq!(copy_effects(&effects), vec![a, b]);
    remove_effect(&mut effects, a);
    assert_eq!(effects, vec![b]);

    let mut queue = vec![ScopeId(5)];
    append_scopes(&mut queue, &vec![ScopeId(6), ScopeId(5)]);
    assert_eq!(queue, vec![ScopeId(5), ScopeId(6), ScopeId(5)]);
}

#[test]
fn run_once_runs_its_initialiser_once() {
    let mut calls = 0;
    let mut memo: RunOnce<u32> = RunOnce::new();
    assert_eq!(memo.get(), None);
    let first = memo.run(|| {
        calls += 1;
        41
    });
    assert_eq!(first, 41);
    let second = memo.run(|| 99);
    assert_eq!(second, 41);
    assert_eq!(calls, 1);
    assert_eq!(memo.get(), Some(41));
    assert_eq!(memo.keep(7), 41);
    let mut other: RunOnce<u32> = RunOnce::new();
    assert_eq!(other.keep(7), 7);
    assert_eq!(other.keep(8), 7);
}

#[test]
fn invalidated_slot_is_handed_out_again_under_a_new_generation() {
    let mut arena: Arena<u32> = Arena::new();
    let a = arena.allocate();
    let b = arena.allocate();
    assert_eq!(arena.fill(a, 1), Ok(()));
    assert_eq!(arena.fill(b, 2), Ok(()));
    assert_eq!(arena.upcoming(), Handle { index: 2, generation: 0 });
    assert!(arena.invalidate(a));
    assert_eq!(arena.upcoming(), Handle { index: 0, generation: 1 });
    let c = arena.allocate();
    assert_eq!(c, Handle { index: 0, generation: 1 });
    assert_eq!(arena.len(), 2);
    assert!(arena.is_live(c));
    assert!(!arena.is_live(a));
    assert_eq!(arena.fill(c, 3), Ok(()));
    assert_eq!(arena.read(c), Ok(&3));
    assert_eq!(arena.read(a), Err(Error::UseAfterInvalidate));
    assert_eq!(arena.write(a, 9), Err(Error::UseAfterInvalidate));
    assert!(!arena.invalidate(a));
    assert_eq!(arena.read(c), Ok(&3));
    assert_eq!(arena.read(b), Ok(&2));
}

#[test]
fn slots_invalidated_last_are_handed_out_first() {
    let mut arena: Arena<u32> = Arena::new();
    let a = arena.allocate();
    let b = arena.allocate();
    let c = arena.allocate();
    assert!(arena.invalidate(a));
    assert!(arena.invalidate(c));
    assert_eq!(arena.allocate(), Handle { index: c.index, generation: 1 });
    assert_eq!(arena.allocate(), Handle { index: a.index, generation: 1 });
    assert_eq!(arena.allocate(), Handle { index: 3, generation: 0 });
    assert!(arena.is_live(b));
}

#[test]
fn reserved_slot_can_be_invalidated_before_it_is_filled() {
    let mut arena: Arena<u32> = Arena::new();
    let a = arena.allocate();
    assert!(arena.invalidate(a));
    assert_eq!(arena.fill(a, 1), Err(Error::UseAfterInvalidate));
    let b = arena.allocate();
    assert_eq!(b, Handle { index: 0, generation: 1 });
    assert_eq!(arena.fill(b, 2), Ok(()));
    assert_eq!(arena.read(b), Ok(&2));
}
