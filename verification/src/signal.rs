//! The names of cells, what a cell stores, and its duplicate-free lists of
//! readers.

use vstd::prelude::*;
use crate::arena::Handle;
use crate::effect::Effect;
use crate::scope::ScopeId;

verus! {

/// The name of a reactive cell with the right to write it.
#[derive(Clone, Copy, Debug, PartialEq, Eq, Hash, Structural)]
pub struct Signal {
    pub inner: Handle,
}

/// The name of a reactive cell without the right to write it. Reading takes
/// this weaker name, so a selector can hand out its result and stay the
/// only writer.
#[derive(Clone, Copy, Debug, PartialEq, Eq, Hash, Structural)]
pub struct ReadOnlySignal {
    inner: Signal,
}

impl ReadOnlySignal {
    /// The cell that this name reads.
    pub closed spec fn source(self) -> Signal {
        self.inner
    }

    /// The read-only name of `signal`.
    pub fn new(signal: Signal) -> (r: Self)
        ensures
            r.source() == signal,
    {
        ReadOnlySignal { inner: signal }
    }

    pub(crate) fn cell(self) -> (s: Signal)
        ensures
            s == self.source(),
    {
        self.inner
    }
}

impl Signal {
    /// The same cell, named without the right to write.
    pub fn read_only(self) -> (r: ReadOnlySignal)
        ensures
            r.source() == self,
    {
        ReadOnlySignal::new(self)
    }
}

/// What a cell stores: its value, the plain consumers and the effects that
/// read it, and the scope that owns it.
pub struct SignalData<V> {
    pub value: V,
    pub subscribers: Vec<ScopeId>,
    pub effect_subscribers: Vec<Effect>,
    pub owner: ScopeId,
}

/// `members` with `x` added, unless it is there already.
pub open spec fn with_member<T>(members: Seq<T>, x: T) -> Seq<T> {
    if members.contains(x) {
        members
    } else {
        members.push(x)
    }
}

/// `members` without `x`, where nothing occurs twice.
pub open spec fn without_member<T>(members: Seq<T>, x: T) -> Seq<T> {
    if members.contains(x) {
        members.remove(members.index_of(x))
    } else {
        members
    }
}

/// The members after `x` was added are `x` and those before, and nothing
/// occurs twice among them if nothing did before.
pub proof fn lemma_with_member<T>(members: Seq<T>, x: T)
    ensures
        members.no_duplicates() ==> with_member(members, x).no_duplicates(),
        with_member(members, x).contains(x),
        forall|y: T| #[trigger] members.contains(y) ==> with_member(members, x).contains(y),
        forall|y: T| #[trigger] with_member(members, x).contains(y) ==> y == x || members.contains(y),
{
    let r = with_member(members, x);
    if !members.contains(x) {
        assert(r[members.len() as int] == x);
        assert forall|y: T| #[trigger] members.contains(y) implies r.contains(y) by {
            let i = choose|i: int| 0 <= i < members.len() && members[i] == y;
            assert(r[i] == y);
        }
        assert forall|y: T| #[trigger] r.contains(y) implies y == x || members.contains(y) by {
            let i = choose|i: int| 0 <= i < r.len() && r[i] == y;
            if i < members.len() {
                assert(members[i] == y);
            }
        }
        if members.no_duplicates() {
            assert forall|i: int, j: int| 0 <= i < r.len() && 0 <= j < r.len() && i != j implies r[i]
                != r[j] by {
                if i == members.len() {
                    assert(members[j] == r[j]);
                } else if j == members.len() {
                    assert(members[i] == r[i]);
                }
            }
        }
    }
}

/// Removing keeps a duplicate-free sequence duplicate-free and `x` is no member of it.
pub proof fn lemma_without_member<T>(members: Seq<T>, x: T)
    requires
        members.no_duplicates(),
    ensures
        without_member(members, x).no_duplicates(),
        !without_member(members, x).contains(x),
        forall|y: T| y != x && members.contains(y) ==> #[trigger] without_member(members, x).contains(y),
        forall|y: T| #[trigger] without_member(members, x).contains(y) ==> members.contains(y),
{
    let r = without_member(members, x);
    if members.contains(x) {
        let k = members.index_of(x);
        assert(0 <= k < members.len() && members[k] == x);
        assert forall|i: int| 0 <= i < r.len() implies r[i] != x && members.contains(#[trigger] r[i]) by {
            if i < k {
                assert(r[i] == members[i]);
            } else {
                assert(r[i] == members[i + 1]);
            }
        }
        assert forall|i: int, j: int| 0 <= i < r.len() && 0 <= j < r.len() && i != j implies r[i]
            != r[j] by {
            let a = if i < k { i } else { i + 1 };
            let b = if j < k { j } else { j + 1 };
            assert(r[i] == members[a] && r[j] == members[b]);
        }
        assert forall|y: T| y != x && members.contains(y) implies #[trigger] r.contains(y) by {
            let i = choose|i: int| 0 <= i < members.len() && members[i] == y;
            if i < k {
                assert(r[i] == y);
            } else {
                assert(r[i - 1] == y);
            }
        }
    }
}

/// Adds `scope` to a duplicate-free list of consumers, if it is not in it.
pub fn add_scope(members: &mut Vec<ScopeId>, scope: ScopeId)
    ensures
        final(members)@ == with_member(old(members)@, scope),
{
    let mut i: usize = 0;
    while i < members.len()
        invariant
            i <= members.len(),
            *members == *old(members),
            forall|j: int| 0 <= j < i ==> members@[j] != scope,
        decreases members.len() - i,
    {
        if members[i] == scope {
            return ;
        }
        i += 1;
    }
    members.push(scope);
}

/// Adds `effect` to a duplicate-free list of effects, if it is not in it.
pub fn add_effect(members: &mut Vec<Effect>, effect: Effect)
    ensures
        final(members)@ == with_member(old(members)@, effect),
{
    let mut i: usize = 0;
    while i < members.len()
        invariant
            i <= members.len(),
            *members == *old(members),
            forall|j: int| 0 <= j < i ==> members@[j] != effect,
        decreases members.len() - i,
    {
        if members[i] == effect {
            return ;
        }
        i += 1;
    }
    members.push(effect);
}

/// Takes `scope` out of a duplicate-free list of consumers.
pub fn remove_scope(members: &mut Vec<ScopeId>, scope: ScopeId)
    requires
        old(members)@.no_duplicates(),
    ensures
        final(members)@ == without_member(old(members)@, scope),
{
    let mut i: usize = 0;
    while i < members.len()
        invariant
            i <= members.len(),
            *members == *old(members),
            members@.no_duplicates(),
            forall|j: int| 0 <= j < i ==> members@[j] != scope,
        decreases members.len() - i,
    {
        if members[i] == scope {
            proof {
                let k = members@.index_of(scope);
                assert(members@[i as int] == scope);
                assert(members@.contains(scope));
                assert(0 <= k < members@.len() && members@[k] == scope);
                assert(k == i) by {
                    if k != i {
                        assert(members@[k] != members@[i as int]);
                    }
                }
            }
            members.remove(i);
            return ;
        }
        i += 1;
    }
}

/// Takes `effect` out of a duplicate-free list of effects.
pub fn remove_effect(members: &mut Vec<Effect>, effect: Effect)
    requires
        old(members)@.no_duplicates(),
    ensures
        final(members)@ == without_member(old(members)@, effect),
{
    let mut i: usize = 0;
    while i < members.len()
        invariant
            i <= members.len(),
            *members == *old(members),
            members@.no_duplicates(),
            forall|j: int| 0 <= j < i ==> members@[j] != effect,
        decreases members.len() - i,
    {
        if members[i] == effect {
            proof {
                let k = members@.index_of(effect);
                assert(members@[i as int] == effect);
                assert(members@.contains(effect));
                assert(0 <= k < members@.len() && members@[k] == effect);
                assert(k == i) by {
                    if k != i {
                        assert(members@[k] != members@[i as int]);
                    }
                }
            }
            members.remove(i);
            return ;
        }
        i += 1;
    }
}

/// A copy of a list of effects.
pub fn copy_effects(members: &Vec<Effect>) -> (copy: Vec<Effect>)
    ensures
        copy@ == members@,
{
    let mut copy: Vec<Effect> = Vec::new();
    let mut i: usize = 0;
    while i < members.len()
        invariant
            i <= members.len(),
            copy@ == members@.take(i as int),
        decreases members.len() - i,
    {
        copy.push(members[i]);
        assert(members@.take(i + 1) =~= members@.take(i as int).push(members@[i as int]));
        i += 1;
    }
    assert(members@.take(members.len() as int) =~= members@);
    copy
}

/// Appends the consumers `more` to `queue`, in order.
pub fn append_scopes(queue: &mut Vec<ScopeId>, more: &Vec<ScopeId>)
    ensures
        final(queue)@ == old(queue)@ + more@,
{
    let mut i: usize = 0;
    while i < more.len()
        invariant
            i <= more.len(),
            queue@ == old(queue)@ + more@.take(i as int),
        decreases more.len() - i,
    {
        queue.push(more[i]);
        assert(more@.take(i + 1) =~= more@.take(i as int).push(more@[i as int]));
        assert(queue@ =~= old(queue)@ + more@.take(i + 1));
        i += 1;
    }
    assert(more@.take(more.len() as int) =~= more@);
}

} // verus!
