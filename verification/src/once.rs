//! Call-site memory: what is made once per instantiation of a scope.

use vstd::prelude::*;

verus! {

/// The memory of one call site within one instantiation of a scope: what
/// the call site made the first time it was reached. The host keeps one
/// memo per call site for as long as the scope lives, and makes a new one
/// when the scope is instantiated anew.
pub struct RunOnce<T> {
    made: Option<T>,
}

impl<T: Copy> RunOnce<T> {
    /// What the call site has made, if it was reached before.
    pub closed spec fn value(&self) -> Option<T> {
        self.made
    }

    /// The memo of a call site that was not reached yet.
    pub fn new() -> (memo: Self)
        ensures
            memo.value().is_none(),
    {
        RunOnce { made: None }
    }

    /// What the call site has made, if it was reached before.
    pub fn get(&self) -> (r: Option<T>)
        ensures
            r == self.value(),
    {
        self.made
    }

    /// Remembers `value` as what the call site made, unless it has made
    /// something already. Returns what the memo holds from now on.
    pub fn keep(&mut self, value: T) -> (kept: T)
        ensures
            final(self).value() == Some(kept),
            kept == match old(self).value() {
                Some(first) => first,
                None => value,
            },
    {
        match self.made {
            Some(first) => first,
            None => {
                self.made = Some(value);
                value
            },
        }
    }

    /// Runs `init` if the call site is reached for the first time and
    /// remembers its result; on every later call returns that result and
    /// does not run `init`.
    pub fn run<F: FnOnce() -> T>(&mut self, init: F) -> (r: T)
        requires
            old(self).value().is_none() ==> init.requires(()),
        ensures
            final(self).value() == Some(r),
            old(self).value().is_some() ==> final(self).value() == old(self).value(),
            old(self).value().is_none() ==> init.ensures((), r),
    {
        match self.made {
            Some(first) => first,
            None => {
                let value = init();
                self.made = Some(value);
                value
            },
        }
    }
}

} // verus!
