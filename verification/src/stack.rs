//! The stack of the effects that are being evaluated.

use vstd::prelude::*;
use crate::effect::Effect;

verus! {

/// The computations that are being evaluated, innermost last. A frame is
/// pushed right before an effect's procedure runs and popped right after.
pub struct EffectStack {
    frames: Vec<Effect>,
}

impl View for EffectStack {
    type V = Seq<Effect>;

    closed spec fn view(&self) -> Seq<Effect> {
        self.frames@
    }
}

impl EffectStack {
    /// A stack without frames: nothing is being evaluated.
    pub fn new() -> (stack: Self)
        ensures
            stack@ == Seq::<Effect>::empty(),
    {
        EffectStack { frames: Vec::new() }
    }

    /// The number of frames.
    pub fn depth(&self) -> (n: usize)
        ensures
            n == self@.len(),
    {
        self.frames.len()
    }

    /// Whether no computation is being evaluated.
    pub fn is_empty(&self) -> (b: bool)
        ensures
            b == (self@.len() == 0),
    {
        self.frames.len() == 0
    }

    /// Enters `effect`: it is the innermost computation from now on.
    pub fn push(&mut self, effect: Effect)
        ensures
            final(self)@ == old(self)@.push(effect),
    {
        self.frames.push(effect);
    }

    /// Leaves the innermost computation and returns it.
    pub fn pop(&mut self) -> (r: Option<Effect>)
        ensures
            old(self)@.len() == 0 ==> r.is_none() && final(self)@ == old(self)@,
            old(self)@.len() > 0 ==> r == Some(old(self)@.last()) && final(self)@ == old(
                self)@.drop_last(),
    {
        self.frames.pop()
    }

    /// The innermost computation, which reads are attributed to.
    pub fn top(&self) -> (r: Option<Effect>)
        ensures
            self@.len() == 0 ==> r.is_none(),
            self@.len() > 0 ==> r == Some(self@.last()),
    {
        let n: usize = self.frames.len();
        if n == 0 {
            None
        } else {
            Some(self.frames[n - 1])
        }
    }
}

} // verus!
