//! What a procedure sees of the graph, and the procedures themselves.

use vstd::prelude::*;
use crate::arena::{content, holds, Arena, Slot};
use crate::error::Error;
use crate::graph::{signal_slots, SignalState};
use crate::signal::{ReadOnlySignal, SignalData};

verus! {

/// What an effect's procedure sees of the graph while it runs: it can read
/// cells, and every read is noted so that the effect is registered as a
/// reader of that cell when the procedure returns. It cannot write: the
/// cells are the same before and after the procedure.
pub struct Tracker<'a, V> {
    signals: &'a Arena<SignalData<V>>,
    reads: Vec<ReadOnlySignal>,
}

impl<'a, V: Copy> Tracker<'a, V> {
    /// The cells that the procedure can read.
    pub closed spec fn cells(&self) -> Seq<Slot<SignalState<V>>> {
        signal_slots(self.signals@)
    }

    /// The reads noted so far, oldest first.
    pub closed spec fn noted(&self) -> Seq<ReadOnlySignal> {
        self.reads@
    }

    pub(crate) fn new(signals: &'a Arena<SignalData<V>>) -> (tracker: Self)
        ensures
            tracker.cells() == signal_slots(signals@),
            tracker.noted() == Seq::<ReadOnlySignal>::empty(),
    {
        Tracker { signals, reads: Vec::new() }
    }

    pub(crate) fn into_reads(self) -> (reads: Vec<ReadOnlySignal>)
        ensures
            reads@ == self.noted(),
    {
        self.reads
    }

    /// Reads the cell `signal` on behalf of the effect that is being
    /// evaluated, and notes the read. A cell that holds no value, or whose
    /// owner is gone, is refused and not noted.
    pub fn read(&mut self, signal: ReadOnlySignal) -> (r: Result<V, Error>)
        ensures
            final(self).cells() == old(self).cells(),
            holds(old(self).cells(), signal.source().inner) ==> r == Ok::<V, Error>(
                content(old(self).cells(), signal.source().inner).value,
            ) && final(self).noted() == old(self).noted().push(signal),
            !holds(old(self).cells(), signal.source().inner) ==> r == Err::<V, Error>(
                Error::UseAfterInvalidate,
            ) && final(self).noted() == old(self).noted(),
    {
        match self.signals.read(signal.cell().inner) {
            Ok(data) => {
                let value = data.value;
                self.reads.push(signal);
                Ok(value)
            },
            Err(e) => Err(e),
        }
    }
}

/// A procedure that computes a value from the cells it reads. The runtime
/// learns what a procedure depends on by watching its reads, so nothing is
/// declared: an implementation reads through the tracker and returns its
/// result, or the error of a read that was refused.
pub trait Compute<V> {
    fn run(&mut self, tracker: &mut Tracker<'_, V>) -> Result<V, Error>;
}

/// A procedure that computes a value from a dependency value handed to it
/// and from the cells it reads.
pub trait ComputeWith<V> {
    fn run(&mut self, dependencies: V, tracker: &mut Tracker<'_, V>) -> Result<V, Error>;
}

/// A procedure as an effect stores it: the value under which contracts
/// speak of which procedure a slot holds.
#[verifier::reject_recursive_types(V)]
pub struct Procedure<V> {
    pub body: Box<dyn Compute<V>>,
}

} // verus!
