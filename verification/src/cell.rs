//! One-time memoizing cell.
//!
//! A `Lazy` holds either a pending one-shot producer, a note that the
//! producer is currently running, a poison mark left by a producer that
//! started but never completed, or the computed value. The producer is
//! started at most once over the cell's whole lifetime, however often the
//! cell is read; once a value is stored it never changes.

use vstd::prelude::*;

verus! {

/// The four states of a memoizing cell: a pending producer, a production
/// currently underway, a production that started but never completed, or
/// the cached value.
#[derive(Clone)]
pub enum CellState<V, P> {
    Empty(P),
    InProgress,
    Poisoned,
    Done(V),
}

/// A one-time memoizing cell. `V` is the type of the cached value, `P` the
/// type of the one-shot producer state consumed to compute it.
///
/// Production follows an explicit protocol: `begin` hands the producer out
/// and marks the cell in progress; `complete` stores the value; `abort`
/// marks the cell poisoned. The ghost counter records how many times a
/// production was ever started, so at-most-once production is part of the
/// cell's well-formedness rather than a convention.
#[derive(Clone)]
pub struct Lazy<V, P> {
    pub state: CellState<V, P>,
    pub runs: Ghost<nat>,
}

impl<V, P> Lazy<V, P> {
    /// How many times a production has been started on this cell.
    pub open spec fn invocations(self) -> nat {
        self.runs@
    }

    pub open spec fn is_pending(self) -> bool {
        self.state is Empty
    }

    pub open spec fn is_in_progress(self) -> bool {
        self.state is InProgress
    }

    pub open spec fn is_poisoned(self) -> bool {
        self.state is Poisoned
    }

    pub open spec fn is_done(self) -> bool {
        self.state is Done
    }

    /// The pending producer of a cell that has not been forced yet.
    pub open spec fn producer(self) -> P {
        match self.state {
            CellState::Empty(p) => p,
            _ => arbitrary(),
        }
    }

    /// The cached value of a completed cell.
    pub open spec fn value(self) -> V {
        match self.state {
            CellState::Done(v) => v,
            _ => arbitrary(),
        }
    }

    /// Well-formedness: the production count is tied to the state. A cell
    /// still holding its producer has started nothing; a cell in progress,
    /// poisoned, or filled by a producer has started exactly one production.
    /// A cell built directly from a value has started none.
    pub open spec fn wf(self) -> bool {
        &&& self.runs@ <= 1
        &&& (self.state is Empty ==> self.runs@ == 0)
        &&& (self.state is InProgress ==> self.runs@ == 1)
        &&& (self.state is Poisoned ==> self.runs@ == 1)
    }

    /// A fresh cell holding a pending producer.
    pub fn new(producer: P) -> (c: Self)
        ensures
            c.wf(),
            c.is_pending(),
            c.producer() == producer,
            c.invocations() == 0,
    {
        Lazy { state: CellState::Empty(producer), runs: Ghost(0nat) }
    }

    /// A cell whose value is already known; no producer will ever run.
    pub fn from_value(v: V) -> (c: Self)
        ensures
            c.wf(),
            c.is_done(),
            c.value() == v,
            c.invocations() == 0,
    {
        Lazy { state: CellState::Done(v), runs: Ghost(0nat) }
    }

    /// Start the one production: take the producer out and mark the cell in
    /// progress. While the cell is in progress any read through `try_get`
    /// reports the value as not yet available.
    pub fn begin(&mut self) -> (producer: P)
        requires
            old(self).wf(),
            old(self).is_pending(),
        ensures
            final(self).wf(),
            final(self).is_in_progress(),
            producer == old(self).producer(),
            final(self).invocations() == old(self).invocations() + 1,
    {
        let mut taken = CellState::InProgress;
        core::mem::swap(&mut self.state, &mut taken);
        proof {
            self.runs@ = 1nat;
        }
        match taken {
            CellState::Empty(p) => p,
            _ => vstd::pervasive::unreached(),
        }
    }

    /// Finish the production: cache the value forever.
    pub fn complete(&mut self, v: V)
        requires
            old(self).wf(),
            old(self).is_in_progress(),
        ensures
            final(self).wf(),
            final(self).is_done(),
            final(self).value() == v,
            final(self).invocations() == old(self).invocations(),
    {
        self.state = CellState::Done(v);
    }

    /// Abnormal termination during production: the cell is permanently
    /// poisoned and no later call may start the producer again.
    pub fn abort(&mut self)
        requires
            old(self).wf(),
            old(self).is_in_progress(),
        ensures
            final(self).wf(),
            final(self).is_poisoned(),
            final(self).invocations() == old(self).invocations(),
    {
        self.state = CellState::Poisoned;
    }

    /// Force the cell: answer the cached value, running the one-shot
    /// producer through `run` on the first force only. A reentrant force —
    /// one that lands while this same cell is already producing — answers
    /// nothing and runs nothing, instead of blocking or recursing. Forcing a
    /// poisoned cell is excluded by contract: at-most-once production is
    /// already broken there.
    pub fn force<G: FnOnce(P) -> V>(&mut self, run: G) -> (r: Option<&V>)
        requires
            old(self).wf(),
            !old(self).is_poisoned(),
            old(self).is_pending() ==> call_requires(run, (old(self).producer(),)),
        ensures
            final(self).wf(),
            final(self).invocations() <= 1,
            match r {
                Some(v) => final(self).is_done() && *v == final(self).value(),
                None => old(self).is_in_progress() && *final(self) == *old(self),
            },
            old(self).is_done() ==> *final(self) == *old(self),
            old(self).is_pending() ==> final(self).is_done() && call_ensures(
                run,
                (old(self).producer(),),
                final(self).value(),
            ) && final(self).invocations() == 1,
    {
        let run_now = match &self.state {
            CellState::Done(_) => false,
            CellState::InProgress => {
                return None;
            },
            CellState::Poisoned => {
                return None;
            },
            CellState::Empty(_) => true,
        };
        if run_now {
            let p = self.begin();
            let v = run(p);
            self.complete(v);
        }
        self.try_get()
    }

    /// Read the cell without forcing it: the cached value if production has
    /// completed, nothing while the value is pending, in progress (the
    /// reentrant case), or poisoned.
    pub fn try_get(&self) -> (r: Option<&V>)
        ensures
            match r {
                Some(v) => self.is_done() && *v == self.value(),
                None => !self.is_done(),
            },
    {
        match &self.state {
            CellState::Done(v) => Some(v),
            _ => None,
        }
    }
}

/// At-most-once production: however many times a well-formed cell has been
/// read or forced, its producer has been started either zero times or once.
pub proof fn lemma_at_most_once_production<V, P>(c: Lazy<V, P>)
    requires
        c.wf(),
    ensures
        c.invocations() <= 1,
{
}

} // verus!
