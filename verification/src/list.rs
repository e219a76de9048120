//! The lazy list spine.
//!
//! A list is a chain of memoizing cells, kept in chain order. Every cell
//! before the frontier has been forced and caches one element; the frontier
//! cell either marks the end of the list or still holds the one-shot
//! producer that will compute the next element on demand. Forcing only ever
//! extends the materialized prefix; cached elements never change.
//!
//! Two producers exist: a finite adapter that pulls one element per force
//! from a source sequence, and a cyclic, self-referential adapter whose step
//! function observes the elements its own chain has produced so far. The
//! cyclic adapter's back-reference is the index where its chain starts in
//! the spine: a plain, non-owning handle, so elements prepended in front of
//! the chain stay invisible to the step function, and the element currently
//! being produced is never part of the view the step function receives.

use crate::cell::CellState;
use crate::cell::Lazy;
use vstd::prelude::*;

verus! {

/// Content of a forced spine node: the end of the list, or the node's
/// element (the node's tail is the next cell of the spine).
#[derive(Clone)]
pub enum Content<T> {
    Terminated,
    Evaluated(T),
}

/// One-shot producer installed in the frontier cell of a spine.
#[derive(Clone)]
pub enum Producer<T, F> {
    /// Finite adapter over a source sequence: each force pulls exactly one
    /// element, at `pos`; the successor producer continues at `pos + 1`.
    Finite { src: Vec<T>, pos: usize },
    /// Cyclic, self-referential adapter: `step` is handed the elements the
    /// chain has produced so far and yields the next element, or nothing to
    /// terminate the list. `origin` points at the start of the chain within
    /// the spine, so prepended elements stay out of the step function's view.
    Cyclic { step: F, origin: usize },
}

/// The element cached by a forced node.
pub open spec fn content_elem<T>(c: Content<T>) -> T {
    match c {
        Content::Evaluated(v) => v,
        Content::Terminated => arbitrary(),
    }
}

/// A lazy, memoizing, persistent singly-linked list.
#[derive(Clone)]
pub struct LazyList<T, F = fn(Vec<T>) -> Option<T>> {
    pub cells: Vec<Lazy<Content<T>, Producer<T, F>>>,
}

impl<T, F> LazyList<T, F> where F: Fn(Vec<T>) -> Option<T> {
    /// The frontier: the last cell of the spine, the only one that may still
    /// be unforced.
    pub open spec fn frontier(self) -> Lazy<Content<T>, Producer<T, F>> {
        self.cells@[self.cells@.len() - 1]
    }

    /// The materialized elements, head first.
    pub open spec fn elems(self) -> Seq<T> {
        Seq::new((self.cells@.len() - 1) as nat, |i: int| content_elem(self.cells@[i].value()))
    }

    /// The spine has reached the end of the list.
    pub open spec fn terminated(self) -> bool {
        self.frontier().is_done() && self.frontier().value() is Terminated
    }

    /// The frontier still holds a pending producer.
    pub open spec fn is_pending(self) -> bool {
        self.frontier().is_pending()
    }

    pub open spec fn pending_producer(self) -> Producer<T, F> {
        self.frontier().producer()
    }

    /// The next elements come from a finite source sequence.
    pub open spec fn is_source_backed(self) -> bool {
        self.is_pending() && self.pending_producer() is Finite
    }

    /// The next elements come from the self-referential step function.
    pub open spec fn is_cyclic(self) -> bool {
        self.is_pending() && self.pending_producer() is Cyclic
    }

    /// The eventual contents are fully determined already: either the list
    /// has terminated or a finite source sequence will supply the rest.
    pub open spec fn is_settled(self) -> bool {
        self.terminated() || self.is_source_backed()
    }

    /// Elements not yet pulled from the finite source.
    pub open spec fn remaining(self) -> Seq<T> {
        if self.is_source_backed() {
            match self.pending_producer() {
                Producer::Finite { src, pos } => src@.skip(pos as int),
                Producer::Cyclic { .. } => Seq::empty(),
            }
        } else {
            Seq::empty()
        }
    }

    /// The eventual contents of a settled list.
    pub open spec fn full(self) -> Seq<T> {
        self.elems() + self.remaining()
    }

    /// The step function of a cyclic list.
    pub open spec fn step_fn(self) -> F {
        match self.pending_producer() {
            Producer::Cyclic { step, .. } => step,
            Producer::Finite { .. } => arbitrary(),
        }
    }

    /// Where the cyclic chain starts in the spine: its generator sees only
    /// the elements from this position on.
    pub open spec fn origin(self) -> int {
        match self.pending_producer() {
            Producer::Cyclic { origin, .. } => origin as int,
            Producer::Finite { .. } => arbitrary(),
        }
    }

    /// The pending producer is in a state it could have reached honestly.
    pub open spec fn producer_wf(self) -> bool {
        match self.pending_producer() {
            Producer::Finite { src, pos } => pos <= src@.len(),
            Producer::Cyclic { step, origin } => {
                &&& origin <= self.elems().len()
                &&& forall|v: Vec<T>| call_requires(step, (v,))
            },
        }
    }

    /// Well-formedness of the whole spine: at least the frontier exists,
    /// every earlier cell caches one element, and the frontier either marks
    /// termination or holds a pending, honest producer.
    pub open spec fn wf(self) -> bool {
        &&& self.cells@.len() >= 1
        &&& forall|i: int|
            0 <= i < self.cells@.len() - 1 ==> {
                &&& (#[trigger] self.cells@[i]).wf()
                &&& self.cells@[i].is_done()
                &&& self.cells@[i].value() is Evaluated
            }
        &&& self.frontier().wf()
        &&& (self.terminated() || (self.is_pending() && self.producer_wf()))
    }

    /// The step function, handed the chain's elements `origin..k`, may yield
    /// `out` as its answer for position `k`.
    pub open spec fn cyclic_yields(
        step: F,
        origin: int,
        elems: Seq<T>,
        k: int,
        out: Option<T>,
    ) -> bool {
        exists|pv: Vec<T>| pv@ == elems.subrange(origin, k) && call_ensures(step, (pv,), out)
    }

    /// How a list may evolve under forcing: the materialized prefix only
    /// grows and cached elements never change; a terminated list never
    /// changes at all; the eventual contents of a settled list are fixed;
    /// and on a cyclic list every newly materialized element is an answer of
    /// the installed step function for its position, given exactly the
    /// elements of the chain before that position.
    pub open spec fn evolves_to(self, post: Self) -> bool {
        &&& post.wf()
        &&& self.elems().is_prefix_of(post.elems())
        &&& (self.terminated() ==> post == self)
        &&& (self.is_settled() ==> post.is_settled() && post.full() == self.full())
        &&& (self.is_cyclic() ==> {
            &&& (post.is_cyclic() || post.terminated())
            &&& (post.is_cyclic() ==> post.step_fn() == self.step_fn() && post.origin()
                == self.origin())
            &&& (forall|k: int|
                self.elems().len() <= k < post.elems().len()
                    ==> #[trigger] Self::cyclic_yields(
                    self.step_fn(),
                    self.origin(),
                    post.elems(),
                    k,
                    Some(post.elems()[k]),
                ))
            &&& (post.terminated() ==> Self::cyclic_yields(
                self.step_fn(),
                self.origin(),
                post.elems(),
                post.elems().len() as int,
                None,
            ))
        })
    }

    /// What an answer of `get` at position `i` says about the state the call
    /// left behind: the cached element when `i` lies within the list, and
    /// nothing exactly when the list terminates at or before `i`.
    pub open spec fn get_result(post: Self, i: int, r: Option<T>) -> bool {
        if i < post.elems().len() {
            r == Some(post.elems()[i])
        } else {
            r == None::<T> && post.terminated()
        }
    }

    /// The one possible answer of `get` at position `i` on a settled list.
    pub open spec fn settled_index(l: Self, i: int) -> Option<T> {
        if i < l.full().len() {
            Some(l.full()[i])
        } else {
            None
        }
    }

    /// What `get` guarantees: the list evolves by forcing alone, the answer
    /// describes the final state at position `i`, and a read of an already
    /// materialized position changes nothing at all.
    pub open spec fn get_post(pre: Self, post: Self, i: int, r: Option<T>) -> bool {
        &&& pre.evolves_to(post)
        &&& Self::get_result(post, i, r)
        &&& (i < pre.elems().len() ==> post == pre)
    }

    /// Evolution under forcing is reflexive: doing nothing is an evolution.
    pub proof fn lemma_evolves_refl(l: Self)
        requires
            l.wf(),
        ensures
            l.evolves_to(l),
    {
        assert(l.elems().is_prefix_of(l.elems())) by {
            assert(l.elems() =~= l.elems().subrange(0, l.elems().len() as int));
        }
    }

    /// Evolution under forcing composes: two rounds of forcing are one.
    pub proof fn lemma_evolves_trans(a: Self, b: Self, c: Self)
        requires
            a.wf(),
            a.evolves_to(b),
            b.evolves_to(c),
        ensures
            a.evolves_to(c),
    {
        assert(a.elems().is_prefix_of(c.elems())) by {
            assert(a.elems() =~= c.elems().subrange(0, a.elems().len() as int));
        }
        if a.terminated() {
            assert(b == a);
        }
        if a.is_cyclic() && b.terminated() {
            assert(c == b);
        }
        if a.is_cyclic() && !b.terminated() {
            assert forall|k: int|
                a.elems().len() <= k < c.elems().len() implies #[trigger] Self::cyclic_yields(
                a.step_fn(),
                a.origin(),
                c.elems(),
                k,
                Some(c.elems()[k]),
            ) by {
                if k < b.elems().len() {
                    assert(Self::cyclic_yields(
                        a.step_fn(),
                        a.origin(),
                        b.elems(),
                        k,
                        Some(b.elems()[k]),
                    ));
                    let pv = choose|pv: Vec<T>|
                        pv@ == b.elems().subrange(a.origin(), k) && call_ensures(
                            a.step_fn(),
                            (pv,),
                            Some(b.elems()[k]),
                        );
                    assert(b.elems().subrange(a.origin(), k) =~= c.elems().subrange(
                        a.origin(),
                        k,
                    ));
                    assert(b.elems()[k] == c.elems()[k]);
                    assert(pv@ == c.elems().subrange(a.origin(), k));
                    assert(call_ensures(a.step_fn(), (pv,), Some(c.elems()[k])));
                } else {
                    assert(Self::cyclic_yields(
                        b.step_fn(),
                        b.origin(),
                        c.elems(),
                        k,
                        Some(c.elems()[k]),
                    ));
                }
            }
        }
    }

    /// Idempotence of forcing: two reads of the same position answer the
    /// same, and the second read leaves the list exactly as the first did.
    pub proof fn lemma_get_idempotent(
        pre: Self,
        mid: Self,
        post: Self,
        i: int,
        r1: Option<T>,
        r2: Option<T>,
    )
        requires
            Self::get_post(pre, mid, i, r1),
            Self::get_post(mid, post, i, r2),
        ensures
            r2 == r1,
            post == mid,
    {
        match r1 {
            Some(v) => {
                assert(i < mid.elems().len());
            },
            None => {
                assert(mid.terminated());
            },
        }
    }

    /// At-most-once production across the whole spine: in a well-formed
    /// list, every cell has started its producer either never or once,
    /// however many reads and forces the list has seen.
    pub proof fn lemma_at_most_once(l: Self, i: int)
        requires
            l.wf(),
            0 <= i < l.cells@.len(),
        ensures
            l.cells@[i].invocations() <= 1,
    {
    }
}

impl<T: Copy, F> LazyList<T, F> where F: Fn(Vec<T>) -> Option<T> {
    /// The empty list: its head cell is already the end of the list.
    pub fn new() -> (r: Self)
        ensures
            r.wf(),
            r.terminated(),
            r.elems() == Seq::<T>::empty(),
    {
        let mut cells: Vec<Lazy<Content<T>, Producer<T, F>>> = Vec::new();
        cells.push(Lazy::from_value(Content::Terminated));
        let r = LazyList { cells };
        proof {
            assert(r.elems() =~= Seq::<T>::empty());
        }
        r
    }

    /// A list over a finite source sequence. Nothing is computed here: the
    /// head cell holds the finite adapter, and each element is pulled from
    /// the source on first demand only.
    pub fn from_iter(src: Vec<T>) -> (r: Self)
        ensures
            r.wf(),
            r.elems() == Seq::<T>::empty(),
            r.is_source_backed(),
            r.remaining() == src@,
            r.full() == src@,
    {
        let mut cells: Vec<Lazy<Content<T>, Producer<T, F>>> = Vec::new();
        cells.push(Lazy::new(Producer::Finite { src, pos: 0 }));
        let r = LazyList { cells };
        proof {
            assert(r.elems() =~= Seq::<T>::empty());
            assert(r.remaining() =~= r.full());
        }
        r
    }

    /// A self-referential list: `step` computes element `k` from the
    /// elements `0..k` of the very list it is building, and terminates the
    /// list by yielding nothing. The back-reference the producer keeps is a
    /// plain index into the spine, so it owns nothing.
    pub fn new_cyclic(step: F) -> (r: Self)
        requires
            forall|v: Vec<T>| call_requires(step, (v,)),
        ensures
            r.wf(),
            r.elems() == Seq::<T>::empty(),
            r.is_cyclic(),
            r.step_fn() == step,
            r.origin() == 0,
    {
        let mut cells: Vec<Lazy<Content<T>, Producer<T, F>>> = Vec::new();
        cells.push(Lazy::new(Producer::Cyclic { step, origin: 0 }));
        let r = LazyList { cells };
        proof {
            assert(r.elems() =~= Seq::<T>::empty());
        }
        r
    }

    /// What `prepend` returns: one more element in front, everything else —
    /// termination, the pending source, a cyclic generator and its relative
    /// view — exactly as in the base list, which stays valid on its own.
    pub open spec fn is_prepend_of(longer: Self, base: Self, x: T) -> bool {
        &&& longer.wf()
        &&& longer.elems() == seq![x] + base.elems()
        &&& longer.terminated() == base.terminated()
        &&& longer.is_source_backed() == base.is_source_backed()
        &&& longer.is_cyclic() == base.is_cyclic()
        &&& longer.remaining() == base.remaining()
        &&& (base.is_settled() ==> longer.full() == seq![x] + base.full())
        &&& (base.is_cyclic() ==> longer.step_fn() == base.step_fn() && longer.origin()
            == base.origin() + 1)
    }

    /// A new list whose head is `val` and whose tail is this list. The base
    /// list's cells are not touched: a pending cyclic producer only has its
    /// back-reference shifted past the new head, so its view of the chain it
    /// belongs to is unchanged.
    pub fn prepend(self, val: T) -> (r: Self)
        requires
            self.wf(),
        ensures
            r.wf(),
            Self::is_prepend_of(r, self, val),
    {
        let mut cells = self.cells;
        let frontier = match cells.pop() {
            Some(c) => c,
            None => vstd::pervasive::unreached(),
        };
        let Lazy { state, runs } = frontier;
        let frontier = match state {
            CellState::Empty(Producer::Cyclic { step, origin }) => {
                proof {
                    assert(origin < self.cells.len());
                }
                Lazy::new(Producer::Cyclic { step, origin: origin + 1 })
            },
            st => Lazy { state: st, runs },
        };
        cells.push(frontier);
        cells.insert(0, Lazy::from_value(Content::Evaluated(val)));
        let r = LazyList { cells };
        proof {
            assert forall|j: int| 0 <= j < r.elems().len() implies r.elems()[j] == (seq![val]
                + self.elems())[j] by {
                if j == 0 {
                } else {
                    assert(r.cells@[j] == self.cells@[j - 1]);
                }
            }
            assert(r.elems() =~= seq![val] + self.elems());
            assert(r.frontier() == frontier);
            if self.is_settled() {
                assert(r.full() =~= seq![val] + self.full());
            }
        }
        r
    }

    /// Copy out the chain's elements from position `from` on: the view a
    /// cyclic step function is handed.
    fn collect_elems(
        cells: &Vec<Lazy<Content<T>, Producer<T, F>>>,
        from: usize,
    ) -> (pv: Vec<T>)
        requires
            from as int <= cells@.len(),
            forall|i: int|
                0 <= i < cells@.len() ==> (#[trigger] cells@[i]).is_done() && cells@[i].value()
                    is Evaluated,
        ensures
            pv@ == Seq::new(
                (cells@.len() - from) as nat,
                |j: int| content_elem(cells@[from + j].value()),
            ),
    {
        let mut pv: Vec<T> = Vec::new();
        let mut i = from;
        while i < cells.len()
            invariant
                from <= i <= cells@.len(),
                forall|k: int|
                    0 <= k < cells@.len() ==> (#[trigger] cells@[k]).is_done() && cells@[k].value()
                        is Evaluated,
                pv@.len() == i - from,
                forall|j: int| 0 <= j < pv@.len() ==> pv@[j] == content_elem(
                    cells@[from + j].value(),
                ),
            decreases cells@.len() - i,
        {
            let c = match cells[i].try_get() {
                Some(c) => c,
                None => vstd::pervasive::unreached(),
            };
            match c {
                Content::Evaluated(v) => pv.push(*v),
                Content::Terminated => vstd::pervasive::unreached(),
            }
            i = i + 1;
        }
        proof {
            assert(pv@ =~= Seq::new(
                (cells@.len() - from) as nat,
                |j: int| content_elem(cells@[from + j].value()),
            ));
        }
        pv
    }

    /// Force the frontier cell once: start its one-shot producer, cache the
    /// outcome forever, and if an element was produced, install the
    /// successor producer in a fresh frontier cell. A cyclic step function
    /// is handed only the chain's elements before the position it is
    /// producing, so a reentrant read of that position sees nothing.
    fn force_once(&mut self)
        requires
            old(self).wf(),
            !old(self).terminated(),
        ensures
            final(self).wf(),
            old(self).evolves_to(*final(self)),
            (final(self).terminated() && final(self).elems() == old(self).elems())
                || (!final(self).terminated()
                && final(self).elems().len() == old(self).elems().len() + 1),
            old(self).is_source_backed() && !final(self).terminated()
                ==> final(self).remaining().len() == old(self).remaining().len() - 1,
    {
        let mut frontier = match self.cells.pop() {
            Some(c) => c,
            None => vstd::pervasive::unreached(),
        };
        let producer = frontier.begin();
        match producer {
            Producer::Finite { src, pos } => {
                if pos < src.len() {
                    let v = src[pos];
                    frontier.complete(Content::Evaluated(v));
                    self.cells.push(frontier);
                    self.cells.push(Lazy::new(Producer::Finite { src, pos: pos + 1 }));
                    proof {
                        assert(self.elems() =~= old(self).elems().push(v));
                        assert(old(self).elems().is_prefix_of(self.elems())) by {
                            assert(old(self).elems() =~= self.elems().subrange(
                                0,
                                old(self).elems().len() as int,
                            ));
                        }
                        assert(self.full() =~= old(self).full());
                    }
                } else {
                    frontier.complete(Content::Terminated);
                    self.cells.push(frontier);
                    proof {
                        assert(self.elems() =~= old(self).elems());
                        assert(old(self).elems().is_prefix_of(self.elems()));
                        assert(self.full() =~= old(self).full());
                    }
                }
            },
            Producer::Cyclic { step, origin } => {
                let prefix = Self::collect_elems(&self.cells, origin);
                let ghost gprefix = prefix;
                let out = step(prefix);
                let ghost gout = out;
                match out {
                    Some(v) => {
                        frontier.complete(Content::Evaluated(v));
                        self.cells.push(frontier);
                        self.cells.push(Lazy::new(Producer::Cyclic { step, origin }));
                        proof {
                            assert(self.elems() =~= old(self).elems().push(v));
                            assert(old(self).elems().is_prefix_of(self.elems())) by {
                                assert(old(self).elems() =~= self.elems().subrange(
                                    0,
                                    old(self).elems().len() as int,
                                ));
                            }
                            assert(gprefix@ =~= self.elems().subrange(
                                origin as int,
                                old(self).elems().len() as int,
                            ));
                            assert(call_ensures(step, (gprefix,), Some(v)));
                            assert forall|k: int|
                                old(self).elems().len() <= k < self.elems().len()
                                    implies #[trigger] Self::cyclic_yields(
                                old(self).step_fn(),
                                old(self).origin(),
                                self.elems(),
                                k,
                                Some(self.elems()[k]),
                            ) by {
                                assert(k == old(self).elems().len());
                                assert(gprefix@ == self.elems().subrange(origin as int, k));
                            }
                        }
                    },
                    None => {
                        frontier.complete(Content::Terminated);
                        self.cells.push(frontier);
                        proof {
                            assert(self.elems() =~= old(self).elems());
                            assert(old(self).elems().is_prefix_of(self.elems()));
                            assert(gprefix@ =~= self.elems().subrange(
                                origin as int,
                                self.elems().len() as int,
                            ));
                            assert(call_ensures(step, (gprefix,), None::<T>));
                            assert(Self::cyclic_yields(
                                old(self).step_fn(),
                                old(self).origin(),
                                self.elems(),
                                self.elems().len() as int,
                                None,
                            ));
                        }
                    },
                }
            },
        }
    }

    /// The number of elements cached so far, without forcing anything.
    fn materialized_len(&self) -> (n: usize)
        requires
            self.wf(),
        ensures
            n as int == self.elems().len(),
    {
        self.cells.len() - 1
    }

    /// Whether the spine has reached the end of the list, without forcing.
    fn has_terminated(&self) -> (b: bool)
        requires
            self.wf(),
        ensures
            b == self.terminated(),
    {
        let last = self.cells.len() - 1;
        match self.cells[last].try_get() {
            Some(c) => match c {
                Content::Terminated => true,
                Content::Evaluated(_) => false,
            },
            None => false,
        }
    }

    /// Read an already materialized element.
    fn read_elem(&self, i: usize) -> (v: T)
        requires
            self.wf(),
            (i as int) < self.elems().len(),
        ensures
            v == self.elems()[i as int],
    {
        match self.cells[i].try_get() {
            Some(c) => match c {
                Content::Evaluated(v) => *v,
                Content::Terminated => vstd::pervasive::unreached(),
            },
            None => vstd::pervasive::unreached(),
        }
    }

    /// The element at `index`, forcing cells along the spine as far as
    /// needed: the cached element when `index` lies within the list, nothing
    /// when the list terminates at or before `index`. On a settled list the
    /// answer is a function of the list alone.
    pub fn get(&mut self, index: usize) -> (r: Option<T>)
        requires
            old(self).wf(),
        ensures
            Self::get_post(*old(self), *final(self), index as int, r),
            old(self).is_settled() ==> r == Self::settled_index(*old(self), index as int),
            r is Some ==> final(self).elems().len() <= old(self).elems().len()
                || final(self).elems().len() == index + 1,
    {
        let ghost orig = *self;
        proof {
            Self::lemma_evolves_refl(orig);
        }
        while self.materialized_len() <= index && !self.has_terminated()
            invariant
                self.wf(),
                orig.wf(),
                orig.evolves_to(*self),
                (index as int) < orig.elems().len() ==> *self == orig,
                self.elems().len() <= index + 1 || *self == orig,
            decreases index + 1 - self.elems().len(), (if self.terminated() {
                0int
            } else {
                1int
            }),
        {
            let ghost mid = *self;
            self.force_once();
            proof {
                Self::lemma_evolves_trans(orig, mid, *self);
            }
        }
        proof {
            if self.terminated() {
                assert(self.full() =~= self.elems());
            }
        }
        if index < self.materialized_len() {
            Some(self.read_elem(index))
        } else {
            None
        }
    }

    /// Subscript-style access: the element at `index`, which the contract
    /// keeps within the list, so that the out-of-range hard failure of a
    /// plain subscript can never be reached from verified code.
    pub fn index(&mut self, index: usize) -> (v: T)
        requires
            old(self).wf(),
            old(self).is_settled(),
            (index as int) < old(self).full().len(),
        ensures
            old(self).evolves_to(*final(self)),
            v == old(self).full()[index as int],
    {
        match self.get(index) {
            Some(v) => v,
            None => vstd::pervasive::unreached(),
        }
    }

    /// The number of elements, forcing every cell along the spine until
    /// termination. The list must be settled — already terminated, or backed
    /// by its finite source — since counting an unterminated cyclic list
    /// would force it without bound.
    pub fn len(&mut self) -> (n: usize)
        requires
            old(self).wf(),
            old(self).is_settled(),
        ensures
            old(self).evolves_to(*final(self)),
            final(self).terminated(),
            final(self).elems() == old(self).full(),
            n as int == old(self).full().len(),
    {
        let ghost orig = *self;
        proof {
            Self::lemma_evolves_refl(orig);
        }
        while !self.has_terminated()
            invariant
                self.wf(),
                orig.wf(),
                orig.is_settled(),
                orig.evolves_to(*self),
            decreases self.remaining().len(), (if self.terminated() {
                0int
            } else {
                1int
            }),
        {
            let ghost mid = *self;
            self.force_once();
            proof {
                Self::lemma_evolves_trans(orig, mid, *self);
            }
        }
        proof {
            assert(self.full() =~= self.elems());
        }
        self.materialized_len()
    }

    /// Whether the list is empty: forces the head cell only, consuming no
    /// further nodes.
    pub fn is_empty(&mut self) -> (b: bool)
        requires
            old(self).wf(),
        ensures
            old(self).evolves_to(*final(self)),
            b == (final(self).terminated() && final(self).elems().len() == 0),
            !b ==> final(self).elems().len() >= 1,
            old(self).is_settled() ==> b == (old(self).full().len() == 0),
            old(self).elems().len() >= 1 ==> *final(self) == *old(self),
            final(self).elems().len() <= 1 || *final(self) == *old(self),
    {
        proof {
            Self::lemma_evolves_refl(*old(self));
        }
        if self.materialized_len() >= 1 {
            return false;
        }
        if self.has_terminated() {
            proof {
                assert(old(self).full() =~= old(self).elems());
            }
            return true;
        }
        self.force_once();
        proof {
            if self.terminated() {
                assert(self.full() =~= self.elems());
            }
        }
        self.materialized_len() == 0
    }

    /// A traversal of this list from the head. The traversal owns its list;
    /// clone the list first to keep an independent handle.
    pub fn iter(self) -> (it: Iter<T, F>)
        requires
            self.wf(),
        ensures
            it.list == self,
            it.pos == 0,
            it.wf(),
    {
        Iter { list: self, pos: 0 }
    }

    /// Structural sharing, head: after `longer = base.prepend(x)`, reading
    /// position 0 of `longer` gives `x`.
    pub proof fn lemma_prepend_head(longer: Self, base: Self, x: T, lp: Self, r: Option<T>)
        requires
            Self::is_prepend_of(longer, base, x),
            Self::get_post(longer, lp, 0, r),
        ensures
            r == Some(x),
    {
        assert(longer.elems().len() >= 1);
        assert(lp == longer);
        assert(longer.elems()[0] == x);
    }

    /// Structural sharing, tail: after `longer = base.prepend(x)`, reading
    /// position `i + 1` of `longer` answers exactly what reading position
    /// `i` of the untouched base list answers — on any settled list, and on
    /// any list for positions that are already materialized.
    pub proof fn lemma_prepend_shift(
        longer: Self,
        base: Self,
        x: T,
        lp: Self,
        bp: Self,
        i: int,
        rl: Option<T>,
        rb: Option<T>,
    )
        requires
            Self::is_prepend_of(longer, base, x),
            base.is_settled() || i + 1 < longer.elems().len(),
            0 <= i,
            Self::get_post(longer, lp, i + 1, rl),
            Self::get_post(base, bp, i, rb),
        ensures
            rl == rb,
    {
        if base.is_settled() {
            assert(longer.is_settled());
            if lp.terminated() {
                assert(lp.full() =~= lp.elems());
            }
            if bp.terminated() {
                assert(bp.full() =~= bp.elems());
            }
            assert(lp.full() == seq![x] + base.full());
            assert(lp.full().len() == 1 + base.full().len());
            assert(bp.full() == base.full());
            match rl {
                Some(v) => {
                    assert(i + 1 < lp.elems().len());
                    assert(lp.full().len() == lp.elems().len() + lp.remaining().len());
                    assert(i + 1 < lp.full().len());
                    assert(v == lp.full()[i + 1]);
                    assert(i < base.full().len());
                    assert(v == (seq![x] + base.full())[i + 1]);
                    assert(v == base.full()[i]);
                    match rb {
                        Some(w) => {
                            assert(w == bp.full()[i]);
                        },
                        None => {
                            assert(bp.terminated() && bp.elems().len() <= i);
                            assert(base.full().len() <= i);
                            assert(false);
                        },
                    }
                },
                None => {
                    assert(lp.terminated() && lp.elems().len() <= i + 1);
                    assert(base.full().len() <= i);
                    match rb {
                        Some(w) => {
                            assert(i < bp.elems().len());
                            assert(i < base.full().len());
                            assert(false);
                        },
                        None => {},
                    }
                },
            }
        } else {
            assert(lp == longer);
            assert(rl == Some(longer.elems()[i + 1]));
            assert(i < base.elems().len());
            assert(bp == base);
            assert(rb == Some(base.elems()[i]));
            assert(longer.elems()[i + 1] == (seq![x] + base.elems())[i + 1]);
        }
    }
}

impl<T: Copy, F> Default for LazyList<T, F> where F: Fn(Vec<T>) -> Option<T> {
    /// The empty list.
    fn default() -> (r: Self)
        ensures
            r.wf(),
            r.terminated(),
            r.elems() == Seq::<T>::empty(),
    {
        Self::new()
    }
}

/// A forward traversal of a list: starts at the head and forces one cell per
/// step. After the end of the list is reached it keeps answering nothing.
pub struct Iter<T, F = fn(Vec<T>) -> Option<T>> {
    pub list: LazyList<T, F>,
    pub pos: usize,
}

impl<T: Copy, F> Iter<T, F> where F: Fn(Vec<T>) -> Option<T> {
    pub open spec fn wf(self) -> bool {
        &&& self.list.wf()
        &&& self.pos as int <= self.list.elems().len()
    }

    /// The next element, if the list holds one at the cursor.
    pub fn next(&mut self) -> (r: Option<T>)
        requires
            old(self).wf(),
        ensures
            final(self).wf(),
            LazyList::get_post(old(self).list, final(self).list, old(self).pos as int, r),
            r is Some ==> final(self).pos as int == old(self).pos as int + 1,
            r is None ==> final(self).pos == old(self).pos && final(self).list.terminated(),
            old(self).list.is_settled() ==> r == LazyList::settled_index(
                old(self).list,
                old(self).pos as int,
            ),
    {
        let r = self.list.get(self.pos);
        if r.is_some() {
            let bound = self.list.materialized_len();
            proof {
                assert((old(self).pos as int) < bound as int);
            }
            self.pos = self.pos + 1;
        }
        r
    }

    /// Finite round-trip, one step at a time: on a list over a finite
    /// source, a step of the traversal answers exactly the source element at
    /// the cursor — in order, one per step — and nothing once the source is
    /// exhausted; the rest of the traversal still faces the same source, so
    /// the whole traversal yields the source, in order and completely.
    pub proof fn lemma_round_trip_step(pre: Self, post: Self, src: Seq<T>, r: Option<T>)
        requires
            pre.wf(),
            pre.list.is_settled(),
            pre.list.full() == src,
            LazyList::get_post(pre.list, post.list, pre.pos as int, r),
            r == LazyList::settled_index(pre.list, pre.pos as int),
            r is Some ==> post.pos as int == pre.pos as int + 1,
            r is None ==> post.pos == pre.pos,
        ensures
            (pre.pos as int) < src.len() ==> r == Some(src[pre.pos as int]) && post.pos as int
                == pre.pos as int + 1,
            (pre.pos as int) >= src.len() ==> r == None::<T> && post.pos == pre.pos,
            post.list.is_settled(),
            post.list.full() == src,
    {
    }
}

/// Reentrancy safety: the view handed to a step function while it produces
/// position `k` of its chain holds exactly the chain's elements before `k`.
/// The position under production — relative index `k - origin` — lies beyond
/// the view's end, so a read of it finds nothing instead of reentering the
/// producer.
pub proof fn lemma_reentrant_view_absent<T>(view: Seq<T>, elems: Seq<T>, origin: int, k: int)
    requires
        0 <= origin <= k <= elems.len(),
        view == elems.subrange(origin, k),
    ensures
        view.len() == k - origin,
        forall|j: int| 0 <= j < view.len() ==> #[trigger] view[j] == elems[origin + j],
{
}

} // verus!
