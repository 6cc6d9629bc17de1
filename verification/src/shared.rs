//! A capability that serves one caller at a time, shared by many callers.

use std::collections::VecDeque;
use std::task::Waker;
use vstd::prelude::*;

verus! {

/// The handle by which a suspended task is scheduled again. Nothing is known
/// of what it holds.
#[verifier::external_type_specification]
#[verifier::external_body]
pub struct ExWaker(std::task::Waker);

/// The outcome of a non-blocking attempt.
#[derive(Debug, PartialEq, Eq)]
pub enum Poll<T> {
    Ready(T),
    Pending,
}

/// A capability that is asked whether it can take a request, and then given
/// one. A positive answer holds until the very next call.
pub trait Service<Request> {
    type Response;

    type Error;

    /// What a submitted request resolves through.
    type Future;

    /// What asking for readiness does: it may change the capability from
    /// `self` to `after`, and answers `out`. Says nothing unless an
    /// implementation says more.
    open spec fn polled(&self, after: &Self, out: Poll<Result<(), Self::Error>>) -> bool {
        true
    }

    /// What submitting `request` does: it may change the capability from
    /// `self` to `after`, and hands out `future`. Says nothing unless an
    /// implementation says more.
    open spec fn called(&self, after: &Self, request: Request, future: Self::Future) -> bool {
        true
    }

    /// Whether the capability can take a request now. When it cannot, it
    /// arranges for `waker` to be woken once it may.
    fn poll_ready(&mut self, waker: &Waker) -> (out: Poll<Result<(), Self::Error>>)
        ensures
            old(self).polled(final(self), out),
    ;

    /// Submits a request.
    fn call(&mut self, request: Request) -> (future: Self::Future)
        ensures
            old(self).called(final(self), request, future),
    ;
}

/// A capability that reports how loaded it is.
pub trait Load {
    type Metric;

    /// What the capability may report as its load in this state.
    open spec fn reports(&self, metric: Self::Metric) -> bool {
        true
    }

    fn load(&self) -> (metric: Self::Metric)
        ensures
            self.reports(metric),
    ;
}

/// The state of a shared capability, as contracts see it.
pub struct Access<S> {
    /// The capability, while nobody holds it.
    pub inner: Option<S>,
    /// Tickets of the callers that wait for it, first come first.
    pub queue: Seq<u64>,
    /// The number of tickets handed out so far.
    pub issued: u64,
    /// The wakers of the tasks that asked in vain whether the capability is
    /// ready, in the order in which they asked.
    pub parked: Seq<Waker>,
}

impl<S> Access<S> {
    /// Tickets in the queue were handed out, in the order they stand in, and
    /// no task is parked while the capability is available.
    pub open spec fn wf(self) -> bool {
        &&& forall|i: int| 0 <= i < self.queue.len() ==> #[trigger] self.queue[i] < self.issued
        &&& forall|i: int, j: int|
            0 <= i < j < self.queue.len() ==> #[trigger] self.queue[i] < #[trigger] self.queue[j]
        &&& self.available() ==> self.parked.len() == 0
    }

    /// Nobody holds the capability.
    pub open spec fn free(self) -> bool {
        self.inner is Some
    }

    /// A caller without a ticket gets the capability: it is free and nobody
    /// waits for it.
    pub open spec fn available(self) -> bool {
        self.free() && self.queue.len() == 0
    }

    /// The holder of `ticket` gets the capability: it is free and the ticket
    /// is first in line.
    pub open spec fn admits(self, ticket: u64) -> bool {
        self.free() && self.queue.len() > 0 && self.queue[0] == ticket
    }

    /// No ticket is left to hand out.
    pub open spec fn exhausted(self) -> bool {
        self.issued == u64::MAX
    }

    /// The waiter to wake: the first in line, while the capability is free.
    pub open spec fn next_in_line(self) -> Option<u64> {
        if self.free() && self.queue.len() > 0 {
            Some(self.queue[0])
        } else {
            None
        }
    }

    /// After the capability was handed to a caller without a ticket.
    pub open spec fn taken(self) -> Access<S> {
        Access { inner: None, ..self }
    }

    /// After a caller joined the queue.
    pub open spec fn enqueued(self) -> Access<S> {
        Access {
            queue: self.queue.push(self.issued),
            issued: (self.issued + 1) as u64,
            ..self
        }
    }

    /// After the capability was handed to the first in line.
    pub open spec fn served(self) -> Access<S> {
        Access { inner: None, queue: self.queue.skip(1), ..self }
    }

    /// After the holder gave the capability back: the parked wakers were
    /// handed out to be woken.
    pub open spec fn restored(self, inner: S) -> Access<S> {
        Access { inner: Some(inner), parked: Seq::empty(), ..self }
    }

    /// After a task asked in vain whether the capability is ready: its waker
    /// is parked until the capability is given back.
    pub open spec fn registered(self, waker: Waker) -> Access<S> {
        Access { parked: self.parked.push(waker), ..self }
    }

    /// The wakers that are handed out when the holder of `ticket` gives up
    /// waiting: all that are parked where that may have made a free
    /// capability available, none otherwise.
    pub open spec fn roused(self, ticket: u64) -> Seq<Waker> {
        if self.queue.contains(ticket) && self.free() {
            self.parked
        } else {
            Seq::empty()
        }
    }

    /// After the holder of `ticket` gave up waiting.
    pub open spec fn without(self, ticket: u64) -> Access<S> {
        if self.queue.contains(ticket) {
            Access {
                queue: self.queue.remove(self.queue.index_of(ticket)),
                parked: if self.free() {
                    Seq::empty()
                } else {
                    self.parked
                },
                ..self
            }
        } else {
            self
        }
    }
}

/// The state after the first `inners.len()` waiters were served in turn,
/// each giving back the capability as the next of `inners`.
pub open spec fn after_turns<S>(st: Access<S>, inners: Seq<S>) -> Access<S>
    decreases inners.len(),
{
    if inners.len() == 0 {
        st
    } else {
        after_turns(st.served().restored(inners[0]), inners.skip(1))
    }
}

/// At most one caller holds the capability: it is handed out only while it
/// is free, and once handed out nobody else gets it until it is given back.
pub proof fn lemma_one_holder<S>(st: Access<S>, ticket: u64, other: u64)
    ensures
        !st.free() ==> !st.available() && !st.admits(ticket),
        st.available() ==> !st.taken().free(),
        st.admits(ticket) ==> !st.served().free(),
        st.admits(ticket) && st.admits(other) ==> ticket == other,
        !(st.available() && st.admits(ticket)),
{
}

/// The waker of a task that asked in vain stays parked, behind those parked
/// before it, while the capability is taken, waited for or handed to a
/// waiter; it is among the wakers handed out when the capability is given
/// back, after which none is parked.
pub proof fn lemma_parked_until_given_back<S>(st: Access<S>, waker: Waker, inner: S)
    ensures
        st.registered(waker).parked == st.parked.push(waker),
        st.registered(waker).parked.contains(waker),
        st.registered(waker).taken().parked == st.parked.push(waker),
        st.registered(waker).enqueued().parked == st.parked.push(waker),
        st.registered(waker).served().parked == st.parked.push(waker),
        st.registered(waker).restored(inner).parked.len() == 0,
{
    assert(st.parked.push(waker)[st.parked.len() as int] == waker);
}

/// Nobody waits forever: once the waiters ahead of it have had their turns,
/// the waiter at position `inners.len()` is the one admitted, whatever was
/// given back in between.
pub proof fn lemma_first_come_first_served<S>(st: Access<S>, inners: Seq<S>)
    requires
        st.wf(),
        st.free(),
        inners.len() < st.queue.len(),
    ensures
        after_turns(st, inners).wf(),
        after_turns(st, inners).admits(st.queue[inners.len() as int]),
        after_turns(st, inners).queue == st.queue.skip(inners.len() as int),
        after_turns(st, inners).issued == st.issued,
    decreases inners.len(),
{
    if inners.len() > 0 {
        let step = st.served().restored(inners[0]);
        assert forall|i: int| 0 <= i < step.queue.len() implies #[trigger] step.queue[i]
            == st.queue[i + 1] by {}
        lemma_first_come_first_served(step, inners.skip(1));
        assert(step.queue.skip(inners.len() - 1) =~= st.queue.skip(inners.len() as int));
    } else {
        assert(st.queue.skip(0) =~= st.queue);
    }
}

/// Giving up a ticket takes that ticket out of the queue and leaves the
/// other waiters in their order; the parked wakers are either all handed out
/// or all kept.
pub proof fn lemma_without<S>(st: Access<S>, ticket: u64)
    requires
        st.wf(),
    ensures
        st.without(ticket).wf(),
        !st.without(ticket).queue.contains(ticket),
        forall|t: u64| t != ticket ==> (#[trigger] st.without(ticket).queue.contains(t)
            <==> st.queue.contains(t)),
        st.without(ticket).inner == st.inner,
        st.roused(ticket) + st.without(ticket).parked == st.parked,
{
    if st.queue.contains(ticket) {
        let at = st.queue.index_of(ticket);
        let after = st.without(ticket).queue;
        assert forall|j: int| 0 <= j < after.len() implies #[trigger] after[j] == st.queue[if j
            < at {
            j
        } else {
            j + 1
        }] by {}
        assert forall|j: int, k: int| 0 <= j < k < after.len() implies #[trigger] after[j]
            < #[trigger] after[k] by {
            let a = if j < at { j } else { j + 1 };
            let b = if k < at { k } else { k + 1 };
            assert(st.queue[a] < st.queue[b]);
        }
        if after.contains(ticket) {
            let j = choose|j: int| 0 <= j < after.len() && after[j] == ticket;
            let a = if j < at { j } else { j + 1 };
            if a < at {
                assert(st.queue[a] < st.queue[at]);
            } else {
                assert(st.queue[at] < st.queue[a]);
            }
        }
        assert forall|t: u64| t != ticket implies (#[trigger] after.contains(t)
            <==> st.queue.contains(t)) by {
            if after.contains(t) {
                let j = choose|j: int| 0 <= j < after.len() && after[j] == t;
                let a = if j < at { j } else { j + 1 };
                assert(st.queue[a] == t);
            }
            if st.queue.contains(t) {
                let a = choose|a: int| 0 <= a < st.queue.len() && st.queue[a] == t;
                let j = if a < at { a } else { a - 1 };
                assert(after[j] == t);
            }
        }
    }
    assert(st.roused(ticket) + st.without(ticket).parked =~= st.parked);
}

/// What a caller that asks for the capability gets.
#[derive(Debug, PartialEq, Eq)]
pub enum Admission<S> {
    /// The capability itself, to be given back with `release`.
    Granted(S),
    /// A ticket to wait with.
    Queued(u64),
    /// Nothing: the capability is in use and no ticket is left. The caller
    /// asks again later.
    Refused,
}

/// Whom the owner of the adapter wakes after the capability was given back
/// or a waiter gave up.
#[derive(Debug)]
pub struct Roused {
    /// The ticket of the waiter whose turn it is.
    pub next: Option<u64>,
    /// The wakers of the tasks that asked in vain whether the capability is
    /// ready.
    pub parked: Vec<Waker>,
}

/// What became of a request.
#[derive(Debug)]
pub enum Submission<F, Request> {
    /// It was submitted and the capability was given back at once. Holds
    /// what the request resolves through and whom to wake.
    Submitted(F, Roused),
    /// The capability is in use: the request is handed back with the ticket
    /// to try again with.
    Suspended(u64, Request),
    /// The capability is in use and no ticket is left: the request is handed
    /// back, to be tried again later.
    Refused(Request),
}

/// A capability behind exclusive access. Its holder owns the capability
/// itself, so no two callers can use it at once.
pub struct SharedService<S> {
    slot: Option<S>,
    queue: VecDeque<u64>,
    issued: u64,
    parked: Vec<Waker>,
}

impl<S> View for SharedService<S> {
    type V = Access<S>;

    closed spec fn view(&self) -> Access<S> {
        Access {
            inner: self.slot,
            queue: self.queue@,
            issued: self.issued,
            parked: self.parked@,
        }
    }
}

impl<S> SharedService<S> {
    /// The invariant of the adapter.
    pub open spec fn wf(&self) -> bool {
        self@.wf()
    }

    /// Wraps a capability: it is free, nobody waits and nobody is parked.
    pub fn new(inner: S) -> (shared: SharedService<S>)
        ensures
            shared.wf(),
            shared@ == (Access {
                inner: Some(inner),
                queue: Seq::empty(),
                issued: 0,
                parked: Seq::empty(),
            }),
    {
        SharedService { slot: Some(inner), queue: VecDeque::new(), issued: 0, parked: Vec::new() }
    }

    /// Whether nobody holds the capability.
    pub fn is_free(&self) -> (free: bool)
        ensures
            free == self@.free(),
    {
        self.slot.is_some()
    }

    /// The number of callers that wait.
    pub fn waiting(&self) -> (count: usize)
        ensures
            count == self@.queue.len(),
    {
        self.queue.len()
    }

    /// The number of tasks whose wakers are parked.
    pub fn parked(&self) -> (count: usize)
        ensures
            count == self@.parked.len(),
    {
        self.parked.len()
    }

    /// The number of tickets handed out so far.
    pub fn issued(&self) -> (count: u64)
        ensures
            count == self@.issued,
    {
        self.issued
    }

    /// Takes the parked wakers out, to be handed to the owner.
    fn unpark(&mut self) -> (parked: Vec<Waker>)
        ensures
            parked@ == old(self)@.parked,
            final(self)@ == (Access { parked: Seq::empty(), ..old(self)@ }),
    {
        let mut parked: Vec<Waker> = Vec::new();
        std::mem::swap(&mut self.parked, &mut parked);
        parked
    }

    /// Takes the capability if it is available, and never waits.
    pub fn try_acquire(&mut self) -> (got: Option<S>)
        requires
            old(self).wf(),
        ensures
            final(self).wf(),
            old(self)@.available() ==> got == old(self)@.inner && final(self)@ == old(self)@.taken(),
            !old(self)@.available() ==> got is None && final(self)@ == old(self)@,
    {
        if self.queue.len() == 0 {
            self.slot.take()
        } else {
            None
        }
    }

    /// Takes the capability if it is available; otherwise joins the queue,
    /// as long as a ticket is left.
    pub fn acquire(&mut self) -> (admission: Admission<S>)
        requires
            old(self).wf(),
        ensures
            final(self).wf(),
            old(self)@.available() ==> old(self)@.inner == Some(admission->Granted_0)
                && admission is Granted && final(self)@ == old(self)@.taken(),
            !old(self)@.available() && !old(self)@.exhausted() ==> admission == Admission::<
                S,
            >::Queued(old(self)@.issued) && final(self)@ == old(self)@.enqueued(),
            !old(self)@.available() && old(self)@.exhausted() ==> admission == Admission::<
                S,
            >::Refused && final(self)@ == old(self)@,
    {
        if self.queue.len() == 0 {
            if let Some(inner) = self.slot.take() {
                return Admission::Granted(inner);
            }
        }
        if self.issued == u64::MAX {
            return Admission::Refused;
        }
        let ticket = self.issued;
        self.queue.push_back(ticket);
        self.issued = self.issued + 1;
        Admission::Queued(ticket)
    }

    /// Takes the capability if `ticket` is admitted, and never waits.
    pub fn claim(&mut self, ticket: u64) -> (got: Option<S>)
        requires
            old(self).wf(),
        ensures
            final(self).wf(),
            old(self)@.admits(ticket) ==> got == old(self)@.inner && final(self)@ == old(self)@.served(),
            !old(self)@.admits(ticket) ==> got is None && final(self)@ == old(self)@,
    {
        if self.slot.is_some() && self.queue.len() > 0 && self.queue[0] == ticket {
            let _ = self.queue.pop_front();
            proof {
                assert(old(self)@.queue.subrange(1, old(self)@.queue.len() as int) =~= old(self)@.queue.skip(1));
            }
            self.slot.take()
        } else {
            None
        }
    }

    /// Gives up waiting with `ticket` and says whom to wake: the new first
    /// in line, if the ticket was first and the capability is free; and,
    /// where the capability is free, the tasks parked so far, since it may
    /// have become available to them.
    pub fn abandon(&mut self, ticket: u64) -> (wake: Roused)
        requires
            old(self).wf(),
        ensures
            final(self).wf(),
            final(self)@ == old(self)@.without(ticket),
            wake.next == if old(self)@.admits(ticket) {
                final(self)@.next_in_line()
            } else {
                None
            },
            wake.parked@ == old(self)@.roused(ticket),
    {
        let mut i: usize = 0;
        while i < self.queue.len()
            invariant
                *self == *old(self),
                self.wf(),
                i <= self.queue.len(),
                forall|j: int| 0 <= j < i ==> self.queue@[j] != ticket,
            decreases self.queue.len() - i,
        {
            if self.queue[i] == ticket {
                proof {
                    let at = old(self)@.queue.index_of(ticket);
                    assert(old(self)@.queue[i as int] == ticket);
                    assert(old(self)@.queue.contains(ticket));
                    assert(at == i) by {
                        if at < i {
                            assert(old(self)@.queue[at] < old(self)@.queue[i as int]);
                        }
                        if i < at {
                            assert(old(self)@.queue[i as int] < old(self)@.queue[at]);
                        }
                    }
                    lemma_without(old(self)@, ticket);
                }
                let _ = self.queue.remove(i);
                let first = i == 0;
                if self.slot.is_some() {
                    let parked = self.unpark();
                    let next = if first && self.queue.len() > 0 {
                        Some(self.queue[0])
                    } else {
                        None
                    };
                    return Roused { next, parked };
                }
                return Roused { next: None, parked: Vec::new() };
            }
            i = i + 1;
        }
        Roused { next: None, parked: Vec::new() }
    }

    /// Gives the capability back and says whom to wake: the first in line
    /// and every task parked so far.
    pub fn release(&mut self, inner: S) -> (wake: Roused)
        requires
            old(self).wf(),
            !old(self)@.free(),
        ensures
            final(self).wf(),
            final(self)@ == old(self)@.restored(inner),
            wake.next == final(self)@.next_in_line(),
            wake.parked@ == old(self)@.parked,
    {
        self.slot = Some(inner);
        let parked = self.unpark();
        let next = if self.queue.len() > 0 {
            Some(self.queue[0])
        } else {
            None
        };
        Roused { next, parked }
    }
}

impl<S> SharedService<S> {
    /// Asks the capability whether it can take a request, without ever
    /// waiting for access. Where the capability is in use or promised to a
    /// waiter, the answer is `Pending` and the caller's waker is parked: it
    /// is handed out, to be woken, when the capability is given back. Access
    /// is given back before returning.
    pub fn poll_ready<Request>(&mut self, waker: Waker) -> (out: Poll<Result<(), S::Error>>) where
        S: Service<Request>,

        requires
            old(self).wf(),
        ensures
            final(self).wf(),
            final(self)@.free() == old(self)@.free(),
            final(self)@.queue == old(self)@.queue,
            final(self)@.issued == old(self)@.issued,
            old(self)@.available() ==> final(self)@.free() && final(self)@.parked.len() == 0
                && old(self)@.inner->0.polled(&final(self)@.inner->0, out),
            !old(self)@.available() ==> out is Pending && final(self)@ == old(self)@.registered(
                waker,
            ),
    {
        match self.try_acquire() {
            Some(inner) => {
                let mut inner = inner;
                let out = inner.poll_ready(&waker);
                let _ = self.release(inner);
                out
            },
            None => {
                self.parked.push(waker);
                Poll::Pending
            },
        }
    }

    /// Submits a request if the capability is available, holding access only
    /// until the request is submitted; otherwise joins the queue, as long as
    /// a ticket is left, and hands the request back.
    pub fn call<Request>(&mut self, request: Request) -> (out: Submission<S::Future, Request>) where
        S: Service<Request>,

        requires
            old(self).wf(),
        ensures
            final(self).wf(),
            old(self)@.available() ==> out is Submitted && out->Submitted_1.next is None
                && out->Submitted_1.parked@.len() == 0 && final(self)@.free() && final(self)@.queue
                == old(self)@.queue && final(self)@.issued == old(self)@.issued && final(self)@.parked.len() == 0 && old(self)@.inner->0.called(
                &final(self)@.inner->0,
                request,
                out->Submitted_0,
            ),
            !old(self)@.available() && !old(self)@.exhausted() ==> out is Suspended
                && out->Suspended_0 == old(self)@.issued && out->Suspended_1 == request
                && final(self)@ == old(self)@.enqueued(),
            !old(self)@.available() && old(self)@.exhausted() ==> out is Refused
                && out->Refused_0 == request && final(self)@ == old(self)@,
    {
        match self.acquire() {
            Admission::Granted(inner) => {
                let mut inner = inner;
                let future = inner.call(request);
                let wake = self.release(inner);
                Submission::Submitted(future, wake)
            },
            Admission::Queued(ticket) => Submission::Suspended(ticket, request),
            Admission::Refused => Submission::Refused(request),
        }
    }

    /// Submits the request of a waiter whose turn has come, holding access
    /// only until the request is submitted, and says whom to wake; hands the
    /// request back if it is not this waiter's turn.
    pub fn resume<Request>(&mut self, ticket: u64, request: Request) -> (out: Submission<
        S::Future,
        Request,
    >) where S: Service<Request>
        requires
            old(self).wf(),
        ensures
            final(self).wf(),
            old(self)@.admits(ticket) ==> out is Submitted && final(self)@.free() && final(self)@.queue
                == old(self)@.queue.skip(1) && final(self)@.issued == old(self)@.issued
                && out->Submitted_1.next == final(self)@.next_in_line()
                && out->Submitted_1.parked@ == old(self)@.parked && final(self)@.parked.len() == 0
                && old(self)@.inner->0.called(&final(self)@.inner->0, request, out->Submitted_0),
            !old(self)@.admits(ticket) ==> out is Suspended && out->Suspended_0 == ticket
                && out->Suspended_1 == request && final(self)@ == old(self)@,
    {
        match self.claim(ticket) {
            Some(inner) => {
                let mut inner = inner;
                let future = inner.call(request);
                let wake = self.release(inner);
                Submission::Submitted(future, wake)
            },
            None => Submission::Suspended(ticket, request),
        }
    }

    /// The load of the capability, while nobody holds it.
    pub fn load(&self) -> (out: Option<S::Metric>) where S: Load
        ensures
            out is Some == self@.free(),
            out is Some ==> self@.inner->0.reports(out->0),
    {
        match &self.slot {
            Some(inner) => Some(inner.load()),
            None => None,
        }
    }
}

/// Makes shared adapters.
#[derive(Debug)]
pub struct SharedLayer;

impl SharedLayer {
    /// Wraps a capability, as `SharedService::new` does.
    pub fn layer<S>(&self, inner: S) -> (shared: SharedService<S>)
        ensures
            shared.wf(),
            shared@ == (Access {
                inner: Some(inner),
                queue: Seq::empty(),
                issued: 0,
                parked: Seq::empty(),
            }),
    {
        SharedService::new(inner)
    }
}

impl Default for SharedLayer {
    fn default() -> (layer: SharedLayer)
        ensures
            layer == SharedLayer,
    {
        SharedLayer
    }
}

} // verus!
