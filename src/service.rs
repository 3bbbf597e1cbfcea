use vstd::prelude::*;

use crate::backend::{bounded, try_recv, try_send, RecvError, SendError};
use crate::id::{IdView, ID};

verus! {

/// How many live receivers an endpoint has.
#[derive(Debug, Clone, Copy, PartialEq, Eq, Structural)]
pub enum State {
    Inactive,
    Active(usize),
}

impl State {
    /// A state that the protocol can reach: an active endpoint counts at least one receiver.
    pub open spec fn wf(self) -> bool {
        match self {
            State::Inactive => true,
            State::Active(n) => n >= 1,
        }
    }

    pub open spec fn receivers(self) -> nat {
        match self {
            State::Inactive => 0,
            State::Active(n) => n as nat,
        }
    }

    /// The state after one more receiver appears.
    pub open spec fn spec_incr(self) -> State {
        match self {
            State::Inactive => State::Active(1),
            State::Active(n) => State::Active((n + 1) as usize),
        }
    }

    /// The state after one receiver goes away.
    pub open spec fn spec_decr(self) -> State {
        match self {
            State::Active(n) => if n > 1 {
                State::Active((n - 1) as usize)
            } else {
                State::Inactive
            },
            State::Inactive => State::Inactive,
        }
    }

    pub(crate) fn incr(&mut self)
        requires
            old(self).receivers() < usize::MAX,
        ensures
            *final(self) == old(self).spec_incr(),
    {
        *self = match *self {
            State::Inactive => State::Active(1),
            State::Active(count) => State::Active(count + 1),
        };
    }

    /// Returns whether the endpoint has no receiver left.
    pub(crate) fn decr(&mut self) -> (r: bool)
        ensures
            *final(self) == old(self).spec_decr(),
            r == (*final(self) is Inactive),
    {
        let next = match *self {
            State::Active(count) => if count > 1 {
                State::Active(count - 1)
            } else {
                State::Inactive
            },
            State::Inactive => State::Inactive,
        };
        *self = next;
        match next {
            State::Inactive => true,
            State::Active(_) => false,
        }
    }

    pub fn is_active(&self) -> (r: bool)
        ensures
            r == (*self is Active),
    {
        match self {
            State::Active(_) => true,
            State::Inactive => false,
        }
    }

    pub fn is_inactive(&self) -> (r: bool)
        ensures
            r == (*self is Inactive),
    {
        match self {
            State::Inactive => true,
            State::Active(_) => false,
        }
    }

    pub fn count_receivers(&self) -> (r: usize)
        ensures
            r as nat == self.receivers(),
    {
        match self {
            State::Inactive => 0,
            State::Active(count) => *count,
        }
    }
}

/// Applying `spec_incr` `k` times.
pub open spec fn incr_times(s: State, k: nat) -> State
    decreases k,
{
    if k == 0 {
        s
    } else {
        incr_times(s, (k - 1) as nat).spec_incr()
    }
}

/// Applying `spec_decr` `k` times.
pub open spec fn decr_times(s: State, k: nat) -> State
    decreases k,
{
    if k == 0 {
        s
    } else {
        decr_times(s, (k - 1) as nat).spec_decr()
    }
}

/// Receivers that appear one after the other and then go away, in whatever order,
/// leave the endpoint inactive after the last one, and it counts one fewer at each
/// step before, never going below zero.
pub proof fn lemma_receivers_come_and_go(k: nat)
    requires
        k <= usize::MAX,
    ensures
        k > 0 ==> incr_times(State::Inactive, k) == State::Active(k as usize),
        forall|j: nat| j < k ==> #[trigger] decr_times(incr_times(State::Inactive, k), j) == State::Active((k - j) as usize),
        decr_times(incr_times(State::Inactive, k), k) == State::Inactive,
{
    lemma_incr_times(k);
    if k > 0 {
        assert forall|j: nat| j <= k implies #[trigger] decr_times(State::Active(k as usize), j) == if j < k {
            State::Active((k - j) as usize)
        } else {
            State::Inactive
        } by {
            lemma_decr_times(k, j);
        }
    }
}

proof fn lemma_incr_times(k: nat)
    requires
        k <= usize::MAX,
    ensures
        k > 0 ==> incr_times(State::Inactive, k) == State::Active(k as usize),
        k == 0 ==> incr_times(State::Inactive, k) == State::Inactive,
    decreases k,
{
    if k > 0 {
        lemma_incr_times((k - 1) as nat);
    }
}

proof fn lemma_decr_times(k: nat, j: nat)
    requires
        1 <= k <= usize::MAX,
        j <= k,
    ensures
        decr_times(State::Active(k as usize), j) == if j < k {
            State::Active((k - j) as usize)
        } else {
            State::Inactive
        },
    decreases j,
{
    if j > 0 {
        lemma_decr_times(k, (j - 1) as nat);
    }
}

/// Why a delivery from a sender failed.
#[derive(Debug)]
pub enum Error<T> {
    /// No endpoint matched the request: none is declared, or every match is inactive.
    NotInitialized,
    /// The delivery to the endpoint with this numeric id was refused.
    Send(usize, SendError<T>),
}

/// What a service is, apart from the messages queued in its channel.
pub struct ServiceView {
    pub id: Option<IdView>,
    pub capacity: usize,
    pub state: State,
}

pub open spec fn opt_view(id: Option<ID>) -> Option<IdView> {
    match id {
        Some(i) => Some(i@),
        None => None,
    }
}

/// The views of the endpoints in `v`.
pub open spec fn views<T>(v: Seq<Service<T>>) -> Seq<ServiceView> {
    v.map_values(|s: Service<T>| s@)
}

/// One non-blocking delivery into an endpoint's channel: the message handed over
/// and what the channel answered.
pub struct Delivery<T> {
    pub message: T,
    pub outcome: Result<(), SendError<T>>,
}

/// Whether `takes`, the answers of the receives made while emptying a channel of
/// capacity `cap`, stop at the first refused receive or after `cap` messages.
pub open spec fn drained(takes: Seq<bool>, cap: usize) -> bool {
    &&& takes.len() <= cap
    &&& forall|k: int| 0 <= k < takes.len() - 1 ==> #[trigger] takes[k]
    &&& (takes.len() == cap && forall|k: int| 0 <= k < takes.len() ==> #[trigger] takes[k]) || (takes.len() > 0
        && !takes.last())
}

/// One addressable endpoint: a bounded channel, its activation state and its identity.
/// It also keeps, as ghost history, every delivery made into its channel through it
/// and the answer of every receive made through it (`true` when a message was taken).
#[verifier::reject_recursive_types(T)]
pub struct Service<T> {
    id: Option<ID>,
    capacity: usize,
    state: State,
    tx: async_channel::Sender<T>,
    rx: async_channel::Receiver<T>,
    sent: Ghost<Seq<Delivery<T>>>,
    taken: Ghost<Seq<bool>>,
}

impl<T> View for Service<T> {
    type V = ServiceView;

    closed spec fn view(&self) -> ServiceView {
        ServiceView { id: opt_view(self.id), capacity: self.capacity, state: self.state }
    }
}

impl<T> Service<T> {
    /// An unbound, inactive endpoint whose channel queues at most `capacity` messages.
    pub fn new(capacity: usize) -> (r: Service<T>)
        requires
            capacity > 0,
        ensures
            r@ == (ServiceView { id: None, capacity, state: State::Inactive }),
    {
        let (tx, rx) = bounded(capacity);
        Service {
            id: None,
            capacity,
            state: State::Inactive,
            tx,
            rx,
            sent: Ghost(Seq::empty()),
            taken: Ghost(Seq::empty()),
        }
    }

    /// The deliveries made into this endpoint's channel through it, oldest first.
    pub closed spec fn sent(&self) -> Seq<Delivery<T>> {
        self.sent@
    }

    /// The answers of the receives made through this endpoint, oldest first.
    pub closed spec fn takes(&self) -> Seq<bool> {
        self.taken@
    }

    /// Hands `msg` to the channel without waiting; the delivery is recorded.
    pub(crate) fn deliver(&mut self, msg: T) -> (r: Result<(), SendError<T>>)
        ensures
            final(self)@ == old(self)@,
            final(self).sent() == old(self).sent().push(Delivery { message: msg, outcome: r }),
            final(self).takes() == old(self).takes(),
            r is Err ==> r->Err_0.message() == msg,
    {
        let ghost m = msg;
        let r = try_send(&self.tx, msg);
        self.sent = Ghost(self.sent@.push(Delivery { message: m, outcome: r }));
        r
    }

    /// Takes the oldest queued message without waiting; the answer is recorded.
    pub(crate) fn take(&mut self) -> (r: Result<T, RecvError>)
        ensures
            final(self)@ == old(self)@,
            final(self).sent() == old(self).sent(),
            final(self).takes() == old(self).takes().push(r is Ok),
    {
        let r = try_recv(&self.rx);
        self.taken = Ghost(self.taken@.push(r is Ok));
        r
    }

    /// Discards what is queued: receives until one is refused, at most `capacity` times.
    pub(crate) fn discard_queued(&mut self)
        ensures
            final(self)@ == old(self)@,
            final(self).sent() == old(self).sent(),
            final(self).takes().len() >= old(self).takes().len(),
            final(self).takes().subrange(0, old(self).takes().len() as int) == old(self).takes(),
            drained(final(self).takes().subrange(old(self).takes().len() as int, final(self).takes().len() as int), old(self)@.capacity),
    {
        let ghost start = self.takes();
        let cap = self.capacity;
        let mut i: usize = 0;
        while i < cap
            invariant
                i <= cap,
                cap == old(self)@.capacity,
                self@ == old(self)@,
                self.sent() == old(self).sent(),
                start == old(self).takes(),
                self.takes().len() == start.len() + i,
                self.takes().subrange(0, start.len() as int) == start,
                forall|k: int| start.len() <= k < self.takes().len() ==> #[trigger] self.takes()[k],
            decreases cap - i,
        {
            let ghost before = self.takes();
            match self.take() {
                Ok(_) => {
                    i = i + 1;
                    proof {
                        assert(self.takes().subrange(0, start.len() as int) =~= before.subrange(0, start.len() as int));
                    }
                },
                Err(_) => {
                    proof {
                        let new = self.takes().subrange(start.len() as int, self.takes().len() as int);
                        assert(self.takes().subrange(0, start.len() as int) =~= before.subrange(0, start.len() as int));
                        assert forall|k: int| 0 <= k < new.len() - 1 implies #[trigger] new[k] by {
                            assert(new[k] == self.takes()[start.len() + k]);
                        }
                        assert(new.last() == self.takes().last());
                    }
                    return;
                },
            }
        }
        proof {
            let new = self.takes().subrange(start.len() as int, self.takes().len() as int);
            assert forall|k: int| 0 <= k < new.len() implies #[trigger] new[k] by {
                assert(new[k] == self.takes()[start.len() + k]);
            }
        }
    }

    /// Binds the endpoint's identity; an endpoint is bound once.
    pub fn init(&mut self, id: ID)
        requires
            old(self)@.id is None,
        ensures
            final(self)@ == (ServiceView { id: Some(id@), ..old(self)@ }),
            final(self).sent() == old(self).sent(),
            final(self).takes() == old(self).takes(),
    {
        self.id = Some(id);
    }

    pub fn id(&self) -> (r: &Option<ID>)
        ensures
            opt_view(*r) == self@.id,
    {
        &self.id
    }

    pub fn capacity(&self) -> (r: usize)
        ensures
            r == self@.capacity,
    {
        self.capacity
    }

    pub fn state(&self) -> (r: State)
        ensures
            r == self@.state,
    {
        self.state
    }

    pub(crate) fn channel_receiver(&self) -> &async_channel::Receiver<T> {
        &self.rx
    }

    pub(crate) fn add_receiver(&mut self)
        requires
            old(self)@.state.receivers() < usize::MAX,
        ensures
            final(self)@ == (ServiceView { state: old(self)@.state.spec_incr(), ..old(self)@ }),
            final(self).sent() == old(self).sent(),
            final(self).takes() == old(self).takes(),
    {
        self.state.incr();
    }

    /// Returns whether the endpoint has no receiver left.
    pub(crate) fn remove_receiver(&mut self) -> (r: bool)
        ensures
            final(self)@ == (ServiceView { state: old(self)@.state.spec_decr(), ..old(self)@ }),
            r == (final(self)@.state is Inactive),
            final(self).sent() == old(self).sent(),
            final(self).takes() == old(self).takes(),
    {
        self.state.decr()
    }

    /// Binds slot `i` of `slots` to `base` with index `i`, for every slot.
    pub fn array(base: &ID, slots: &mut Vec<Service<T>>)
        requires
            forall|i: int| 0 <= i < old(slots).len() ==> (#[trigger] old(slots)[i])@.id is None,
        ensures
            final(slots).len() == old(slots).len(),
            forall|i: int|
                0 <= i < final(slots).len() ==> (#[trigger] final(slots)[i])@ == (ServiceView {
                    id: Some(IdView { index: Some(i as usize), ..base@ }),
                    ..old(slots)[i]@
                }),
    {
        let n = slots.len();
        let mut i: usize = 0;
        while i < n
            invariant
                0 <= i <= n,
                n == old(slots).len(),
                slots.len() == n,
                forall|j: int| 0 <= j < n ==> (#[trigger] old(slots)[j])@.id is None,
                forall|j: int| i <= j < n ==> #[trigger] slots[j] == old(slots)[j],
                forall|j: int|
                    0 <= j < i ==> (#[trigger] slots[j])@ == (ServiceView {
                        id: Some(IdView { index: Some(j as usize), ..base@ }),
                        ..old(slots)[j]@
                    }),
            decreases n - i,
        {
            let slot_id = base.with_slot(i);
            assert(slots[i as int] == old(slots)[i as int]);
            slots[i].init(slot_id);
            i = i + 1;
        }
    }
}

} // verus!
