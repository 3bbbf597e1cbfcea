use vstd::prelude::*;

use core::marker::PhantomData;

use crate::backend::{share_receiver, try_recv, RecvError};
use crate::id::{IdView, ID};
use crate::schema::{locate, locates, spec_target_of, Schema, Target};
use crate::service::{drained, opt_view, views, Service, ServiceView, State};

verus! {

/// A live subscription on one endpoint: while it exists the endpoint counts it
/// as a receiver, and it takes messages from the endpoint's channel.
#[verifier::reject_recursive_types(T)]
pub struct ActiveReceiver<T> {
    endpoint: Option<ID>,
    rx: async_channel::Receiver<T>,
}

/// A subscription that no longer counts as a receiver but remembers its endpoint.
#[verifier::reject_recursive_types(T)]
pub struct InactiveReceiver<T> {
    endpoint: Option<ID>,
    payload: PhantomData<T>,
}

impl<T> ActiveReceiver<T> {
    /// The identity of the endpoint that this receiver listens on.
    pub closed spec fn endpoint(&self) -> Option<IdView> {
        opt_view(self.endpoint)
    }

    /// Subscribes to `service`: one more receiver is counted.
    pub fn new(service: &mut Service<T>) -> (r: ActiveReceiver<T>)
        requires
            old(service)@.state.receivers() < usize::MAX,
        ensures
            final(service)@ == (ServiceView { state: old(service)@.state.spec_incr(), ..old(service)@ }),
            final(service).sent() == old(service).sent(),
            final(service).takes() == old(service).takes(),
            r.endpoint() == old(service)@.id,
    {
        service.add_receiver();
        let endpoint = match service.id() {
            Some(i) => Some(i.clone()),
            None => None,
        };
        ActiveReceiver { endpoint, rx: share_receiver(service.channel_receiver()) }
    }

    /// Subscribes to the first endpoint of `table` that `target` locates, if any.
    pub fn by_target(table: &mut Vec<Service<T>>, target: &ID) -> (r: Option<ActiveReceiver<T>>)
        requires
            forall|q: int| 0 <= q < old(table)@.len() ==> (#[trigger] old(table)@[q])@.state.receivers() < usize::MAX,
        ensures
            match r {
                Some(rx) => exists|p: int|
                    0 <= p < old(table)@.len() && locates(old(table)@[p]@, target@) && (forall|q: int|
                        0 <= q < p ==> !locates(#[trigger] old(table)@[q]@, target@)) && rx.endpoint()
                        == old(table)@[p]@.id && views(final(table)@) == views(old(table)@).update(
                        p,
                        ServiceView { state: old(table)@[p]@.state.spec_incr(), ..old(table)@[p]@ },
                    ),
                None => (forall|q: int| 0 <= q < old(table)@.len() ==> !locates(#[trigger] old(table)@[q]@, target@))
                    && final(table)@ == old(table)@,
            },
    {
        match locate(table, target) {
            Some(p) => {
                let ghost before = table@;
                let rx = ActiveReceiver::new(&mut table[p]);
                proof {
                    assert(views(table@) =~= views(before).update(
                        p as int,
                        ServiceView { state: before[p as int]@.state.spec_incr(), ..before[p as int]@ },
                    ));
                }
                Some(rx)
            },
            None => None,
        }
    }

    /// The target of the endpoint that this receiver listens on.
    pub fn target(&self, schema: &Schema) -> (r: Target)
        requires
            self.endpoint() is Some,
        ensures
            r == spec_target_of(schema@, self.endpoint()->Some_0),
    {
        match &self.endpoint {
            Some(i) => schema.target_of(i),
            None => Target::Global,
        }
    }

    /// The channel's receive handle, for waiting on a message.
    pub fn channel(&self) -> &async_channel::Receiver<T> {
        &self.rx
    }

    /// Takes the oldest queued message without waiting.
    pub fn try_recv(&self) -> Result<T, RecvError> {
        try_recv(&self.rx)
    }

    pub fn id(&self) -> (r: Option<&ID>)
        ensures
            match r {
                Some(i) => self.endpoint() == Some(i@),
                None => self.endpoint() is None,
            },
    {
        match &self.endpoint {
            Some(i) => Some(i),
            None => None,
        }
    }

    /// Ends the subscription on `service`, the endpoint it was made on: one receiver
    /// fewer is counted, and when none is left the queued messages are discarded,
    /// so that a later subscription never sees them.
    pub fn release(self, service: &mut Service<T>)
        requires
            old(service)@.id == self.endpoint(),
            old(service)@.state is Active,
        ensures
            final(service)@ == (ServiceView { state: old(service)@.state.spec_decr(), ..old(service)@ }),
            final(service).sent() == old(service).sent(),
            final(service).takes().len() >= old(service).takes().len(),
            final(service).takes().subrange(0, old(service).takes().len() as int) == old(service).takes(),
            old(service)@.state.spec_decr() is Inactive ==> drained(
                final(service).takes().subrange(old(service).takes().len() as int, final(service).takes().len() as int),
                old(service)@.capacity,
            ),
            old(service)@.state.spec_decr() is Active ==> final(service).takes() == old(service).takes(),
    {
        let last = service.remove_receiver();
        if last {
            service.discard_queued();
        }
    }

    /// Stops counting as a receiver of `service` while keeping the endpoint.
    pub fn deactivate(self, service: &mut Service<T>) -> (r: InactiveReceiver<T>)
        requires
            old(service)@.id == self.endpoint(),
            old(service)@.state is Active,
        ensures
            final(service)@ == (ServiceView { state: old(service)@.state.spec_decr(), ..old(service)@ }),
            r.endpoint() == self.endpoint(),
            final(service).sent() == old(service).sent(),
            final(service).takes().len() >= old(service).takes().len(),
            final(service).takes().subrange(0, old(service).takes().len() as int) == old(service).takes(),
            old(service)@.state.spec_decr() is Inactive ==> drained(
                final(service).takes().subrange(old(service).takes().len() as int, final(service).takes().len() as int),
                old(service)@.capacity,
            ),
            old(service)@.state.spec_decr() is Active ==> final(service).takes() == old(service).takes(),
    {
        let endpoint = match &self.endpoint {
            Some(i) => Some(i.clone()),
            None => None,
        };
        self.release(service);
        InactiveReceiver { endpoint, payload: PhantomData }
    }

    /// A second, independent subscription on the same endpoint.
    pub fn duplicate(&self, service: &mut Service<T>) -> (r: ActiveReceiver<T>)
        requires
            old(service)@.id == self.endpoint(),
            old(service)@.state.receivers() < usize::MAX,
        ensures
            final(service)@ == (ServiceView { state: old(service)@.state.spec_incr(), ..old(service)@ }),
            final(service).sent() == old(service).sent(),
            final(service).takes() == old(service).takes(),
            r.endpoint() == self.endpoint(),
    {
        ActiveReceiver::new(service)
    }
}

impl<T> InactiveReceiver<T> {
    pub closed spec fn endpoint(&self) -> Option<IdView> {
        opt_view(self.endpoint)
    }

    /// Subscribes again to `service`, the endpoint it was made on.
    pub fn activate(self, service: &mut Service<T>) -> (r: ActiveReceiver<T>)
        requires
            old(service)@.id == self.endpoint(),
            old(service)@.state.receivers() < usize::MAX,
        ensures
            final(service)@ == (ServiceView { state: old(service)@.state.spec_incr(), ..old(service)@ }),
            final(service).sent() == old(service).sent(),
            final(service).takes() == old(service).takes(),
            r.endpoint() == self.endpoint(),
    {
        ActiveReceiver::new(service)
    }
}

/// The state after a live receiver is deactivated and activated again, `k` times over.
pub open spec fn cycles(s: State, k: nat) -> State
    decreases k,
{
    if k == 0 {
        s
    } else {
        cycles(s, (k - 1) as nat).spec_decr().spec_incr()
    }
}

/// Giving up a subscription and taking it up again, any number of times, restores
/// the endpoint's state.
pub proof fn lemma_deactivate_activate(s: State, k: nat)
    requires
        s.wf(),
        s is Active,
    ensures
        cycles(s, k) == s,
    decreases k,
{
    if k > 0 {
        lemma_deactivate_activate(s, (k - 1) as nat);
    }
}

} // verus!
