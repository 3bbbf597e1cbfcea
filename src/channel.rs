use vstd::prelude::*;

use crate::id::ID;
use crate::receiver::ActiveReceiver;
use crate::schema::{declared, locates, spec_identity, Schema, Target};
use crate::sender::EventSender;
use crate::service::{views, Service, ServiceView};

verus! {

/// A handle on one endpoint of an owner, from which its senders and receivers are made.
pub struct Channel {
    target: Target,
}

impl Channel {
    pub closed spec fn target(&self) -> Target {
        self.target
    }

    pub fn new(target: Target) -> (r: Channel)
        ensures
            r.target() == target,
    {
        Channel { target }
    }

    /// The identity of the endpoint.
    pub fn id(&self, schema: &Schema) -> (r: ID)
        requires
            declared(schema@, self.target()),
        ensures
            r@ == spec_identity(schema@, self.target()),
    {
        schema.identity(self.target)
    }

    /// A sender that publishes on behalf of the endpoint.
    pub fn sender(&self, schema: &Schema) -> (r: EventSender)
        requires
            declared(schema@, self.target()),
        ensures
            r@ == spec_identity(schema@, self.target()),
    {
        schema.sender(self.target)
    }

    /// Subscribes to the endpoint's cell in `table`, the first one that its identity
    /// locates; the table must hold such a cell.
    pub fn receiver<T>(&self, schema: &Schema, table: &mut Vec<Service<T>>) -> (r: ActiveReceiver<T>)
        requires
            declared(schema@, self.target()),
            exists|p: int| 0 <= p < old(table)@.len() && locates(#[trigger] old(table)@[p]@, spec_identity(schema@, self.target())),
            forall|q: int| 0 <= q < old(table)@.len() ==> (#[trigger] old(table)@[q])@.state.receivers() < usize::MAX,
        ensures
            exists|p: int|
                0 <= p < old(table)@.len() && locates(old(table)@[p]@, spec_identity(schema@, self.target())) && (forall|q: int|
                    0 <= q < p ==> !locates(#[trigger] old(table)@[q]@, spec_identity(schema@, self.target())))
                    && r.endpoint() == old(table)@[p]@.id && views(final(table)@) == views(old(table)@).update(
                    p,
                    ServiceView { state: old(table)@[p]@.state.spec_incr(), ..old(table)@[p]@ },
                ),
    {
        let id = self.id(schema);
        ActiveReceiver::by_target(table, &id).unwrap()
    }
}

/// Handles on every slot of an array endpoint.
pub struct Channels {
    slots: Vec<Channel>,
}

impl Channels {
    pub closed spec fn targets(&self) -> Seq<Target> {
        self.slots@.map_values(|c: Channel| c.target())
    }

    /// Handles on slots `0..size` of the endpoint with numeric id `id`.
    pub fn new(id: usize, size: usize) -> (r: Channels)
        ensures
            r.targets().len() == size,
            forall|i: int| 0 <= i < size ==> #[trigger] r.targets()[i] == Target::Endpoint(id, Some(i as usize)),
    {
        let mut slots: Vec<Channel> = Vec::new();
        let mut i: usize = 0;
        while i < size
            invariant
                i <= size,
                slots@.len() == i,
                forall|j: int| 0 <= j < i ==> (#[trigger] slots@[j]).target() == Target::Endpoint(id, Some(j as usize)),
            decreases size - i,
        {
            slots.push(Channel::new(Target::Endpoint(id, Some(i))));
            i = i + 1;
        }
        Channels { slots }
    }

    pub fn len(&self) -> (r: usize)
        ensures
            r == self.targets().len(),
    {
        self.slots.len()
    }

    /// The handle on slot `index`, if there is such a slot.
    pub fn get(&self, index: usize) -> (r: Option<&Channel>)
        ensures
            index < self.targets().len() ==> r is Some && r->Some_0.target() == self.targets()[index as int],
            index >= self.targets().len() ==> r is None,
    {
        if index < self.slots.len() {
            Some(&self.slots[index])
        } else {
            None
        }
    }

    /// A sender on behalf of slot `index`, if there is such a slot.
    pub fn sender(&self, index: usize, schema: &Schema) -> (r: Option<EventSender>)
        requires
            forall|i: int| 0 <= i < self.targets().len() ==> declared(schema@, #[trigger] self.targets()[i]),
        ensures
            index < self.targets().len() ==> r is Some && r->Some_0@ == spec_identity(schema@, self.targets()[index as int]),
            index >= self.targets().len() ==> r is None,
    {
        match self.get(index) {
            Some(c) => Some(c.sender(schema)),
            None => None,
        }
    }
}

} // verus!
