use vstd::prelude::*;
use vstd::string::*;
use std::marker::PhantomData;
use crate::component::ComponentID;
use crate::effector::Effector;
use crate::error::SimError;
use crate::event::{event_is, Event};
use crate::sim_time::{Delay, Secs};

verus! {

/// The receiving end of a connection: a component and an optional tag that events sent
/// through the connection carry as their `port_name`. `T` is the payload type.
pub struct InPort<T> {
    target_id: ComponentID,
    target_port: String,
    dummy: PhantomData<T>,
}

/// The sending end of a connection. Unconnected while `remote_id` is `NO_COMPONENT`.
pub struct OutPort<T> {
    remote_id: ComponentID,
    remote_port: String,
    dummy: PhantomData<T>,
}

impl<T> InPort<T> {
    pub closed spec fn id(&self) -> ComponentID {
        self.target_id
    }

    pub closed spec fn tag(&self) -> Seq<char> {
        self.target_port@
    }

    /// A port with no component, for components that forward a nested component's port.
    pub fn empty() -> (r: InPort<T>)
        ensures
            r.id().is_none(),
            r.tag().len() == 0,
    {
        InPort { target_id: ComponentID::none(), target_port: String::new(), dummy: PhantomData }
    }

    pub fn new(id: ComponentID) -> (r: InPort<T>)
        ensures
            r.id() == id,
            r.tag().len() == 0,
    {
        InPort { target_id: id, target_port: String::new(), dummy: PhantomData }
    }

    /// Events arriving through this port carry `port` as their `port_name`, so that a
    /// component can tell its inputs apart.
    pub fn with_port_name(id: ComponentID, port: &str) -> (r: InPort<T>)
        ensures
            r.id() == id,
            r.tag() == port@,
    {
        InPort { target_id: id, target_port: String::from_str(port), dummy: PhantomData }
    }

    pub fn target(&self) -> (r: ComponentID)
        ensures
            r == self.id(),
    {
        self.target_id
    }
}

/// What sending through `out` adds to an effector: on success, one event to the
/// connected component carrying the connection's tag.
pub open spec fn sent<T>(
    out: &OutPort<T>,
    before: Effector<T>,
    after: Effector<T>,
    r: Result<(), SimError>,
    name: Seq<char>,
    payload: Option<T>,
    delay: Delay,
) -> bool {
    &&& out.remote().is_none() ==> r == Err::<(), SimError>(SimError::DisconnectedPort)
    &&& !out.remote().is_none() && name.len() == 0 ==> (r matches Err(SimError::InvalidName { name: n }) && n@ == name)
    &&& r is Err ==> after.events == before.events
    &&& r is Ok ==> {
        &&& !out.remote().is_none() && name.len() > 0
        &&& after.events@.len() == before.events@.len() + 1
        &&& after.events@.drop_last() == before.events@
        &&& after.events@.last().0 == out.remote()
        &&& event_is(after.events@.last().1, name, out.tag(), payload)
        &&& after.events@.last().2 == delay
    }
    &&& !out.remote().is_none() && name.len() > 0 ==> r is Ok
    &&& after.logs == before.logs
    &&& after.store == before.store
    &&& after.exit == before.exit
    &&& after.removed == before.removed
}

/// An `OutPort` connected to `port` (as `connect_to` leaves it) sends its events to
/// `port`'s component, tagged with `port`'s tag.
pub proof fn law_connected_send_tag<T>(
    port: &InPort<T>,
    out: &OutPort<T>,
    before: Effector<T>,
    after: Effector<T>,
    r: Result<(), SimError>,
    name: Seq<char>,
    payload: Option<T>,
    delay: Delay,
)
    requires
        !port.id().is_none(),
        out.remote() == port.id(),
        out.tag() == port.tag(),
        name.len() > 0,
        sent(out, before, after, r, name, payload, delay),
    ensures
        r is Ok,
        after.events@.last().0 == port.id(),
        after.events@.last().1.port_name@ == port.tag(),
{
}

impl<T> OutPort<T> {
    /// The component of the `InPort` this port is connected to.
    pub closed spec fn remote(&self) -> ComponentID {
        self.remote_id
    }

    /// The tag of that `InPort`, copied into each event sent.
    pub closed spec fn tag(&self) -> Seq<char> {
        self.remote_port@
    }

    pub fn remote_id(&self) -> (r: ComponentID)
        ensures
            r == self.remote(),
    {
        self.remote_id
    }

    pub fn remote_port(&self) -> (r: &String)
        ensures
            r@ == self.tag(),
    {
        &self.remote_port
    }

    pub fn new() -> (r: OutPort<T>)
        ensures
            r.remote().is_none(),
            r.tag().len() == 0,
    {
        OutPort { remote_id: ComponentID::none(), remote_port: String::new(), dummy: PhantomData }
    }

    /// Connects this port to `port`: what is sent from now on goes to its component,
    /// tagged with its tag.
    pub fn connect_to(&mut self, port: &InPort<T>)
        requires
            !port.id().is_none(),
        ensures
            final(self).remote() == port.id(),
            final(self).tag() == port.tag(),
    {
        self.remote_id = port.target_id;
        self.remote_port = port.target_port.clone();
    }

    pub fn is_connected(&self) -> (r: bool)
        ensures
            r == !self.remote().is_none(),
    {
        !self.remote_id.is_no_component()
    }

    fn send_event(&self, effector: &mut Effector<T>, name: &str, payload: Option<T>, delay: Delay) -> (r: Result<(), SimError>)
        requires
            delay matches Delay::After(s) ==> s.numerator() > 0,
        ensures
            sent(self, *old(effector), *final(effector), r, name@, payload, delay),
    {
        if self.remote_id.is_no_component() {
            return Err(SimError::DisconnectedPort);
        }
        if name.is_empty() {
            return Err(SimError::InvalidName { name: String::from_str(name) });
        }
        let event = Event { name: String::from_str(name), port_name: self.remote_port.clone(), payload };
        effector.events.push((self.remote_id, event, delay));
        proof {
            assert(effector.events@.drop_last() =~= old(effector).events@);
        }
        Ok(())
    }

    /// Sends an event with a payload as soon as possible.
    pub fn send_payload(&self, effector: &mut Effector<T>, name: &str, payload: T) -> (r: Result<(), SimError>)
        ensures
            sent(self, *old(effector), *final(effector), r, name@, Some(payload), Delay::Immediate),
    {
        self.send_event(effector, name, Some(payload), Delay::Immediate)
    }

    /// Sends an event with a payload after `secs` seconds.
    pub fn send_payload_after_secs(&self, effector: &mut Effector<T>, name: &str, secs: Secs, payload: T) -> (r: Result<(), SimError>)
        requires
            secs.numerator() > 0,
        ensures
            sent(self, *old(effector), *final(effector), r, name@, Some(payload), Delay::After(secs)),
    {
        self.send_event(effector, name, Some(payload), Delay::After(secs))
    }

    /// Sends an event without payload as soon as possible.
    pub fn send(&self, effector: &mut Effector<T>, name: &str) -> (r: Result<(), SimError>)
        ensures
            sent(self, *old(effector), *final(effector), r, name@, None, Delay::Immediate),
    {
        self.send_event(effector, name, None, Delay::Immediate)
    }

    /// Sends an event without payload after `secs` seconds.
    pub fn send_after_secs(&self, effector: &mut Effector<T>, name: &str, secs: Secs) -> (r: Result<(), SimError>)
        requires
            secs.numerator() > 0,
        ensures
            sent(self, *old(effector), *final(effector), r, name@, None, Delay::After(secs)),
    {
        self.send_event(effector, name, None, Delay::After(secs))
    }
}

} // verus!
