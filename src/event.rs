use vstd::prelude::*;
use vstd::string::*;
use crate::error::SimError;

verus! {

/// A named message delivered to a component at some time. `P` is the type of the
/// payloads that the simulation's events carry (typically an enum with one variant per
/// kind of payload).
pub struct Event<P> {
    /// What components look at to decide what to do.
    pub name: String,
    /// For an event sent through an `OutPort`, the tag of the `InPort` it arrives on.
    pub port_name: String,
    /// Optional extra information.
    pub payload: Option<P>,
}

/// `e` is named `name`, arrived on port `port` and carries `payload`.
pub open spec fn event_is<P>(e: Event<P>, name: Seq<char>, port: Seq<char>, payload: Option<P>) -> bool {
    e.name@ == name && e.port_name@ == port && e.payload == payload
}

/// The result of building an event: empty names are refused.
pub open spec fn built<P>(r: Result<Event<P>, SimError>, name: Seq<char>, port: Seq<char>, payload: Option<P>) -> bool {
    &&& name.len() == 0 ==> (r matches Err(SimError::InvalidName { name: n }) && n@ == name)
    &&& name.len() > 0 ==> (r matches Ok(e) && event_is(e, name, port, payload))
}

impl<P> Event<P> {
    fn build(name: &str, port: String, payload: Option<P>) -> (r: Result<Event<P>, SimError>)
        ensures
            built(r, name@, port@, payload),
    {
        if name.is_empty() {
            return Err(SimError::InvalidName { name: String::from_str(name) });
        }
        Ok(Event { name: String::from_str(name), port_name: port, payload })
    }

    pub fn new(name: &str) -> (r: Result<Event<P>, SimError>)
        ensures
            built(r, name@, seq![], None),
    {
        Event::build(name, String::new(), None)
    }

    pub fn with_payload(name: &str, payload: P) -> (r: Result<Event<P>, SimError>)
        ensures
            built(r, name@, seq![], Some(payload)),
    {
        Event::build(name, String::new(), Some(payload))
    }

    pub fn with_box(name: &str, payload: Box<P>) -> (r: Result<Event<P>, SimError>)
        ensures
            built(r, name@, seq![], Some(*payload)),
    {
        Event::build(name, String::new(), Some(*payload))
    }

    pub fn with_port(name: &str, port: &str) -> (r: Result<Event<P>, SimError>)
        ensures
            built(r, name@, port@, None),
    {
        Event::build(name, String::from_str(port), None)
    }

    pub fn with_port_payload(name: &str, port: &str, payload: P) -> (r: Result<Event<P>, SimError>)
        ensures
            built(r, name@, port@, Some(payload)),
    {
        Event::build(name, String::from_str(port), Some(payload))
    }

    pub fn with_port_box(name: &str, port: &str, payload: Box<P>) -> (r: Result<Event<P>, SimError>)
        ensures
            built(r, name@, port@, Some(*payload)),
    {
        Event::build(name, String::from_str(port), Some(*payload))
    }

    /// Borrows the payload; `message` says what the caller expected, for the error.
    pub fn payload_ref(&self, message: &str) -> (r: Result<&P, SimError>)
        ensures
            self.payload matches Some(p) ==> r == Ok::<&P, SimError>(&p),
            self.payload is None ==> (r matches Err(SimError::Payload { event: e, message: m }) && e@
                == self.name@ && m@ == message@),
    {
        match &self.payload {
            Some(p) => Ok(p),
            None => Err(
                SimError::Payload { event: self.name.clone(), message: String::from_str(message) },
            ),
        }
    }

    /// Moves the payload out of the event.
    pub fn take_payload(&mut self) -> (r: Result<Box<P>, SimError>)
        ensures
            final(self).name == old(self).name,
            final(self).port_name == old(self).port_name,
            final(self).payload is None,
            old(self).payload matches Some(p) ==> (r matches Ok(b) && *b == p),
            old(self).payload is None ==> (r matches Err(SimError::Payload { event: e, message: m }) && e@
                == old(self).name@ && m@.len() == 0),
    {
        match self.payload.take() {
            Some(p) => Ok(Box::new(p)),
            None => Err(SimError::Payload { event: self.name.clone(), message: String::new() }),
        }
    }
}

} // verus!
