use vstd::prelude::*;
use vstd::string::*;
use crate::component::ComponentID;
use crate::error::SimError;
use crate::event::Event;
use crate::logging::LogLevel;
use crate::sim_time::{Delay, Secs, Time};
use crate::store::{write_result, Store, StoreView};

verus! {

/// One log line recorded by a component.
#[derive(Debug)]
pub struct LogRecord {
    pub level: LogLevel,
    pub message: String,
}

/// What a component hands back after processing one event: the side effects it wants.
/// The kernel applies the effectors of an instant together, once every component
/// active at that instant has answered.
pub struct Effector<P> {
    /// Log records, in the order they were made.
    pub logs: Vec<LogRecord>,
    /// Events to schedule: target, event, and when.
    pub events: Vec<(ComponentID, Event<P>, Delay)>,
    /// Values to write, under keys relative to the component's path.
    pub store: Store,
    /// Ask the simulation to stop once the current instant is done.
    pub exit: bool,
    /// Ask for the component and all its descendants to be removed.
    pub removed: bool,
}

impl<P> Effector<P> {
    pub open spec fn wf(&self) -> bool {
        self.store.wf()
    }

    pub fn new() -> (r: Effector<P>)
        ensures
            r.wf(),
            r.logs@.len() == 0,
            r.events@.len() == 0,
            r.store@.ints.is_empty(),
            r.store@.floats.is_empty(),
            r.store@.texts.is_empty(),
            r.store@.edition == 0,
            !r.exit,
            !r.removed,
    {
        Effector { logs: Vec::new(), events: Vec::new(), store: Store::new(), exit: false, removed: false }
    }

    /// Whether the effector asks for nothing at all.
    pub open spec fn is_empty(&self) -> bool {
        &&& self.logs@.len() == 0
        &&& self.events@.len() == 0
        &&& self.store@.ints.is_empty()
        &&& self.store@.floats.is_empty()
        &&& self.store@.texts.is_empty()
        &&& !self.exit
        &&& !self.removed
    }

    pub fn log(&mut self, level: LogLevel, message: &str)
        ensures
            final(self).logs@.len() == old(self).logs@.len() + 1,
            forall|i: int| 0 <= i < old(self).logs@.len() ==> final(self).logs@[i] == old(self).logs@[i],
            final(self).logs@.last().level == level,
            final(self).logs@.last().message@ == message@,
            final(self).events == old(self).events,
            final(self).store == old(self).store,
            final(self).exit == old(self).exit,
            final(self).removed == old(self).removed,
    {
        self.logs.push(LogRecord { level, message: String::from_str(message) });
    }

    /// Sends `event` to `to` after `secs` seconds (at least one tick).
    pub fn schedule_after_secs(&mut self, event: Event<P>, to: ComponentID, secs: Secs)
        requires
            !to.is_none(),
            secs.numerator() > 0,
        ensures
            final(self).events@ == old(self).events@.push((to, event, Delay::After(secs))),
            final(self).logs == old(self).logs,
            final(self).store == old(self).store,
            final(self).exit == old(self).exit,
            final(self).removed == old(self).removed,
    {
        self.events.push((to, event, Delay::After(secs)));
    }

    /// Sends `event` to `to` as soon as possible: one tick after the current instant, so
    /// that all the effects of an instant still apply together.
    pub fn schedule_immediately(&mut self, event: Event<P>, to: ComponentID)
        requires
            !to.is_none(),
        ensures
            final(self).events@ == old(self).events@.push((to, event, Delay::Immediate)),
            final(self).logs == old(self).logs,
            final(self).store == old(self).store,
            final(self).exit == old(self).exit,
            final(self).removed == old(self).removed,
    {
        self.events.push((to, event, Delay::Immediate));
    }

    /// Stops the simulation once every event of the current instant has been processed.
    pub fn exit(&mut self)
        ensures
            final(self).exit,
            final(self).logs == old(self).logs,
            final(self).events == old(self).events,
            final(self).store == old(self).store,
            final(self).removed == old(self).removed,
    {
        self.exit = true;
    }

    /// Removes the component and its descendants at the end of the current instant.
    /// They keep their ids, receive no more events, and get `removed = 1` in the store.
    pub fn remove(&mut self)
        ensures
            final(self).removed,
            final(self).logs == old(self).logs,
            final(self).events == old(self).events,
            final(self).store == old(self).store,
            final(self).exit == old(self).exit,
    {
        self.removed = true;
    }
    /// Records a write of `value` under `name`; the kernel puts the component's path in
    /// front of the name when it applies the effector.
    pub fn set_int(&mut self, name: &str, value: i64) -> (r: Result<(), SimError>)
        requires
            old(self).wf(),
        ensures
            final(self).wf(),
            match write_result(old(self).store@.ints, old(self).store@.edition, name@, value, 0) {
                None => {
                    &&& final(self).store@ == old(self).store@
                    &&& name@.len() == 0 ==> r == Err::<(), SimError>(SimError::InvalidKey)
                    &&& name@.len() > 0 ==> (r matches Err(SimError::AlreadySet { key: k }) && k@ == name@)
                },
                Some((m, e)) => {
                    &&& r is Ok
                    &&& final(self).store@ == (StoreView { edition: e, ints: m, ..old(self).store@ })
                },
            },
            final(self).logs == old(self).logs,
            final(self).events == old(self).events,
            final(self).exit == old(self).exit,
            final(self).removed == old(self).removed,
    {
        self.store.set_int(name, value, Time(0))
    }

    /// Records a write of `value` under `name`; the kernel puts the component's path in
    /// front of the name when it applies the effector.
    /// `value` is the bit pattern of an `f64`.
    pub fn set_float(&mut self, name: &str, value: u64) -> (r: Result<(), SimError>)
        requires
            old(self).wf(),
        ensures
            final(self).wf(),
            match write_result(old(self).store@.floats, old(self).store@.edition, name@, value, 0) {
                None => {
                    &&& final(self).store@ == old(self).store@
                    &&& name@.len() == 0 ==> r == Err::<(), SimError>(SimError::InvalidKey)
                    &&& name@.len() > 0 ==> (r matches Err(SimError::AlreadySet { key: k }) && k@ == name@)
                },
                Some((m, e)) => {
                    &&& r is Ok
                    &&& final(self).store@ == (StoreView { edition: e, floats: m, ..old(self).store@ })
                },
            },
            final(self).logs == old(self).logs,
            final(self).events == old(self).events,
            final(self).exit == old(self).exit,
            final(self).removed == old(self).removed,
    {
        self.store.set_float(name, value, Time(0))
    }

    /// Records a write of `value` under `name`; the kernel puts the component's path in
    /// front of the name when it applies the effector.
    pub fn set_string(&mut self, name: &str, value: &str) -> (r: Result<(), SimError>)
        requires
            old(self).wf(),
        ensures
            final(self).wf(),
            match write_result(old(self).store@.texts, old(self).store@.edition, name@, value@, 0) {
                None => {
                    &&& final(self).store@ == old(self).store@
                    &&& name@.len() == 0 ==> r == Err::<(), SimError>(SimError::InvalidKey)
                    &&& name@.len() > 0 ==> (r matches Err(SimError::AlreadySet { key: k }) && k@ == name@)
                },
                Some((m, e)) => {
                    &&& r is Ok
                    &&& final(self).store@ == (StoreView { edition: e, texts: m, ..old(self).store@ })
                },
            },
            final(self).logs == old(self).logs,
            final(self).events == old(self).events,
            final(self).exit == old(self).exit,
            final(self).removed == old(self).removed,
    {
        self.store.set_string(name, value, Time(0))
    }
}

} // verus!
