use vstd::prelude::*;
use crate::effector::Effector;
use crate::error::SimError;
use crate::store::{write_result, StoreView};

verus! {

/// Typed handles for a component's int, float and string state: a component struct can
/// list its state as fields of these types and write it through an `Effector`.
pub struct IntValue {}

pub struct FloatValue {}

pub struct StringValue {}

/// `after` is `before` with only its store changed, as `Effector::set_*` leaves it.
pub open spec fn only_store_changed<P>(before: Effector<P>, after: Effector<P>) -> bool {
    &&& after.logs == before.logs
    &&& after.events == before.events
    &&& after.exit == before.exit
    &&& after.removed == before.removed
}

impl IntValue {
    /// Writes the value under `name` (normally the field's name) through the effector.
    pub fn set_value<P>(&self, effector: &mut Effector<P>, name: &str, value: i64) -> (r: Result<(), SimError>)
        requires
            old(effector).wf(),
        ensures
            final(effector).wf(),
            only_store_changed(*old(effector), *final(effector)),
            match write_result(old(effector).store@.ints, old(effector).store@.edition, name@, value, 0) {
                None => r is Err && final(effector).store@ == old(effector).store@,
                Some((m, e)) => r is Ok && final(effector).store@ == (StoreView { edition: e, ints: m, ..old(effector).store@ }),
            },
    {
        effector.set_int(name, value)
    }
}

impl FloatValue {
    /// Writes the value (the bit pattern of an `f64`) under `name` through the effector.
    pub fn set_value<P>(&self, effector: &mut Effector<P>, name: &str, value: u64) -> (r: Result<(), SimError>)
        requires
            old(effector).wf(),
        ensures
            final(effector).wf(),
            only_store_changed(*old(effector), *final(effector)),
            match write_result(old(effector).store@.floats, old(effector).store@.edition, name@, value, 0) {
                None => r is Err && final(effector).store@ == old(effector).store@,
                Some((m, e)) => r is Ok && final(effector).store@ == (StoreView { edition: e, floats: m, ..old(effector).store@ }),
            },
    {
        effector.set_float(name, value)
    }
}

impl StringValue {
    /// Writes the value under `name` through the effector.
    pub fn set_value<P>(&self, effector: &mut Effector<P>, name: &str, value: &str) -> (r: Result<(), SimError>)
        requires
            old(effector).wf(),
        ensures
            final(effector).wf(),
            only_store_changed(*old(effector), *final(effector)),
            match write_result(old(effector).store@.texts, old(effector).store@.edition, name@, value@, 0) {
                None => r is Err && final(effector).store@ == old(effector).store@,
                Some((m, e)) => r is Ok && final(effector).store@ == (StoreView { edition: e, texts: m, ..old(effector).store@ }),
            },
    {
        effector.set_string(name, value)
    }
}

} // verus!
