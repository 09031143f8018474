use vstd::prelude::*;
use crate::component::ComponentID;
use crate::event::Event;
use crate::sim_time::Time;

verus! {

/// An event waiting for its delivery time.
pub struct ScheduledEntry<P> {
    pub time: Time,
    pub target: ComponentID,
    pub event: Event<P>,
}

/// Entries ordered from the latest time to the earliest, so that the earliest is last.
pub open spec fn latest_first<P>(s: Seq<ScheduledEntry<P>>) -> bool {
    forall|i: int, j: int| 0 <= i < j < s.len() ==> (#[trigger] s[i]).time.0 >= (#[trigger] s[j]).time.0
}

/// The pending events, earliest last. Among entries of equal time the one pushed first
/// leaves first, though nothing relies on an order within an instant.
pub struct Scheduler<P> {
    entries: Vec<ScheduledEntry<P>>,
}

impl<P> View for Scheduler<P> {
    type V = Seq<ScheduledEntry<P>>;

    closed spec fn view(&self) -> Seq<ScheduledEntry<P>> {
        self.entries@
    }
}

impl<P> Scheduler<P> {
    pub open spec fn wf(&self) -> bool {
        latest_first(self@)
    }

    pub fn new() -> (r: Scheduler<P>)
        ensures
            r.wf(),
            r@.len() == 0,
    {
        Scheduler { entries: Vec::new() }
    }

    /// The pending entries, earliest last.
    pub fn entries(&self) -> (r: &Vec<ScheduledEntry<P>>)
        ensures
            r@ == self@,
    {
        &self.entries
    }

    pub fn len(&self) -> (r: usize)
        ensures
            r == self@.len(),
    {
        self.entries.len()
    }

    pub fn is_empty(&self) -> (r: bool)
        ensures
            r == (self@.len() == 0),
    {
        self.entries.len() == 0
    }

    /// Adds an entry behind those of the same time.
    pub fn push(&mut self, entry: ScheduledEntry<P>)
        requires
            old(self).wf(),
        ensures
            final(self).wf(),
            exists|i: int| 0 <= i <= old(self)@.len() && final(self)@ == old(self)@.insert(i, entry),
    {
        let mut i: usize = 0;
        while i < self.entries.len() && self.entries[i].time.0 > entry.time.0
            invariant
                self.wf(),
                i <= self@.len(),
                forall|j: int| 0 <= j < i ==> (#[trigger] self@[j]).time.0 > entry.time.0,
            decreases self@.len() - i,
        {
            i += 1;
        }
        let ghost old_s = self@;
        self.entries.insert(i, entry);
        proof {
            assert(self@ == old_s.insert(i as int, entry));
            assert forall|a: int, b: int| 0 <= a < b < self@.len() implies (#[trigger] self@[a]).time.0 >= (
            #[trigger] self@[b]).time.0 by {
                if b == i {
                } else if a == i {
                    assert(self@[b] == old_s[b - 1]);
                    if i < old_s.len() {
                        assert(old_s[i as int].time.0 <= entry.time.0);
                        assert(old_s[i as int].time.0 >= old_s[b - 1].time.0);
                    }
                }
            }
        }
    }

    /// The earliest time of any entry.
    pub fn peek_time(&self) -> (r: Option<Time>)
        requires
            self.wf(),
        ensures
            self@.len() == 0 ==> r is None,
            self@.len() > 0 ==> r == Some(self@.last().time),
            r matches Some(t) ==> forall|i: int| 0 <= i < self@.len() ==> t.0 <= (#[trigger] self@[i]).time.0,
    {
        if self.entries.len() == 0 {
            None
        } else {
            Some(self.entries[self.entries.len() - 1].time)
        }
    }

    /// Removes and returns an entry of the earliest time.
    pub fn pop(&mut self) -> (r: ScheduledEntry<P>)
        requires
            old(self).wf(),
            old(self)@.len() > 0,
        ensures
            final(self).wf(),
            r == old(self)@.last(),
            final(self)@ == old(self)@.drop_last(),
            forall|i: int| 0 <= i < final(self)@.len() ==> r.time.0 <= (#[trigger] final(self)@[i]).time.0,
    {
        let r = self.entries.pop().unwrap();
        proof {
            assert forall|i: int| 0 <= i < self@.len() implies r.time.0 <= (#[trigger] self@[i]).time.0 by {
                assert(old(self)@[i] == self@[i]);
            }
        }
        r
    }
}

} // verus!
