use vstd::prelude::*;
use vstd::string::*;
use vstd::multiset::Multiset;
use vstd::utf8::encode_utf8;
use std::sync::Arc;
use crate::component::{Component, ComponentID, NO_COMPONENT_INDEX};
use crate::components::{added, is_ancestor, path_of, self_has_sibling_named, Components};
use crate::config::{max_time_of, Config};
use crate::effector::Effector;
use crate::error::SimError;
use crate::event::Event;
use crate::logging::LogLevel;
use crate::names::{push_char, valid_name};
use crate::scheduler::{ScheduledEntry, Scheduler};
use crate::sim_time::{delivery_at, delivery_time, Delay, Time};
use crate::store::{with_int, float_pairs, fold_writes, int_pairs, lemma_fold_none, patched, text_pairs, write_result, Store, StoreView};

verus! {

/// Relies on `Arc::clone`: another handle on the same value.
#[verifier::external_body]
fn share<T>(a: &Arc<T>) -> (r: Arc<T>)
    ensures
        r == *a,
{
    Arc::clone(a)
}

/// Relies on `Arc::try_unwrap`: the value itself where no other handle on it exists,
/// else the handle back.
#[verifier::external_body]
fn try_unwrap<T>(a: Arc<T>) -> (r: Result<T, Arc<T>>)
    ensures
        r matches Ok(t) ==> a == t,
        r matches Err(b) ==> b == a,
{
    Arc::try_unwrap(a)
}

/// Relies on `time::get_time`: the nanoseconds within the current second, which its
/// constructor keeps below one billion.
#[verifier::external_body]
fn clock_nanos() -> (r: u32)
    ensures
        r < 1_000_000_000,
{
    time::get_time().nsec as u32
}

/// The seed of a component's random number generator: the configured seed, or where that
/// is 0 a value taken from the clock, offset (with wrap-around) by the component's id so that each component
/// gets a stream of its own.
pub open spec fn seed_for(seed: u32, clock: u32, id: usize) -> u64 {
    ((if seed != 0 {
        seed
    } else {
        clock
    }) as u64).wrapping_add(id as u64)
}

pub fn get_seed(seed: u32, clock: u32, id: usize) -> (r: u64)
    ensures
        r == seed_for(seed, clock, id),
{
    let base = if seed != 0 {
        seed
    } else {
        clock
    };
    (base as u64).wrapping_add(id as u64)
}

/// The sum of the first `n` bytes.
pub open spec fn byte_sum(b: Seq<u8>, n: int) -> nat
    decreases n,
{
    if n <= 0 || n > b.len() {
        0
    } else {
        byte_sum(b, n - 1) + b[n - 1] as nat
    }
}

/// What an event name adds to the finger print: its first (up to) eight bytes.
pub open spec fn name_weight(name: Seq<char>) -> nat {
    let b = encode_utf8(name);
    byte_sum(b, if b.len() < 8 { b.len() as int } else { 8 })
}

/// The finger print after dispatching an event named `name` at `time` to `target`: the
/// time, the target and the name's weight, each added with wrap-around.
pub open spec fn fp_step(fp: u64, time: i64, target: usize, name: Seq<char>) -> u64 {
    fp.wrapping_add(time as u64).wrapping_add(target as u64).wrapping_add(name_weight(name) as u64)
}

/// The finger print after dispatching `s` in order, each given as (time, target, name).
pub open spec fn fp_fold(fp: u64, s: Seq<(i64, usize, Seq<char>)>) -> u64
    decreases s.len(),
{
    if s.len() == 0 {
        fp
    } else {
        let e = s.last();
        fp_step(fp_fold(fp, s.drop_last()), e.0, e.1, e.2)
    }
}

pub open spec fn digit(d: nat) -> char {
    if d == 0 {
        '0'
    } else if d == 1 {
        '1'
    } else if d == 2 {
        '2'
    } else if d == 3 {
        '3'
    } else if d == 4 {
        '4'
    } else if d == 5 {
        '5'
    } else if d == 6 {
        '6'
    } else if d == 7 {
        '7'
    } else if d == 8 {
        '8'
    } else {
        '9'
    }
}

/// `n` in decimal.
pub open spec fn decimal(n: nat) -> Seq<char>
    decreases n,
{
    if n < 10 {
        seq![digit(n)]
    } else {
        decimal(n / 10).push(digit(n % 10))
    }
}

/// The name of the event of initialization round `k`: "init k".
pub open spec fn init_name(k: nat) -> Seq<char> {
    seq!['i', 'n', 'i', 't', ' '] + decimal(k)
}

fn digit_char(d: u32) -> (r: char)
    requires
        d < 10,
    ensures
        r == digit(d as nat),
{
    if d == 0 {
        '0'
    } else if d == 1 {
        '1'
    } else if d == 2 {
        '2'
    } else if d == 3 {
        '3'
    } else if d == 4 {
        '4'
    } else if d == 5 {
        '5'
    } else if d == 6 {
        '6'
    } else if d == 7 {
        '7'
    } else if d == 8 {
        '8'
    } else {
        '9'
    }
}

fn push_decimal(s: &mut String, n: u32)
    ensures
        final(s)@ == old(s)@ + decimal(n as nat),
    decreases n,
{
    if n >= 10 {
        push_decimal(s, n / 10);
    }
    push_char(s, digit_char(n % 10));
    proof {
        if n >= 10 {
            assert(final(s)@ =~= old(s)@ + decimal(n as nat));
        } else {
            assert(final(s)@ =~= old(s)@ + decimal(n as nat));
        }
    }
}

pub fn init_event_name(k: u32) -> (r: String)
    ensures
        r@ == init_name(k as nat),
{
    let mut s = String::new();
    push_char(&mut s, 'i');
    push_char(&mut s, 'n');
    push_char(&mut s, 'i');
    push_char(&mut s, 't');
    push_char(&mut s, ' ');
    push_decimal(&mut s, k);
    proof {
        assert(s@ =~= init_name(k as nat));
    }
    s
}

fn name_weight_of(name: &String) -> (r: u64)
    ensures
        r == name_weight(name@),
{
    let bytes = name.as_str().as_bytes();
    let n: usize = if bytes.len() < 8 {
        bytes.len()
    } else {
        8
    };
    let mut sum: u64 = 0;
    let mut i: usize = 0;
    while i < n
        invariant
            bytes@ == encode_utf8(name@),
            n == (if bytes@.len() < 8 { bytes@.len() } else { 8 }),
            i <= n,
            sum == byte_sum(bytes@, i as int),
            sum <= 255 * i,
        decreases n - i,
    {
        sum = sum + bytes[i] as u64;
        i += 1;
    }
    sum
}

/// The (time, target, name) of each entry.
pub open spec fn keys_of<P>(s: Seq<ScheduledEntry<P>>) -> Seq<(i64, usize, Seq<char>)> {
    s.map_values(|e: ScheduledEntry<P>| (e.time.0, e.target.0, e.event.name@))
}

/// The entries of `pending` from index `k` on, in the order they leave: last first.
pub open spec fn leaving<P>(pending: Seq<ScheduledEntry<P>>, k: int) -> Seq<ScheduledEntry<P>> {
    Seq::new((pending.len() - k) as nat, |j: int| pending[pending.len() - 1 - j])
}

/// The entries of `s` whose target has not been removed, as (target, event, number),
/// where the entry at position `i` of `s` is event number `first + i` (modulo 2^64).
pub open spec fn routed<P>(s: Seq<ScheduledEntry<P>>, removed: Seq<bool>, first: int) -> Seq<(ComponentID, Event<P>, u64)>
    decreases s.len(),
{
    if s.len() == 0 {
        Seq::empty()
    } else {
        let e = s.last();
        if removed[e.target.0 as int] {
            routed(s.drop_last(), removed, first)
        } else {
            routed(s.drop_last(), removed, first).push(
                (e.target, e.event, ((first + s.len() - 1) % 0x1_0000_0000_0000_0000) as u64),
            )
        }
    }
}

pub open spec fn handed_out<P>(d: Seq<Delivery<P>>) -> Seq<(ComponentID, Event<P>, u64)> {
    d.map_values(|x: Delivery<P>| (x.target, x.event, x.number))
}

/// The (time, target, name) of the events of an initialization round, in id order.
pub open spec fn init_keys(active: Seq<bool>, n: int, name: Seq<char>) -> Seq<(i64, usize, Seq<char>)>
    decreases n,
{
    if n <= 0 {
        Seq::empty()
    } else if active[n - 1] {
        init_keys(active, n - 1, name).push((0i64, (n - 1) as usize, name))
    } else {
        init_keys(active, n - 1, name)
    }
}

/// What an initialization round hands out: "init k" once to each active component that
/// has not been removed, in id order, at time 0; all of them count in the finger print.
pub open spec fn init_round<P>(before: Simulation<P>, after: Simulation<P>, time: Time, d: Seq<Delivery<P>>) -> bool {
    let name = init_name(before.init_done());
    &&& time.0 == 0
    &&& after.init_done() == before.init_done() + 1
    &&& after.now() == 0
    &&& after.pending() == before.pending()
    &&& forall|j: int|
        0 <= j < d.len() ==> {
            let t = (#[trigger] d[j]).target.0 as int;
            &&& 0 <= t < before.tree().len()
            &&& before.active_flags()[t]
            &&& !before.removed_flags()[t]
            &&& d[j].event.name@ == name
            &&& d[j].event.port_name@.len() == 0
            &&& d[j].event.payload is None
        }
    &&& forall|j1: int, j2: int| 0 <= j1 < j2 < d.len() ==> (#[trigger] d[j1]).target.0 < (#[trigger] d[j2]).target.0
    &&& forall|j: int|
        0 <= j < d.len() ==> (#[trigger] d[j]).number as int == (before.dispatched() + init_keys(
            before.active_flags(),
            d[j].target.0 as int,
            name,
        ).len()) % 0x1_0000_0000_0000_0000
    &&& forall|i: int|
        0 <= i < before.tree().len() && #[trigger] before.active_flags()[i] && !before.removed_flags()[i]
            ==> exists|j: int| 0 <= j < d.len() && (#[trigger] d[j]).target.0 == i
    &&& after.fp() == fp_fold(before.fp(), init_keys(before.active_flags(), before.tree().len() as int, name))
    &&& after.dispatched() as int == (before.dispatched() + init_keys(before.active_flags(), before.tree().len() as int, name).len()) % 0x1_0000_0000_0000_0000
}

/// What dispatching the earliest instant does: every entry of the earliest time leaves
/// the queue, later ones stay; the events of components that were not removed are
/// handed out, in the order they left, and all of them count in the finger print.
pub open spec fn instant<P>(before: Simulation<P>, after: Simulation<P>, time: Time, d: Seq<Delivery<P>>) -> bool {
    let p = before.pending();
    let k = after.pending().len() as int;
    &&& p.len() > 0
    &&& time == p.last().time
    &&& time.0 >= before.now()
    &&& after.now() == time.0
    &&& after.pending() == p.subrange(0, k)
    &&& forall|i: int| k <= i < p.len() ==> (#[trigger] p[i]).time == time
    &&& forall|i: int| 0 <= i < k ==> (#[trigger] p[i]).time.0 > time.0
    &&& forall|i: int|
        k <= i < p.len() ==> {
            let t = (#[trigger] p[i]).target.0 as int;
            0 <= t < before.tree().len() && before.active_flags()[t]
        }
    &&& handed_out(d) == routed(leaving(p, k), before.removed_flags(), before.dispatched() as int)
    &&& after.fp() == fp_fold(before.fp(), keys_of(leaving(p, k)))
    &&& after.dispatched() as int == (before.dispatched() + (p.len() - k)) % 0x1_0000_0000_0000_0000
    &&& after.init_done() == before.init_done()
}

/// `after` differs from `before` only in what dispatching changes.
pub open spec fn dispatch_frame<P>(before: Simulation<P>, after: Simulation<P>) -> bool {
    &&& after.tree() == before.tree()
    &&& after.comps() == before.comps()
    &&& after.state() == before.state()
    &&& after.active_flags() == before.active_flags()
    &&& after.removed_flags() == before.removed_flags()
    &&& after.exit_reason() == before.exit_reason()
    &&& after.settings() == before.settings()
}

/// An effector scheduled to a component that is no worker's.
pub open spec fn inactive_error<P, T>(before: Simulation<P>, r: Result<T, SimError>) -> bool {
    r matches Err(SimError::InactiveTarget { target: t, event: _ }) && exists|i: int|
        0 <= i < before.pending().len() && #[trigger] before.pending()[i].target.0 == t
            && before.pending()[i].time == before.pending().last().time && !(t < before.tree().len()
            && before.active_flags()[t as int])
}

/// Every pending entry of the earliest time targets a component with a worker.
pub open spec fn earliest_active<P>(before: Simulation<P>) -> bool {
    forall|i: int|
        0 <= i < before.pending().len() && (#[trigger] before.pending()[i]).time == before.pending().last().time
            ==> before.pending()[i].target.0 < before.tree().len() && before.active_flags()[before.pending()[i].target.0 as int]
}


/// `after` differs from `before` at most in the exit reason.
pub open spec fn only_exit_changed<P>(before: Simulation<P>, after: Simulation<P>) -> bool {
    &&& after.tree() == before.tree()
    &&& after.comps() == before.comps()
    &&& after.state() == before.state()
    &&& after.now() == before.now()
    &&& after.pending() == before.pending()
    &&& after.active_flags() == before.active_flags()
    &&& after.removed_flags() == before.removed_flags()
    &&& after.fp() == before.fp()
    &&& after.dispatched() == before.dispatched()
    &&& after.init_done() == before.init_done()
    &&& after.settings() == before.settings()
}

/// The run stops with `why`.
pub open spec fn stops<P>(before: Simulation<P>, after: Simulation<P>, r: Result<Step<P>, SimError>, why: Seq<char>) -> bool {
    &&& r matches Ok(Step::Done { reason }) && reason@ == why
    &&& after.exit_reason() == Some(why)
    &&& only_exit_changed(before, after)
}

/// Whether an effector of component `id` takes effect: the id is a component's that had
/// not been removed when the instant began.
pub open spec fn takes_effect(removed: Seq<bool>, id: ComponentID) -> bool {
    0 <= id.0 < removed.len() && !removed[id.0 as int]
}

/// `i` lies in the subtree of `id`.
pub open spec fn in_subtree(s: Seq<Component>, id: int, i: int) -> bool {
    i == id || is_ancestor(s, id, i)
}

/// The exit reasons.
pub open spec fn exit_reason_for(init: bool) -> Seq<char> {
    if init {
        "Effector.exit was called during initialization"@
    } else {
        "effector.exit was called"@
    }
}

/// The queue entry for an event scheduled by an effector applied at `now`.
pub open spec fn entry_for<P>(now: i64, time_units: nat, ev: (ComponentID, Event<P>, Delay)) -> ScheduledEntry<P> {
    ScheduledEntry { time: Time(delivery_at(now, ev.2, time_units)), target: ev.0, event: ev.1 }
}

/// Every entry of `after` was in `before` or is the entry of one of `events`.
pub open spec fn pending_from<P>(
    before: Seq<ScheduledEntry<P>>,
    after: Seq<ScheduledEntry<P>>,
    now: i64,
    time_units: nat,
    events: Seq<(ComponentID, Event<P>, Delay)>,
) -> bool {
    forall|i: int|
        0 <= i < after.len() ==> before.contains(#[trigger] after[i]) || exists|k: int|
            0 <= k < events.len() && after[i] == entry_for(now, time_units, #[trigger] events[k])
}

/// `after` differs from `before` at most in the removed flags.
pub open spec fn dispatch_frame_but_removed<P>(before: Simulation<P>, after: Simulation<P>) -> bool {
    &&& after.tree() == before.tree()
    &&& after.comps() == before.comps()
    &&& after.state() == before.state()
    &&& after.active_flags() == before.active_flags()
    &&& after.exit_reason() == before.exit_reason()
    &&& after.settings() == before.settings()
}

/// The sum of `f` over the effectors among the first `m` that `sel` picks.
pub open spec fn total<P>(
    effects: Seq<(ComponentID, Effector<P>)>,
    sel: spec_fn(int) -> bool,
    m: int,
    f: spec_fn(Effector<P>) -> nat,
) -> nat
    decreases m,
{
    if m <= 0 {
        0
    } else {
        total(effects, sel, m - 1, f) + if sel(m - 1) {
            f(effects[m - 1].1)
        } else {
            0
        }
    }
}

proof fn lemma_total_same<P>(
    effects: Seq<(ComponentID, Effector<P>)>,
    a: spec_fn(int) -> bool,
    b: spec_fn(int) -> bool,
    m: int,
    f: spec_fn(Effector<P>) -> nat,
)
    requires
        forall|j: int| 0 <= j < m ==> #[trigger] a(j) == b(j),
    ensures
        total(effects, a, m, f) == total(effects, b, m, f),
    decreases m,
{
    if m > 0 {
        lemma_total_same(effects, a, b, m - 1, f);
    }
}

proof fn lemma_total_none<P>(effects: Seq<(ComponentID, Effector<P>)>, a: spec_fn(int) -> bool, m: int, f: spec_fn(Effector<P>) -> nat)
    requires
        forall|j: int| 0 <= j < m ==> !#[trigger] a(j),
    ensures
        total(effects, a, m, f) == 0,
    decreases m,
{
    if m > 0 {
        lemma_total_none(effects, a, m - 1, f);
    }
}

proof fn lemma_total_add<P>(
    effects: Seq<(ComponentID, Effector<P>)>,
    a: spec_fn(int) -> bool,
    b: spec_fn(int) -> bool,
    x: int,
    m: int,
    f: spec_fn(Effector<P>) -> nat,
)
    requires
        forall|j: int| 0 <= j < m && j != x ==> #[trigger] a(j) == b(j),
        0 <= x,
        !a(x),
        b(x),
    ensures
        total(effects, b, m, f) == total(effects, a, m, f) + if x < m {
            f(effects[x].1)
        } else {
            0
        },
    decreases m,
{
    if m > 0 {
        lemma_total_add(effects, a, b, x, m - 1, f);
    }
}

pub open spec fn log_count<P>() -> spec_fn(Effector<P>) -> nat {
    |e: Effector<P>| e.logs@.len()
}

pub open spec fn event_count<P>() -> spec_fn(Effector<P>) -> nat {
    |e: Effector<P>| e.events@.len()
}

/// The effectors of `effects` that take effect.
pub open spec fn effective<P>(effects: Seq<(ComponentID, Effector<P>)>, rb: Seq<bool>) -> spec_fn(int) -> bool {
    |j: int| takes_effect(rb, effects[j].0)
}

pub open spec fn consumed_sel<P>(orig: Seq<(ComponentID, Effector<P>)>, rb: Seq<bool>, id: int, jj: int) -> spec_fn(int) -> bool {
    |j: int| consumed(orig, rb, j, id, jj)
}

/// Every entry of `p` was pending in `s0` or is the entry of an event of an effector that
/// `sel` picks, at the delivery time that its delay gives from `now`.
pub open spec fn from_effectors<P>(
    s0: Seq<ScheduledEntry<P>>,
    p: Seq<ScheduledEntry<P>>,
    now: i64,
    time_units: nat,
    effects: Seq<(ComponentID, Effector<P>)>,
    sel: spec_fn(int) -> bool,
) -> bool {
    forall|i: int|
        0 <= i < p.len() ==> s0.contains(#[trigger] p[i]) || exists|j: int, k: int|
            0 <= j < effects.len() && sel(j) && 0 <= k < effects[j].1.events@.len() && p[i] == entry_for(
                now,
                time_units,
                #[trigger] effects[j].1.events@[k],
            )
}

proof fn lemma_from_effectors_same<P>(
    s0: Seq<ScheduledEntry<P>>,
    p: Seq<ScheduledEntry<P>>,
    now: i64,
    time_units: nat,
    effects: Seq<(ComponentID, Effector<P>)>,
    a: spec_fn(int) -> bool,
    b: spec_fn(int) -> bool,
)
    requires
        from_effectors(s0, p, now, time_units, effects, a),
        forall|j: int| 0 <= j < effects.len() && #[trigger] a(j) ==> b(j),
    ensures
        from_effectors(s0, p, now, time_units, effects, b),
{
    assert forall|i: int| 0 <= i < p.len() && !s0.contains(#[trigger] p[i]) implies exists|j: int, k: int|
        0 <= j < effects.len() && b(j) && 0 <= k < effects[j].1.events@.len() && p[i] == entry_for(
            now,
            time_units,
            #[trigger] effects[j].1.events@[k],
        ) by {
        let (j, k) = choose|j: int, k: int|
            0 <= j < effects.len() && a(j) && 0 <= k < effects[j].1.events@.len() && p[i] == entry_for(
                now,
                time_units,
                #[trigger] effects[j].1.events@[k],
            );
        assert(b(j));
    }
}

proof fn lemma_from_effectors_step<P>(
    s0: Seq<ScheduledEntry<P>>,
    mid: Seq<ScheduledEntry<P>>,
    p: Seq<ScheduledEntry<P>>,
    now: i64,
    time_units: nat,
    effects: Seq<(ComponentID, Effector<P>)>,
    a: spec_fn(int) -> bool,
    b: spec_fn(int) -> bool,
    x: int,
)
    requires
        from_effectors(s0, mid, now, time_units, effects, a),
        pending_from(mid, p, now, time_units, effects[x].1.events@),
        forall|j: int| 0 <= j < effects.len() && #[trigger] a(j) ==> b(j),
        0 <= x < effects.len(),
        b(x),
    ensures
        from_effectors(s0, p, now, time_units, effects, b),
{
    assert forall|i: int| 0 <= i < p.len() && !s0.contains(#[trigger] p[i]) implies exists|j: int, k: int|
        0 <= j < effects.len() && b(j) && 0 <= k < effects[j].1.events@.len() && p[i] == entry_for(
            now,
            time_units,
            #[trigger] effects[j].1.events@[k],
        ) by {
        if mid.contains(p[i]) {
            let m = choose|m: int| 0 <= m < mid.len() && mid[m] == p[i];
            assert(!s0.contains(mid[m]));
            let (j, k) = choose|j: int, k: int|
                0 <= j < effects.len() && a(j) && 0 <= k < effects[j].1.events@.len() && mid[m] == entry_for(
                    now,
                    time_units,
                    #[trigger] effects[j].1.events@[k],
                );
            assert(b(j));
        } else {
            let k = choose|k: int|
                0 <= k < effects[x].1.events@.len() && p[i] == entry_for(now, time_units, #[trigger] effects[x].1.events@[k]);
        }
    }
}

/// Effector `j` has been applied once the pass over ids has reached `id` and, within
/// the ids equal to `id`, the index `jj`.
pub open spec fn consumed<P>(orig: Seq<(ComponentID, Effector<P>)>, rb: Seq<bool>, j: int, id: int, jj: int) -> bool {
    &&& takes_effect(rb, orig[j].0)
    &&& (orig[j].0.0 < id || (orig[j].0.0 == id && j < jj))
}

/// The removed flags once the effectors that `consumed` names have been applied.
pub open spec fn removal_after<P>(
    orig: Seq<(ComponentID, Effector<P>)>,
    rb: Seq<bool>,
    tree: Seq<Component>,
    id: int,
    jj: int,
) -> Seq<bool> {
    Seq::new(
        rb.len(),
        |k: int|
            rb[k] || exists|j: int|
                0 <= j < orig.len() && #[trigger] consumed(orig, rb, j, id, jj) && orig[j].1.removed && in_subtree(
                    tree,
                    orig[j].0.0 as int,
                    k,
                ),
    )
}

/// Some effector that `consumed` names asks to exit.
pub open spec fn exit_after<P>(orig: Seq<(ComponentID, Effector<P>)>, rb: Seq<bool>, id: int, jj: int) -> bool {
    exists|j: int| 0 <= j < orig.len() && #[trigger] consumed(orig, rb, j, id, jj) && orig[j].1.exit
}

proof fn lemma_removal_eq<P>(
    orig: Seq<(ComponentID, Effector<P>)>,
    rb: Seq<bool>,
    tree: Seq<Component>,
    id1: int,
    jj1: int,
    id2: int,
    jj2: int,
)
    requires
        forall|j: int| 0 <= j < orig.len() ==> #[trigger] consumed(orig, rb, j, id1, jj1) == consumed(orig, rb, j, id2, jj2),
    ensures
        removal_after(orig, rb, tree, id1, jj1) == removal_after(orig, rb, tree, id2, jj2),
        exit_after(orig, rb, id1, jj1) == exit_after(orig, rb, id2, jj2),
{
    let a = removal_after(orig, rb, tree, id1, jj1);
    let b = removal_after(orig, rb, tree, id2, jj2);
    assert forall|k: int| 0 <= k < rb.len() implies a[k] == b[k] by {
        if a[k] && !rb[k] {
            let j = choose|j: int|
                0 <= j < orig.len() && #[trigger] consumed(orig, rb, j, id1, jj1) && orig[j].1.removed && in_subtree(
                    tree,
                    orig[j].0.0 as int,
                    k,
                );
            assert(consumed(orig, rb, j, id2, jj2));
        }
        if b[k] && !rb[k] {
            let j = choose|j: int|
                0 <= j < orig.len() && #[trigger] consumed(orig, rb, j, id2, jj2) && orig[j].1.removed && in_subtree(
                    tree,
                    orig[j].0.0 as int,
                    k,
                );
            assert(consumed(orig, rb, j, id1, jj1));
        }
    }
    assert(a =~= b);
    if exit_after(orig, rb, id1, jj1) {
        let j = choose|j: int| 0 <= j < orig.len() && #[trigger] consumed(orig, rb, j, id1, jj1) && orig[j].1.exit;
        assert(consumed(orig, rb, j, id2, jj2));
    }
    if exit_after(orig, rb, id2, jj2) {
        let j = choose|j: int| 0 <= j < orig.len() && #[trigger] consumed(orig, rb, j, id2, jj2) && orig[j].1.exit;
        assert(consumed(orig, rb, j, id1, jj1));
    }
}

/// The removed flags after applying `effects` to a kernel whose flags were `rb`.
pub open spec fn removed_by<P>(effects: Seq<(ComponentID, Effector<P>)>, rb: Seq<bool>, tree: Seq<Component>) -> Seq<bool> {
    Seq::new(
        rb.len(),
        |k: int|
            rb[k] || exists|j: int|
                0 <= j < effects.len() && #[trigger] takes_effect(rb, effects[j].0) && effects[j].1.removed
                    && in_subtree(tree, effects[j].0.0 as int, k),
    )
}

/// Some effector that takes effect asks to exit.
pub open spec fn exit_requested<P>(effects: Seq<(ComponentID, Effector<P>)>, rb: Seq<bool>) -> bool {
    exists|j: int| 0 <= j < effects.len() && #[trigger] takes_effect(rb, effects[j].0) && effects[j].1.exit
}

proof fn lemma_removal_final<P>(orig: Seq<(ComponentID, Effector<P>)>, rb: Seq<bool>, tree: Seq<Component>)
    requires
        forall|j: int| 0 <= j < orig.len() ==> #[trigger] consumed(orig, rb, j, rb.len() as int, 0) == takes_effect(rb, orig[j].0),
    ensures
        removal_after(orig, rb, tree, rb.len() as int, 0) == removed_by(orig, rb, tree),
        exit_after(orig, rb, rb.len() as int, 0) == exit_requested(orig, rb),
{
    let n = rb.len() as int;
    let a = removal_after(orig, rb, tree, n, 0);
    let b = removed_by(orig, rb, tree);
    assert forall|k: int| 0 <= k < rb.len() implies a[k] == b[k] by {
        if a[k] && !rb[k] {
            let j = choose|j: int|
                0 <= j < orig.len() && #[trigger] consumed(orig, rb, j, n, 0) && orig[j].1.removed && in_subtree(
                    tree,
                    orig[j].0.0 as int,
                    k,
                );
            assert(takes_effect(rb, orig[j].0));
        }
        if b[k] && !rb[k] {
            let j = choose|j: int|
                0 <= j < orig.len() && #[trigger] takes_effect(rb, orig[j].0) && orig[j].1.removed && in_subtree(
                    tree,
                    orig[j].0.0 as int,
                    k,
                );
            assert(consumed(orig, rb, j, n, 0));
        }
    }
    assert(a =~= b);
    if exit_after(orig, rb, n, 0) {
        let j = choose|j: int| 0 <= j < orig.len() && #[trigger] consumed(orig, rb, j, n, 0) && orig[j].1.exit;
        assert(takes_effect(rb, orig[j].0));
    }
    if exit_requested(orig, rb) {
        let j = choose|j: int| 0 <= j < orig.len() && #[trigger] takes_effect(rb, orig[j].0) && orig[j].1.exit;
        assert(consumed(orig, rb, j, n, 0));
    }
}

/// Log lines in ascending component order, at time `now`, of components whose effectors
/// take effect.
pub open spec fn logs_ok(logs: Seq<LogLine>, rb: Seq<bool>, now: i64) -> bool {
    &&& forall|a: int, b: int| 0 <= a < b < logs.len() ==> (#[trigger] logs[a]).component.0 <= (#[trigger] logs[b]).component.0
    &&& forall|a: int| 0 <= a < logs.len() ==> (#[trigger] logs[a]).time.0 == now && takes_effect(rb, logs[a].component)
}

/// What completing an instant does. Effectors take effect in ascending component order,
/// except those of components removed before the instant, which change nothing; removals
/// take whole subtrees; an exit request ends the run after this instant.
pub open spec fn completed<P>(
    before: Simulation<P>,
    after: Simulation<P>,
    effects: Seq<(ComponentID, Effector<P>)>,
    logs: Seq<LogLine>,
) -> bool {
    let rb = before.removed_flags();
    &&& after.now() == before.now()
    &&& after.tree() == before.tree()
    &&& after.comps() == before.comps()
    &&& after.active_flags() == before.active_flags()
    &&& after.fp() == before.fp()
    &&& after.dispatched() == before.dispatched()
    &&& after.init_done() == before.init_done()
    &&& after.settings() == before.settings()
    &&& after.removed_flags() == removed_by(effects, rb, before.tree())
    &&& exit_requested(effects, rb) ==> after.exit_reason() == Some(exit_reason_for(before.in_init_round()))
    &&& !exit_requested(effects, rb) ==> after.exit_reason() == before.exit_reason()
    &&& logs_ok(logs, rb, before.now())
    &&& store_after(effects, rb, before.tree(), before.state(), before.now()) == Some(after.state())
    &&& after.pending().to_multiset() == before.pending().to_multiset().add(
        queued(effects, effective(effects, rb), effects.len() as int, before.now(), before.settings().time_units as nat),
    )
    &&& logs.len() == total(effects, effective(effects, rb), effects.len() as int, log_count())
    &&& after.pending().len() == before.pending().len() + total(effects, effective(effects, rb), effects.len() as int, event_count())
    &&& forall|i: int| 0 <= i < after.pending().len() ==> (#[trigger] after.pending()[i]).time.0 >= before.now()
    &&& from_effectors(
        before.pending(),
        after.pending(),
        before.now(),
        before.settings().time_units as nat,
        effects,
        effective(effects, rb),
    )
    &&& (forall|j: int| 0 <= j < effects.len() ==> !#[trigger] takes_effect(rb, effects[j].0)) ==> {
        &&& after.pending() == before.pending()
        &&& after.state() == before.state()
        &&& logs.len() == 0
    }
}

/// The finger print depends on the dispatched events' times, targets and name weights
/// only (so not on a name beyond its eighth byte, nor on payloads or ports): two runs
/// that dispatch the same such sequence end with the same finger print.
pub proof fn law_finger_print_determined(
    fp: u64,
    a: Seq<(i64, usize, Seq<char>)>,
    b: Seq<(i64, usize, Seq<char>)>,
)
    requires
        a.len() == b.len(),
        forall|i: int| 0 <= i < a.len() ==> a[i].0 == b[i].0 && a[i].1 == b[i].1 && name_weight(a[i].2) == name_weight(b[i].2),
    ensures
        fp_fold(fp, a) == fp_fold(fp, b),
    decreases a.len(),
{
    if a.len() > 0 {
        law_finger_print_determined(fp, a.drop_last(), b.drop_last());
    }
}

/// No event is handed to a component that was removed: what the kernel routes leaves
/// them out.
pub proof fn law_removed_get_nothing<P>(s: Seq<ScheduledEntry<P>>, removed: Seq<bool>, first: int)
    ensures
        forall|i: int| 0 <= i < routed(s, removed, first).len() ==> !removed[(#[trigger] routed(s, removed, first)[i]).0.0 as int],
    decreases s.len(),
{
    if s.len() > 0 {
        law_removed_get_nothing(s.drop_last(), removed, first);
        let rest = routed(s.drop_last(), removed, first);
        assert forall|i: int| 0 <= i < routed(s, removed, first).len() implies !removed[(#[trigger] routed(s, removed, first)[i]).0.0 as int] by {
            if i < rest.len() {
                assert(routed(s, removed, first)[i] == rest[i]);
            }
        }
    }
}

/// The key that marks a removed component, after its path.
pub open spec fn removed_suffix() -> Seq<char> {
    seq!['.', 'r', 'e', 'm', 'o', 'v', 'e', 'd']
}

/// `st` after writing `removed = 1` at `now` under the path of each component of the
/// subtree of `id` below index `i`, in id order; `None` where a write is refused.
pub open spec fn removal_from(st: StoreView, tree: Seq<Component>, id: int, now: i64, i: int) -> Option<StoreView>
    decreases i - id,
{
    if i <= id {
        Some(st)
    } else {
        match removal_from(st, tree, id, now, i - 1) {
            None => None,
            Some(s) => if in_subtree(tree, id, i - 1) {
                with_int(s, path_of(tree, i - 1) + removed_suffix(), 1, now)
            } else {
                Some(s)
            },
        }
    }
}

proof fn lemma_removal_none(st: StoreView, tree: Seq<Component>, id: int, now: i64, i: int, j: int)
    requires
        id <= i <= j,
        removal_from(st, tree, id, now, i) is None,
    ensures
        removal_from(st, tree, id, now, j) is None,
    decreases j - i,
{
    if j > i {
        lemma_removal_none(st, tree, id, now, i, j - 1);
    }
}

/// What applying effector `eff` of component `id` at `now` does to the store `st`: its
/// patch under the component's path, then, if it asks for removal, the `removed = 1`
/// writes of the subtree. `None` where a write is refused.
pub open spec fn apply_one<P>(st: StoreView, tree: Seq<Component>, id: int, eff: Effector<P>, now: i64) -> Option<StoreView> {
    match patched(st, path_of(tree, id) + seq!['.'], eff.store, now) {
        None => None,
        Some(s) => if eff.removed {
            removal_from(s, tree, id, now, tree.len() as int)
        } else {
            Some(s)
        },
    }
}

/// The store after applying, from `st0`, the effectors of `orig` that take effect, in
/// ascending component id and, within one id, in the order given, up to (not including)
/// position (`id`, `jj`). `None` once a write is refused.
pub open spec fn store_upto<P>(
    orig: Seq<(ComponentID, Effector<P>)>,
    rb: Seq<bool>,
    tree: Seq<Component>,
    st0: StoreView,
    now: i64,
    id: int,
    jj: int,
) -> Option<StoreView>
    decreases id, jj,
{
    if id <= 0 && jj <= 0 {
        Some(st0)
    } else if jj <= 0 {
        store_upto(orig, rb, tree, st0, now, id - 1, orig.len() as int)
    } else {
        match store_upto(orig, rb, tree, st0, now, id, jj - 1) {
            None => None,
            Some(s) => if jj - 1 < orig.len() && takes_effect(rb, orig[jj - 1].0) && orig[jj - 1].0.0 == id {
                apply_one(s, tree, id, orig[jj - 1].1, now)
            } else {
                Some(s)
            },
        }
    }
}

/// The store after applying all effectors of `effects` that take effect.
pub open spec fn store_after<P>(
    effects: Seq<(ComponentID, Effector<P>)>,
    rb: Seq<bool>,
    tree: Seq<Component>,
    st0: StoreView,
    now: i64,
) -> Option<StoreView> {
    store_upto(effects, rb, tree, st0, now, rb.len() as int, 0)
}

proof fn lemma_upto_none<P>(
    orig: Seq<(ComponentID, Effector<P>)>,
    rb: Seq<bool>,
    tree: Seq<Component>,
    st0: StoreView,
    now: i64,
    id: int,
    jj: int,
    n: int,
)
    requires
        0 <= id < n,
        0 <= jj <= orig.len(),
        store_upto(orig, rb, tree, st0, now, id, jj) is None,
    ensures
        store_upto(orig, rb, tree, st0, now, n, 0) is None,
    decreases n - id, orig.len() - jj,
{
    if jj < orig.len() {
        lemma_upto_none(orig, rb, tree, st0, now, id, jj + 1, n);
    } else if id + 1 < n {
        lemma_upto_none(orig, rb, tree, st0, now, id + 1, 0, n);
    }
}

/// A removed id contributes nothing.
proof fn lemma_upto_skip<P>(
    orig: Seq<(ComponentID, Effector<P>)>,
    rb: Seq<bool>,
    tree: Seq<Component>,
    st0: StoreView,
    now: i64,
    id: int,
    m: int,
)
    requires
        0 <= id < rb.len(),
        rb[id],
        0 <= m <= orig.len(),
    ensures
        store_upto(orig, rb, tree, st0, now, id, m) == store_upto(orig, rb, tree, st0, now, id, 0),
    decreases m,
{
    if m > 0 {
        lemma_upto_skip(orig, rb, tree, st0, now, id, m - 1);
    }
}

/// The queue entries for the events of an effector applied at `now`.
pub open spec fn entries_of<P>(events: Seq<(ComponentID, Event<P>, Delay)>, now: i64, time_units: nat) -> Seq<ScheduledEntry<P>> {
    events.map_values(|ev: (ComponentID, Event<P>, Delay)| entry_for(now, time_units, ev))
}

/// All queue entries that the effectors among the first `m` that `sel` picks add.
pub open spec fn queued<P>(
    effects: Seq<(ComponentID, Effector<P>)>,
    sel: spec_fn(int) -> bool,
    m: int,
    now: i64,
    time_units: nat,
) -> Multiset<ScheduledEntry<P>>
    decreases m,
{
    if m <= 0 {
        Multiset::empty()
    } else {
        queued(effects, sel, m - 1, now, time_units).add(
            if sel(m - 1) {
                entries_of(effects[m - 1].1.events@, now, time_units).to_multiset()
            } else {
                Multiset::empty()
            },
        )
    }
}

proof fn lemma_queued_same<P>(
    effects: Seq<(ComponentID, Effector<P>)>,
    a: spec_fn(int) -> bool,
    b: spec_fn(int) -> bool,
    m: int,
    now: i64,
    time_units: nat,
)
    requires
        forall|j: int| 0 <= j < m ==> #[trigger] a(j) == b(j),
    ensures
        queued(effects, a, m, now, time_units) == queued(effects, b, m, now, time_units),
    decreases m,
{
    if m > 0 {
        lemma_queued_same(effects, a, b, m - 1, now, time_units);
    }
}

proof fn lemma_queued_none<P>(effects: Seq<(ComponentID, Effector<P>)>, a: spec_fn(int) -> bool, m: int, now: i64, time_units: nat)
    requires
        forall|j: int| 0 <= j < m ==> !#[trigger] a(j),
    ensures
        queued(effects, a, m, now, time_units) =~= Multiset::empty(),
    decreases m,
{
    if m > 0 {
        lemma_queued_none(effects, a, m - 1, now, time_units);
    }
}

proof fn lemma_queued_add<P>(
    effects: Seq<(ComponentID, Effector<P>)>,
    a: spec_fn(int) -> bool,
    b: spec_fn(int) -> bool,
    x: int,
    m: int,
    now: i64,
    time_units: nat,
)
    requires
        forall|j: int| 0 <= j < m && j != x ==> #[trigger] a(j) == b(j),
        0 <= x < m,
        !a(x),
        b(x),
    ensures
        queued(effects, b, m, now, time_units) =~= queued(effects, a, m, now, time_units).add(
            entries_of(effects[x].1.events@, now, time_units).to_multiset(),
        ),
    decreases m,
{
    if m - 1 > x {
        lemma_queued_add(effects, a, b, x, m - 1, now, time_units);
    } else {
        lemma_queued_same(effects, a, b, m - 1, now, time_units);
    }
}

/// An event handed to a component's worker.
pub struct Delivery<P> {
    pub target: ComponentID,
    pub event: Event<P>,
    /// The count of events dispatched before this one.
    pub number: u64,
}

/// What the kernel asks its driver to do next.
pub enum Step<P> {
    /// Hand each event to its component's worker, together with a `SimState`, and pass
    /// every returned `Effector` to `Simulation::complete`.
    Dispatch { time: Time, deliveries: Vec<Delivery<P>> },
    /// The run is over, for the given reason.
    Done { reason: String },
}

/// A log record of a component (or of the kernel, with `NO_COMPONENT`) with its time.
#[derive(Debug)]
pub struct LogLine {
    pub time: Time,
    pub component: ComponentID,
    pub level: LogLevel,
    pub message: String,
}

/// The read-only view of the simulation that a worker gets with each event. Workers must
/// drop it before answering: the kernel changes nothing while one is alive.
pub struct SimState {
    pub components: Arc<Components>,
    pub store: Arc<Store>,
}

/// The simulation kernel. It owns the component tree, the store and the pending events,
/// hands out all events of the earliest pending time together, and applies what the
/// components answer before time moves on.
pub struct Simulation<P> {
    store: Arc<Store>,
    components: Arc<Components>,
    active: Vec<bool>,
    removed: Vec<bool>,
    config: Config,
    current_time: Time,
    exited: Option<String>,
    scheduled: Scheduler<P>,
    event_num: u64,
    finger_print: u64,
    init_stage: u32,
    dispatching_init: bool,
}

/// Writes the entries of `patch` into `store` at `now`, each key behind the path of `id`
/// and a '.' (see `patched`).
fn write_patch(comps: &Components, store: &mut Store, id: ComponentID, patch: &Store, now: Time) -> (r: Result<(), SimError>)
    requires
        comps.wf(),
        comps.valid_id(id),
        old(store).wf(),
        patch.wf(),
    ensures
        final(store).wf(),
        r is Ok ==> patched(old(store)@, path_of(comps@, id.0 as int) + seq!['.'], *patch, now.0) == Some(final(store)@),
        r is Err ==> patched(old(store)@, path_of(comps@, id.0 as int) + seq!['.'], *patch, now.0) is None && (r matches Err(
            SimError::AlreadySet { key: _ },
        )),
{
    let ghost st0 = store@;
    let path = comps.full_path(id);
    let ghost prefix = path@ + seq!['.'];
        let ints = patch.int_slots();
        let ghost iv = int_pairs(ints@);
        let mut k: usize = 0;
        proof {
            assert(iv.subrange(0, 0) =~= Seq::empty());
        }
        while k < ints.len()
            invariant
                store.wf(),
                path@ == path_of(comps@, id.0 as int),
                prefix == path@ + seq!['.'],
                st0 == old(store)@,
                iv == int_pairs(ints@),
                iv == patch.int_entries(),
                k <= ints@.len(),
                fold_writes(st0.ints, st0.edition, prefix, iv.subrange(0, k as int), now.0) == Some((store@.ints, store@.edition)),
                store@.floats == st0.floats,
                store@.texts == st0.texts,
            decreases ints@.len() - k,
        {
            let mut key = path.clone();
            key.append(".");
            key.append(ints[k].key.as_str());
            proof {
                reveal_strlit(".");
                assert(iv.subrange(0, k + 1).drop_last() =~= iv.subrange(0, k as int));
                assert(key@ =~= prefix + iv[k as int].0);
                assert(key@.len() > 0);
            }
            match store.set_int(key.as_str(), ints[k].value, now) {
                Ok(()) => {},
                Err(e) => {
                    proof {
                        lemma_fold_none(st0.ints, st0.edition, prefix, iv, now.0, k + 1);
                    }
                    return Err(e);
                },
            }
            k += 1;
        }
        proof {
            assert(iv.subrange(0, ints@.len() as int) =~= iv);
        }
    let ghost mi = store@.ints;
    let ghost e1 = store@.edition;
        let floats = patch.float_slots();
        let ghost fv = float_pairs(floats@);
        let mut k: usize = 0;
        proof {
            assert(fv.subrange(0, 0) =~= Seq::empty());
        }
        while k < floats.len()
            invariant
                store.wf(),
                path@ == path_of(comps@, id.0 as int),
                prefix == path@ + seq!['.'],
                st0 == old(store)@,
                fv == float_pairs(floats@),
                fv == patch.float_entries(),
                k <= floats@.len(),
                fold_writes(st0.floats, e1, prefix, fv.subrange(0, k as int), now.0) == Some((store@.floats, store@.edition)),
                store@.ints == mi,
                store@.texts == st0.texts,
                fold_writes(st0.ints, st0.edition, prefix, patch.int_entries(), now.0) == Some((mi, e1)),
            decreases floats@.len() - k,
        {
            let mut key = path.clone();
            key.append(".");
            key.append(floats[k].key.as_str());
            proof {
                reveal_strlit(".");
                assert(fv.subrange(0, k + 1).drop_last() =~= fv.subrange(0, k as int));
                assert(key@ =~= prefix + fv[k as int].0);
                assert(key@.len() > 0);
            }
            match store.set_float(key.as_str(), floats[k].value, now) {
                Ok(()) => {},
                Err(e) => {
                    proof {
                        lemma_fold_none(st0.floats, e1, prefix, fv, now.0, k + 1);
                    }
                    return Err(e);
                },
            }
            k += 1;
        }
        proof {
            assert(fv.subrange(0, floats@.len() as int) =~= fv);
        }
    let ghost mf = store@.floats;
    let ghost e2 = store@.edition;
        let texts = patch.string_slots();
        let ghost tv = text_pairs(texts@);
        let mut k: usize = 0;
        proof {
            assert(tv.subrange(0, 0) =~= Seq::empty());
        }
        while k < texts.len()
            invariant
                store.wf(),
                path@ == path_of(comps@, id.0 as int),
                prefix == path@ + seq!['.'],
                st0 == old(store)@,
                tv == text_pairs(texts@),
                tv == patch.text_entries(),
                k <= texts@.len(),
                fold_writes(st0.texts, e2, prefix, tv.subrange(0, k as int), now.0) == Some((store@.texts, store@.edition)),
                store@.ints == mi,
                store@.floats == mf,
                fold_writes(st0.ints, st0.edition, prefix, patch.int_entries(), now.0) == Some((mi, e1)),
                fold_writes(st0.floats, e1, prefix, patch.float_entries(), now.0) == Some((mf, e2)),
            decreases texts@.len() - k,
        {
            let mut key = path.clone();
            key.append(".");
            key.append(texts[k].key.as_str());
            proof {
                reveal_strlit(".");
                assert(tv.subrange(0, k + 1).drop_last() =~= tv.subrange(0, k as int));
                assert(key@ =~= prefix + tv[k as int].0);
                assert(key@.len() > 0);
            }
            match store.set_string(key.as_str(), texts[k].value.as_str(), now) {
                Ok(()) => {},
                Err(e) => {
                    proof {
                        lemma_fold_none(st0.texts, e2, prefix, tv, now.0, k + 1);
                    }
                    return Err(e);
                },
            }
            k += 1;
        }
        proof {
            assert(tv.subrange(0, texts@.len() as int) =~= tv);
        }
    Ok(())
}

impl<P> Simulation<P> {
    pub closed spec fn tree(&self) -> Seq<Component> {
        self.components@
    }

    pub closed spec fn comps(&self) -> Components {
        *self.components
    }

    pub closed spec fn state(&self) -> StoreView {
        self.store@
    }

    pub closed spec fn now(&self) -> i64 {
        self.current_time.0
    }

    pub closed spec fn pending(&self) -> Seq<ScheduledEntry<P>> {
        self.scheduled@
    }

    pub closed spec fn active_flags(&self) -> Seq<bool> {
        self.active@
    }

    pub closed spec fn removed_flags(&self) -> Seq<bool> {
        self.removed@
    }

    pub closed spec fn exit_reason(&self) -> Option<Seq<char>> {
        match self.exited {
            Some(s) => Some(s@),
            None => None,
        }
    }

    pub closed spec fn fp(&self) -> u64 {
        self.finger_print
    }

    pub closed spec fn dispatched(&self) -> u64 {
        self.event_num
    }

    pub closed spec fn init_done(&self) -> nat {
        self.init_stage as nat
    }

    /// Whether the instant being completed is an initialization round.
    pub closed spec fn in_init_round(&self) -> bool {
        self.dispatching_init
    }

    pub closed spec fn settings(&self) -> Config {
        self.config
    }

    pub closed spec fn wf(&self) -> bool {
        &&& self.components.wf()
        &&& self.store.wf()
        &&& self.active@.len() == self.components@.len()
        &&& self.removed@.len() == self.components@.len()
        &&& self.scheduled.wf()
        &&& self.current_time.0 >= 0
        &&& forall|i: int| 0 <= i < self.scheduled@.len() ==> (#[trigger] self.scheduled@[i]).time.0 >= self.current_time.0
        &&& self.config.time_units > 0
        &&& self.init_stage <= self.config.num_init_stages
        &&& self.init_stage < self.config.num_init_stages ==> {
            &&& self.current_time.0 == 0
            &&& forall|i: int| 0 <= i < self.scheduled@.len() ==> (#[trigger] self.scheduled@[i]).time.0 >= 1
        }
    }

    pub fn new(config: Config) -> (r: Simulation<P>)
        requires
            config.time_units > 0,
            config.num_init_stages > 0,
        ensures
            r.wf(),
            r.tree().len() == 0,
            r.now() == 0,
            r.pending().len() == 0,
            r.exit_reason() is None,
            r.fp() == 0,
            r.dispatched() == 0,
            r.init_done() == 0,
            r.state().edition == 0,
            r.state().ints.is_empty(),
            r.state().floats.is_empty(),
            r.state().texts.is_empty(),
            r.settings() == config,
            r.comps().max_path() == config.max_log_path,
    {
        let max_log_path = config.max_log_path;
        Simulation {
            store: Arc::new(Store::new()),
            components: Arc::new(Components::new(max_log_path)),
            active: Vec::new(),
            removed: Vec::new(),
            config,
            current_time: Time(0),
            exited: None,
            scheduled: Scheduler::new(),
            event_num: 0,
            finger_print: 0,
            init_stage: 0,
            dispatching_init: false,
        }
    }

    pub fn components(&self) -> (r: &Components)
        ensures
            *r == self.comps(),
    {
        &self.components
    }

    pub fn store(&self) -> (r: &Store)
        ensures
            r@ == self.state(),
            self.wf() ==> r.wf(),
    {
        &self.store
    }

    pub fn config(&self) -> (r: &Config)
        ensures
            *r == self.settings(),
    {
        &self.config
    }

    /// The pending events.
    pub fn scheduled(&self) -> (r: &Scheduler<P>)
        ensures
            r@ == self.pending(),
            self.wf() ==> r.wf(),
    {
        &self.scheduled
    }

    pub fn current_time(&self) -> (r: Time)
        ensures
            r.0 == self.now(),
    {
        self.current_time
    }

    pub fn finger_print(&self) -> (r: u64)
        ensures
            r == self.fp(),
    {
        self.finger_print
    }

    pub fn event_num(&self) -> (r: u64)
        ensures
            r == self.dispatched(),
    {
        self.event_num
    }

    pub fn exited(&self) -> (r: Option<&String>)
        ensures
            r is None <==> self.exit_reason() is None,
            r matches Some(s) ==> self.exit_reason() == Some(s@),
    {
        self.exited.as_ref()
    }

    /// Whether the component has been removed.
    pub fn is_removed(&self, id: ComponentID) -> (r: bool)
        requires
            self.wf(),
        ensures
            r == (0 <= id.0 < self.tree().len() && self.removed_flags()[id.0 as int]),
    {
        id.0 < self.removed.len() && self.removed[id.0]
    }

    /// Whether the component has a worker.
    pub fn is_active(&self, id: ComponentID) -> (r: bool)
        requires
            self.wf(),
        ensures
            r == (0 <= id.0 < self.tree().len() && self.active_flags()[id.0 as int]),
    {
        id.0 < self.active.len() && self.active[id.0]
    }

    /// The snapshot handed to workers with each event.
    pub fn snapshot(&self) -> (r: SimState)
        requires
            self.wf(),
        ensures
            r.wf(),
            *r.components == self.comps(),
            r.store@ == self.state(),
    {
        SimState { components: share(&self.components), store: share(&self.store) }
    }

    /// Decides what happens next: the initialization rounds first, then, until the run
    /// stops, one instant at a time.
    pub fn step(&mut self) -> (r: Result<Step<P>, SimError>)
        requires
            old(self).wf(),
        ensures
            final(self).wf(),
            old(self).init_done() < old(self).settings().num_init_stages ==> {
                &&& r matches Ok(Step::Dispatch { time, deliveries }) && init_round(*old(self), *final(self), time, deliveries@)
                &&& dispatch_frame(*old(self), *final(self))
                &&& final(self).in_init_round()
            },
            old(self).init_done() >= old(self).settings().num_init_stages ==> {
                &&& old(self).exit_reason() matches Some(why) ==> (r matches Ok(Step::Done { reason }) && reason@ == why)
                    && *final(self) == *old(self)
                &&& old(self).exit_reason() is None && old(self).pending().len() == 0 ==> stops(
                    *old(self),
                    *final(self),
                    r,
                    "no events"@,
                )
                &&& old(self).exit_reason() is None && old(self).pending().len() > 0 && old(self).now()
                    >= max_time_of(old(self).settings()) ==> stops(*old(self), *final(self), r, "reached max_secs"@)
                &&& old(self).exit_reason() is None && old(self).pending().len() > 0 && old(self).now()
                    < max_time_of(old(self).settings()) ==> {
                    &&& dispatch_frame(*old(self), *final(self))
                    &&& r matches Ok(Step::Dispatch { time, deliveries }) ==> instant(*old(self), *final(self), time, deliveries@)
                    &&& r is Err ==> inactive_error(*old(self), r)
                    &&& earliest_active(*old(self)) ==> r is Ok
                    &&& !final(self).in_init_round()
                    &&& r is Ok ==> r matches Ok(Step::Dispatch { time: _, deliveries: _ })
                }
            },
    {
        if self.init_stage < self.config.num_init_stages {
            let deliveries = self.dispatch_init();
            return Ok(Step::Dispatch { time: Time(0), deliveries });
        }
        match &self.exited {
            Some(why) => {
                return Ok(Step::Done { reason: why.clone() });
            },
            None => {},
        }
        if self.scheduled.is_empty() {
            let why = String::from_str("no events");
            self.exited = Some(why.clone());
            return Ok(Step::Done { reason: why });
        }
        if self.current_time.0 >= self.config.max_time() {
            let why = String::from_str("reached max_secs");
            self.exited = Some(why.clone());
            return Ok(Step::Done { reason: why });
        }
        self.dispatching_init = false;
        match self.dispatch_instant() {
            Ok((time, deliveries)) => Ok(Step::Dispatch { time, deliveries }),
            Err(e) => Err(e),
        }
    }

    /// Applies the effectors returned for the last dispatched instant, each paired with
    /// the id of the component that produced it, and returns the log lines they hold.
    #[verifier::loop_isolation(false)]
    pub fn complete(&mut self, effects: Vec<(ComponentID, Effector<P>)>) -> (r: Result<Vec<LogLine>, SimError>)
        requires
            old(self).wf(),
            forall|j: int| 0 <= j < effects@.len() ==> (#[trigger] effects@[j]).1.wf(),
        ensures
            final(self).wf(),
            r matches Ok(logs) ==> completed(*old(self), *final(self), effects@, logs@),
            r == Err::<Vec<LogLine>, SimError>(SimError::SnapshotRetained) ==> *final(self) == *old(self),
            r is Err && r != Err::<Vec<LogLine>, SimError>(SimError::SnapshotRetained) ==> {
                &&& store_after(effects@, old(self).removed_flags(), old(self).tree(), old(self).state(), old(self).now()) is None
                &&& r matches Err(SimError::AlreadySet { key: _ })
            },
    {
        let mut tmp = Arc::new(Store::new());
        std::mem::swap(&mut tmp, &mut self.store);
        let mut store = match try_unwrap(tmp) {
            Ok(st) => st,
            Err(a) => {
                self.store = a;
                return Err(SimError::SnapshotRetained);
            },
        };
        let ghost orig = effects@;
        let ghost rb = self.removed@;
        let ghost s0 = self.scheduled@;
        let ghost st0 = store@;
        let ghost tree = self.components@;
        let n = self.removed.len();
        let mut before: Vec<bool> = Vec::new();
        let mut k: usize = 0;
        while k < n
            invariant
                k <= n,
                n == self.removed@.len(),
                before@ == self.removed@.subrange(0, k as int),
            decreases n - k,
        {
            before.push(self.removed[k]);
            proof {
                assert(before@ =~= self.removed@.subrange(0, k + 1));
            }
            k += 1;
        }
        proof {
            assert(before@ =~= rb);
            assert(removal_after(orig, rb, tree, 0, 0) =~= rb);
            lemma_total_none(orig, consumed_sel(orig, rb, 0, 0), orig.len() as int, log_count());
            lemma_total_none(orig, consumed_sel(orig, rb, 0, 0), orig.len() as int, event_count());
            lemma_queued_none(orig, consumed_sel(orig, rb, 0, 0), orig.len() as int, self.current_time.0, self.config.time_units as nat);
            assert(s0.to_multiset().add(Multiset::<ScheduledEntry<P>>::empty()) =~= s0.to_multiset());
            assert forall|i: int| 0 <= i < s0.len() implies s0.contains(#[trigger] s0[i]) by {}
        }
        let mut effects = effects;
        let mut logs: Vec<LogLine> = Vec::new();
        let mut any_exit = false;
        let now = self.current_time;
        let mut id: usize = 0;
        while id < n
            invariant
                self.wf(),
                store.wf(),
                *self.components == *old(self).components,
                self.active@ == old(self).active@,
                self.current_time == now,
                now == old(self).current_time,
                self.exit_reason() == old(self).exit_reason(),
                self.config == old(self).config,
                self.finger_print == old(self).finger_print,
                self.event_num == old(self).event_num,
                self.init_stage == old(self).init_stage,
                self.dispatching_init == old(self).dispatching_init,
                tree == self.components@,
                rb == old(self).removed@,
                s0 == old(self).scheduled@,
                st0 == old(self).store@,
                before@ == rb,
                n == rb.len(),
                id <= n,
                effects@.len() == orig.len(),
                forall|j: int| 0 <= j < orig.len() && #[trigger] consumed(orig, rb, j, id as int, 0) ==> effects@[j].0.0 == 0,
                forall|j: int| 0 <= j < orig.len() && !#[trigger] consumed(orig, rb, j, id as int, 0) ==> effects@[j] == orig[j],
                forall|j: int| 0 <= j < orig.len() ==> (#[trigger] effects@[j]).1.wf(),
                any_exit == exit_after(orig, rb, id as int, 0),
                self.removed@ == removal_after(orig, rb, tree, id as int, 0),
                logs_ok(logs@, rb, now.0),
                logs@.len() == total(orig, consumed_sel(orig, rb, id as int, 0), orig.len() as int, log_count()),
                self.scheduled@.len() == s0.len() + total(orig, consumed_sel(orig, rb, id as int, 0), orig.len() as int, event_count()),
                from_effectors(s0, self.scheduled@, now.0, self.config.time_units as nat, orig, consumed_sel(orig, rb, id as int, 0)),
                store_upto(orig, rb, tree, st0, now.0, id as int, 0) == Some(store@),
                self.scheduled@.to_multiset() == s0.to_multiset().add(
                    queued(orig, consumed_sel(orig, rb, id as int, 0), orig.len() as int, now.0, self.config.time_units as nat),
                ),
                forall|a: int| 0 <= a < logs@.len() ==> (#[trigger] logs@[a]).component.0 < id,
                (forall|j: int| 0 <= j < orig.len() ==> !#[trigger] consumed(orig, rb, j, id as int, 0)) ==> {
                    &&& self.scheduled@ == s0
                    &&& store@ == st0
                    &&& logs@.len() == 0
                },
            decreases n - id,
        {
            if !before[id] {
                let mut jj: usize = 0;
                while jj < effects.len()
                    invariant
                        self.wf(),
                        store.wf(),
                        *self.components == *old(self).components,
                        self.active@ == old(self).active@,
                        self.current_time == now,
                        now == old(self).current_time,
                        self.exit_reason() == old(self).exit_reason(),
                        self.config == old(self).config,
                        self.finger_print == old(self).finger_print,
                        self.event_num == old(self).event_num,
                        self.init_stage == old(self).init_stage,
                        self.dispatching_init == old(self).dispatching_init,
                        tree == self.components@,
                        rb == old(self).removed@,
                        s0 == old(self).scheduled@,
                        st0 == old(self).store@,
                        before@ == rb,
                        n == rb.len(),
                        id < n,
                        !rb[id as int],
                        jj <= effects@.len(),
                        effects@.len() == orig.len(),
                        forall|j: int| 0 <= j < orig.len() && #[trigger] consumed(orig, rb, j, id as int, jj as int) ==> effects@[j].0.0 == 0,
                        forall|j: int| 0 <= j < orig.len() && !#[trigger] consumed(orig, rb, j, id as int, jj as int) ==> effects@[j] == orig[j],
                        forall|j: int| 0 <= j < orig.len() ==> (#[trigger] effects@[j]).1.wf(),
                        any_exit == exit_after(orig, rb, id as int, jj as int),
                        self.removed@ == removal_after(orig, rb, tree, id as int, jj as int),
                        logs_ok(logs@, rb, now.0),
                        logs@.len() == total(orig, consumed_sel(orig, rb, id as int, jj as int), orig.len() as int, log_count()),
                        self.scheduled@.len() == s0.len() + total(orig, consumed_sel(orig, rb, id as int, jj as int), orig.len() as int, event_count()),
                        from_effectors(s0, self.scheduled@, now.0, self.config.time_units as nat, orig, consumed_sel(orig, rb, id as int, jj as int)),
                        store_upto(orig, rb, tree, st0, now.0, id as int, jj as int) == Some(store@),
                        self.scheduled@.to_multiset() == s0.to_multiset().add(
                            queued(orig, consumed_sel(orig, rb, id as int, jj as int), orig.len() as int, now.0, self.config.time_units as nat),
                        ),
                        forall|a: int| 0 <= a < logs@.len() ==> (#[trigger] logs@[a]).component.0 <= id,
                        (forall|j: int| 0 <= j < orig.len() ==> !#[trigger] consumed(orig, rb, j, id as int, jj as int)) ==> {
                            &&& self.scheduled@ == s0
                            &&& store@ == st0
                            &&& logs@.len() == 0
                        },
                    decreases effects@.len() - jj,
                {
                    let matches_id = effects[jj].0.0 == id;
                    proof {
                        if consumed(orig, rb, jj as int, id as int, jj as int) {
                            assert(orig[jj as int].0.0 < id);
                        }
                    }
                    if matches_id {
                        proof {
                            assert(!consumed(orig, rb, jj as int, id as int, jj as int));
                            assert(effects@[jj as int] == orig[jj as int]);
                        }
                        let ghost e_before = effects@;
                        let mut taken = (ComponentID(0), Effector::new());
                        std::mem::swap(&mut taken, &mut effects[jj]);
                        let (cid, eff) = taken;
                        proof {
                            assert(cid == orig[jj as int].0);
                            assert(eff == orig[jj as int].1);
                            assert forall|j: int| 0 <= j < orig.len() && j != jj implies effects@[j] == e_before[j] by {}
                        }
                        if eff.exit {
                            any_exit = true;
                        }
                        let ghost logs_before = logs@;
                        let ghost pend_before = self.scheduled@;
                        let ghost rm_before = self.removed@;
                        let ghost eff_removed = eff.removed;
                        let ghost store_before = store@;
                        match self.apply_effects(&mut store, cid, eff, &mut logs) {
                            Ok(()) => {},
                            Err(e) => {
                                proof {
                                    assert(store_upto(orig, rb, tree, st0, now.0, id as int, jj + 1) is None);
                                    lemma_upto_none(orig, rb, tree, st0, now.0, id as int, jj + 1, n as int);
                                }
                                return Err(e);
                            },
                        }
                        proof {
                            assert(store_upto(orig, rb, tree, st0, now.0, id as int, jj + 1) == Some(store@));
                            lemma_queued_add(orig, consumed_sel(orig, rb, id as int, jj as int), consumed_sel(orig, rb, id as int, jj + 1), jj as int, orig.len() as int, now.0, self.config.time_units as nat);
                            assert(self.scheduled@.to_multiset() =~= s0.to_multiset().add(
                                queued(orig, consumed_sel(orig, rb, id as int, jj + 1), orig.len() as int, now.0, self.config.time_units as nat),
                            ));
                        }
                        proof {
                            assert forall|j: int| 0 <= j < orig.len() implies #[trigger] consumed(orig, rb, j, id as int, jj + 1)
                                == (consumed(orig, rb, j, id as int, jj as int) || j == jj) by {}
                            assert(consumed(orig, rb, jj as int, id as int, jj + 1));
                            lemma_total_add(orig, consumed_sel(orig, rb, id as int, jj as int), consumed_sel(orig, rb, id as int, jj + 1), jj as int, orig.len() as int, log_count());
                            lemma_total_add(orig, consumed_sel(orig, rb, id as int, jj as int), consumed_sel(orig, rb, id as int, jj + 1), jj as int, orig.len() as int, event_count());
                            lemma_from_effectors_step(s0, pend_before, self.scheduled@, now.0, self.config.time_units as nat, orig, consumed_sel(orig, rb, id as int, jj as int), consumed_sel(orig, rb, id as int, jj + 1), jj as int);
                            assert(!(forall|j: int| 0 <= j < orig.len() ==> !#[trigger] consumed(orig, rb, j, id as int, jj + 1)));
                            assert(any_exit == exit_after(orig, rb, id as int, jj + 1)) by {
                                if orig[jj as int].1.exit {
                                    assert(consumed(orig, rb, jj as int, id as int, jj + 1));
                                }
                                if exit_after(orig, rb, id as int, jj + 1) && !orig[jj as int].1.exit {
                                    let j = choose|j: int| 0 <= j < orig.len() && #[trigger] consumed(orig, rb, j, id as int, jj + 1) && orig[j].1.exit;
                                    assert(consumed(orig, rb, j, id as int, jj as int));
                                }
                                if exit_after(orig, rb, id as int, jj as int) {
                                    let j = choose|j: int| 0 <= j < orig.len() && #[trigger] consumed(orig, rb, j, id as int, jj as int) && orig[j].1.exit;
                                    assert(consumed(orig, rb, j, id as int, jj + 1));
                                }
                            }
                            assert(self.removed@ =~= removal_after(orig, rb, tree, id as int, jj + 1)) by {
                                assert forall|k: int| 0 <= k < n implies self.removed@[k] == removal_after(orig, rb, tree, id as int, jj + 1)[k] by {
                                    if eff_removed && in_subtree(tree, cid.0 as int, k) {
                                        assert(consumed(orig, rb, jj as int, id as int, jj + 1));
                                    }
                                    if rm_before[k] && !rb[k] {
                                        let j = choose|j: int|
                                            0 <= j < orig.len() && #[trigger] consumed(orig, rb, j, id as int, jj as int) && orig[j].1.removed
                                                && in_subtree(tree, orig[j].0.0 as int, k);
                                        assert(consumed(orig, rb, j, id as int, jj + 1));
                                    }
                                    if removal_after(orig, rb, tree, id as int, jj + 1)[k] && !rb[k] {
                                        let j = choose|j: int|
                                            0 <= j < orig.len() && #[trigger] consumed(orig, rb, j, id as int, jj + 1) && orig[j].1.removed
                                                && in_subtree(tree, orig[j].0.0 as int, k);
                                        if j != jj {
                                            assert(consumed(orig, rb, j, id as int, jj as int));
                                        }
                                    }
                                }
                            }
                            assert forall|a: int, b: int| 0 <= a < b < logs@.len() implies (#[trigger] logs@[a]).component.0
                                <= (#[trigger] logs@[b]).component.0 by {
                                if a < logs_before.len() {
                                    assert(logs@[a] == logs_before[a]);
                                    if b < logs_before.len() {
                                        assert(logs@[b] == logs_before[b]);
                                    }
                                }
                            }
                            assert forall|a: int| 0 <= a < logs@.len() implies (#[trigger] logs@[a]).time.0 == now.0 && takes_effect(rb, logs@[a].component) && logs@[a].component.0 <= id by {
                                if a < logs_before.len() {
                                    assert(logs@[a] == logs_before[a]);
                                }
                            }
                        }
                    } else {
                        proof {
                            assert forall|j: int| 0 <= j < orig.len() implies #[trigger] consumed(orig, rb, j, id as int, jj + 1)
                                == consumed(orig, rb, j, id as int, jj as int) by {
                                if j == jj && !consumed(orig, rb, j, id as int, jj as int) {
                                    assert(effects@[j] == orig[j]);
                                }
                            }
                            lemma_removal_eq(orig, rb, tree, id as int, jj + 1, id as int, jj as int);
                            lemma_total_same(orig, consumed_sel(orig, rb, id as int, jj + 1), consumed_sel(orig, rb, id as int, jj as int), orig.len() as int, log_count());
                            lemma_total_same(orig, consumed_sel(orig, rb, id as int, jj + 1), consumed_sel(orig, rb, id as int, jj as int), orig.len() as int, event_count());
                            lemma_from_effectors_same(s0, self.scheduled@, now.0, self.config.time_units as nat, orig, consumed_sel(orig, rb, id as int, jj as int), consumed_sel(orig, rb, id as int, jj + 1));
                            lemma_queued_same(orig, consumed_sel(orig, rb, id as int, jj + 1), consumed_sel(orig, rb, id as int, jj as int), orig.len() as int, now.0, self.config.time_units as nat);
                            if forall|j: int| 0 <= j < orig.len() ==> !#[trigger] consumed(orig, rb, j, id as int, jj + 1) {
                                assert forall|j: int| 0 <= j < orig.len() implies !#[trigger] consumed(orig, rb, j, id as int, jj as int) by {
                                    assert(consumed(orig, rb, j, id as int, jj + 1) == consumed(orig, rb, j, id as int, jj as int));
                                }
                            }
                        }
                    }
                    jj += 1;
                }
                proof {
                    assert forall|j: int| 0 <= j < orig.len() implies #[trigger] consumed(orig, rb, j, id + 1, 0)
                        == consumed(orig, rb, j, id as int, jj as int) by {}
                    lemma_removal_eq(orig, rb, tree, id + 1, 0, id as int, jj as int);
                    lemma_total_same(orig, consumed_sel(orig, rb, id + 1, 0), consumed_sel(orig, rb, id as int, jj as int), orig.len() as int, log_count());
                    lemma_total_same(orig, consumed_sel(orig, rb, id + 1, 0), consumed_sel(orig, rb, id as int, jj as int), orig.len() as int, event_count());
                    lemma_from_effectors_same(s0, self.scheduled@, now.0, self.config.time_units as nat, orig, consumed_sel(orig, rb, id as int, jj as int), consumed_sel(orig, rb, id + 1, 0));
                    lemma_queued_same(orig, consumed_sel(orig, rb, id + 1, 0), consumed_sel(orig, rb, id as int, jj as int), orig.len() as int, now.0, self.config.time_units as nat);
                    if forall|j: int| 0 <= j < orig.len() ==> !#[trigger] consumed(orig, rb, j, id + 1, 0) {
                        assert forall|j: int| 0 <= j < orig.len() implies !#[trigger] consumed(orig, rb, j, id as int, jj as int) by {
                            assert(consumed(orig, rb, j, id + 1, 0) == consumed(orig, rb, j, id as int, jj as int));
                        }
                    }
                }
            } else {
                proof {
                    assert forall|j: int| 0 <= j < orig.len() implies #[trigger] consumed(orig, rb, j, id + 1, 0)
                        == consumed(orig, rb, j, id as int, 0) by {}
                    lemma_removal_eq(orig, rb, tree, id + 1, 0, id as int, 0);
                    lemma_upto_skip(orig, rb, tree, st0, now.0, id as int, orig.len() as int);
                    lemma_total_same(orig, consumed_sel(orig, rb, id + 1, 0), consumed_sel(orig, rb, id as int, 0), orig.len() as int, log_count());
                    lemma_total_same(orig, consumed_sel(orig, rb, id + 1, 0), consumed_sel(orig, rb, id as int, 0), orig.len() as int, event_count());
                    lemma_from_effectors_same(s0, self.scheduled@, now.0, self.config.time_units as nat, orig, consumed_sel(orig, rb, id as int, 0), consumed_sel(orig, rb, id + 1, 0));
                    lemma_queued_same(orig, consumed_sel(orig, rb, id + 1, 0), consumed_sel(orig, rb, id as int, 0), orig.len() as int, now.0, self.config.time_units as nat);
                    if forall|j: int| 0 <= j < orig.len() ==> !#[trigger] consumed(orig, rb, j, id + 1, 0) {
                        assert forall|j: int| 0 <= j < orig.len() implies !#[trigger] consumed(orig, rb, j, id as int, 0) by {
                            assert(consumed(orig, rb, j, id + 1, 0) == consumed(orig, rb, j, id as int, 0));
                        }
                    }
                }
            }
            id += 1;
        }
        proof {
            assert forall|j: int| 0 <= j < orig.len() implies #[trigger] consumed(orig, rb, j, n as int, 0)
                == takes_effect(rb, orig[j].0) by {}
            lemma_removal_final(orig, rb, tree);
            lemma_total_same(orig, consumed_sel(orig, rb, n as int, 0), effective(orig, rb), orig.len() as int, log_count());
            lemma_total_same(orig, consumed_sel(orig, rb, n as int, 0), effective(orig, rb), orig.len() as int, event_count());
            lemma_from_effectors_same(s0, self.scheduled@, now.0, self.config.time_units as nat, orig, consumed_sel(orig, rb, n as int, 0), effective(orig, rb));
            lemma_queued_same(orig, consumed_sel(orig, rb, n as int, 0), effective(orig, rb), orig.len() as int, now.0, self.config.time_units as nat);
        }
        if any_exit {
            self.exited = Some(
                if self.dispatching_init {
                    String::from_str("Effector.exit was called during initialization")
                } else {
                    String::from_str("effector.exit was called")
                },
            );
        }
        self.store = Arc::new(store);
        Ok(logs)
    }

    /// Applies an effector for component `id` outside of any instant, typically to set
    /// up state or schedule first events while building a simulation. Returns its log
    /// lines.
    pub fn apply(&mut self, id: ComponentID, effects: Effector<P>) -> (r: Result<Vec<LogLine>, SimError>)
        requires
            old(self).wf(),
            effects.wf(),
            !effects.exit,
            id.0 < old(self).tree().len(),
        ensures
            final(self).wf(),
            r is Ok ==> apply_one(old(self).state(), old(self).tree(), id.0 as int, effects, old(self).now()) == Some(final(self).state()),
            r == Err::<Vec<LogLine>, SimError>(SimError::SnapshotRetained) ==> *final(self) == *old(self),
            r is Err && r != Err::<Vec<LogLine>, SimError>(SimError::SnapshotRetained) ==> {
                &&& apply_one(old(self).state(), old(self).tree(), id.0 as int, effects, old(self).now()) is None
                &&& r matches Err(SimError::AlreadySet { key: _ })
            },
            r is Ok ==> {
                &&& final(self).now() == old(self).now()
                &&& final(self).tree() == old(self).tree()
                &&& final(self).exit_reason() == old(self).exit_reason()
                &&& final(self).removed_flags() =~= Seq::new(
                    old(self).tree().len(),
                    |k: int| old(self).removed_flags()[k] || (effects.removed && in_subtree(old(self).tree(), id.0 as int, k)),
                )
                &&& pending_from(
                    old(self).pending(),
                    final(self).pending(),
                    old(self).now(),
                    old(self).settings().time_units as nat,
                    effects.events@,
                )
                &&& final(self).pending().len() == old(self).pending().len() + effects.events@.len()
                &&& final(self).pending().to_multiset() == old(self).pending().to_multiset().add(
                    entries_of(effects.events@, old(self).now(), old(self).settings().time_units as nat).to_multiset(),
                )
            },
    {
        let mut tmp = Arc::new(Store::new());
        std::mem::swap(&mut tmp, &mut self.store);
        let mut store = match try_unwrap(tmp) {
            Ok(st) => st,
            Err(a) => {
                self.store = a;
                return Err(SimError::SnapshotRetained);
            },
        };
        let mut logs: Vec<LogLine> = Vec::new();
        let r = self.apply_effects(&mut store, id, effects, &mut logs);
        self.store = Arc::new(store);
        match r {
            Ok(()) => Ok(logs),
            Err(e) => Err(e),
        }
    }

    /// Writes `value` under the full `key` at the current time, as an inspection tool
    /// does between instants.
    pub fn set_int(&mut self, key: &str, value: i64) -> (r: Result<(), SimError>)
        requires
            old(self).wf(),
        ensures
            final(self).wf(),
            final(self).now() == old(self).now(),
            final(self).tree() == old(self).tree(),
            final(self).pending() == old(self).pending(),
            final(self).exit_reason() == old(self).exit_reason(),
            r is Ok ==> write_result(old(self).state().ints, old(self).state().edition, key@, value, old(self).now())
                == Some((final(self).state().ints, final(self).state().edition)),
            r is Err ==> final(self).state() == old(self).state(),
    {
        let mut tmp = Arc::new(Store::new());
        std::mem::swap(&mut tmp, &mut self.store);
        let mut store = match try_unwrap(tmp) {
            Ok(st) => st,
            Err(a) => {
                self.store = a;
                return Err(SimError::SnapshotRetained);
            },
        };
        let r = store.set_int(key, value, self.current_time);
        self.store = Arc::new(store);
        r
    }

    /// Writes `value` under the full `key` at the current time, as an inspection tool
    /// does between instants.
    pub fn set_float(&mut self, key: &str, value: u64) -> (r: Result<(), SimError>)
        requires
            old(self).wf(),
        ensures
            final(self).wf(),
            final(self).now() == old(self).now(),
            final(self).tree() == old(self).tree(),
            final(self).pending() == old(self).pending(),
            final(self).exit_reason() == old(self).exit_reason(),
            r is Ok ==> write_result(old(self).state().floats, old(self).state().edition, key@, value, old(self).now())
                == Some((final(self).state().floats, final(self).state().edition)),
            r is Err ==> final(self).state() == old(self).state(),
    {
        let mut tmp = Arc::new(Store::new());
        std::mem::swap(&mut tmp, &mut self.store);
        let mut store = match try_unwrap(tmp) {
            Ok(st) => st,
            Err(a) => {
                self.store = a;
                return Err(SimError::SnapshotRetained);
            },
        };
        let r = store.set_float(key, value, self.current_time);
        self.store = Arc::new(store);
        r
    }

    /// Writes `value` under the full `key` at the current time, as an inspection tool
    /// does between instants.
    pub fn set_string(&mut self, key: &str, value: &str) -> (r: Result<(), SimError>)
        requires
            old(self).wf(),
        ensures
            final(self).wf(),
            final(self).now() == old(self).now(),
            final(self).tree() == old(self).tree(),
            final(self).pending() == old(self).pending(),
            final(self).exit_reason() == old(self).exit_reason(),
            r is Ok ==> write_result(old(self).state().texts, old(self).state().edition, key@, value@, old(self).now())
                == Some((final(self).state().texts, final(self).state().edition)),
            r is Err ==> final(self).state() == old(self).state(),
    {
        let mut tmp = Arc::new(Store::new());
        std::mem::swap(&mut tmp, &mut self.store);
        let mut store = match try_unwrap(tmp) {
            Ok(st) => st,
            Err(a) => {
                self.store = a;
                return Err(SimError::SnapshotRetained);
            },
        };
        let r = store.set_string(key, value, self.current_time);
        self.store = Arc::new(store);
        r
    }

    /// Applies one effector of component `id`: its logs go to `logs`, its events are
    /// scheduled, its writes go to `store` under the component's path at the current
    /// time, and a removal removes the component's subtree.
    fn apply_effects(&mut self, store: &mut Store, id: ComponentID, eff: Effector<P>, logs: &mut Vec<LogLine>) -> (r: Result<(), SimError>)
        requires
            old(self).wf(),
            old(store).wf(),
            eff.wf(),
            id.0 < old(self).tree().len(),
        ensures
            final(self).wf(),
            final(store).wf(),
            dispatch_frame_but_removed(*old(self), *final(self)),
            final(self).now() == old(self).now(),
            final(self).fp() == old(self).fp(),
            final(self).dispatched() == old(self).dispatched(),
            final(self).init_done() == old(self).init_done(),
            final(self).in_init_round() == old(self).in_init_round(),
            r is Ok ==> apply_one(old(store)@, old(self).tree(), id.0 as int, eff, old(self).now()) == Some(final(store)@),
            r is Err ==> apply_one(old(store)@, old(self).tree(), id.0 as int, eff, old(self).now()) is None && (r matches Err(
                SimError::AlreadySet { key: _ },
            )),
            r is Ok ==> {
                &&& final(self).removed_flags() =~= Seq::new(
                    old(self).tree().len(),
                    |k: int| old(self).removed_flags()[k] || (eff.removed && in_subtree(old(self).tree(), id.0 as int, k)),
                )
                &&& final(logs)@.len() == old(logs)@.len() + eff.logs@.len()
                &&& final(logs)@.subrange(0, old(logs)@.len() as int) == old(logs)@
                &&& forall|k: int|
                    old(logs)@.len() <= k < final(logs)@.len() ==> {
                        &&& (#[trigger] final(logs)@[k]).component == id
                        &&& final(logs)@[k].time.0 == old(self).now()
                        &&& final(logs)@[k].level == eff.logs@[k - old(logs)@.len()].level
                        &&& final(logs)@[k].message@ == eff.logs@[k - old(logs)@.len()].message@
                    }
                &&& pending_from(
                    old(self).pending(),
                    final(self).pending(),
                    old(self).now(),
                    old(self).settings().time_units as nat,
                    eff.events@,
                )
                &&& final(self).pending().len() == old(self).pending().len() + eff.events@.len()
                &&& final(self).pending().to_multiset() == old(self).pending().to_multiset().add(
                    entries_of(eff.events@, old(self).now(), old(self).settings().time_units as nat).to_multiset(),
                )
            },
    {
        let now = self.current_time;
        let ghost l0 = logs@;
        let mut k: usize = 0;
        while k < eff.logs.len()
            invariant
                store@ == old(store)@,
                store.wf(),
                k <= eff.logs@.len(),
                logs@.len() == l0.len() + k,
                logs@.subrange(0, l0.len() as int) == l0,
                forall|x: int|
                    l0.len() <= x < logs@.len() ==> {
                        &&& (#[trigger] logs@[x]).component == id
                        &&& logs@[x].time == now
                        &&& logs@[x].level == eff.logs@[x - l0.len()].level
                        &&& logs@[x].message@ == eff.logs@[x - l0.len()].message@
                    },
            decreases eff.logs@.len() - k,
        {
            let rec = &eff.logs[k];
            let ghost before = logs@;
            logs.push(LogLine { time: now, component: id, level: rec.level, message: rec.message.clone() });
            proof {
                assert(logs@.subrange(0, l0.len() as int) =~= before.subrange(0, l0.len() as int));
                assert forall|x: int| l0.len() <= x < before.len() implies logs@[x] == before[x] by {}
            }
            k += 1;
        }
        let time_units = self.config.time_units;
        let ghost p0 = self.scheduled@;
        let ghost evs0 = eff.events@;
        let mut evs = eff.events;
        let total = evs.len();
        let mut done: usize = 0;
        proof {
            assert(entries_of(evs0.subrange(0, 0), now.0, time_units as nat) =~= Seq::<ScheduledEntry<P>>::empty());
            assert(Seq::<ScheduledEntry<P>>::empty().to_multiset() =~= Multiset::<ScheduledEntry<P>>::empty()) by {
                broadcast use vstd::seq_lib::group_to_multiset_ensures;
            }
            assert(p0.to_multiset().add(Multiset::<ScheduledEntry<P>>::empty()) =~= p0.to_multiset());
        }
        while evs.len() > 0
            invariant
                store@ == old(store)@,
                store.wf(),
                self.wf(),
                *self.components == *old(self).components,
                self.store@ == old(self).store@,
                self.active@ == old(self).active@,
                self.removed@ == old(self).removed@,
                self.current_time == now,
                self.exited == old(self).exited,
                self.config == old(self).config,
                self.finger_print == old(self).finger_print,
                self.event_num == old(self).event_num,
                self.init_stage == old(self).init_stage,
                self.dispatching_init == old(self).dispatching_init,
                p0 == old(self).scheduled@,
                time_units == self.config.time_units,
                done <= evs0.len(),
                evs@ == evs0.subrange(done as int, evs0.len() as int),
                evs@.len() + done == evs0.len(),
                evs0.len() == total,
                self.scheduled@.len() == p0.len() + done,
                pending_from(p0, self.scheduled@, now.0, time_units as nat, evs0),
                self.scheduled@.to_multiset() == p0.to_multiset().add(
                    entries_of(evs0.subrange(0, done as int), now.0, time_units as nat).to_multiset(),
                ),
            decreases evs@.len(),
        {
            let (to, event, delay) = evs.remove(0);
            proof {
                assert(evs0[done as int] == (to, event, delay));
            }
            let time = delivery_time(now, &delay, time_units);
            let entry = ScheduledEntry { time, target: to, event };
            let ghost before = self.scheduled@;
            self.scheduled.push(entry);
            proof {
                let at = choose|at: int| 0 <= at <= before.len() && self.scheduled@ == before.insert(at, entry);
                assert(entry == entry_for(now.0, time_units as nat, evs0[done as int]));
                assert forall|i: int| 0 <= i < self.scheduled@.len() implies p0.contains(#[trigger] self.scheduled@[i])
                    || exists|kk: int| 0 <= kk < evs0.len() && self.scheduled@[i] == entry_for(now.0, time_units as nat, #[trigger] evs0[kk]) by {
                    if i < at {
                        assert(self.scheduled@[i] == before[i]);
                    } else if i > at {
                        assert(self.scheduled@[i] == before[i - 1]);
                    }
                }
                assert(evs@ =~= evs0.subrange(done + 1, evs0.len() as int));
                assert(entries_of(evs0.subrange(0, done + 1), now.0, time_units as nat) =~= entries_of(
                    evs0.subrange(0, done as int),
                    now.0,
                    time_units as nat,
                ).push(entry));
                vstd::seq_lib::to_multiset_insert(before, at, entry);
                vstd::seq_lib::to_multiset_build(entries_of(evs0.subrange(0, done as int), now.0, time_units as nat), entry);
                assert(self.scheduled@.to_multiset() =~= p0.to_multiset().add(
                    entries_of(evs0.subrange(0, done + 1), now.0, time_units as nat).to_multiset(),
                ));
            }
            done += 1;
        }
        proof {
            assert(evs0.subrange(0, done as int) =~= evs0);
        }
        match write_patch(&self.components, store, id, &eff.store, now) {
            Ok(()) => {},
            Err(e) => {
                return Err(e);
            },
        }
        if eff.removed {
            self.remove_subtree(store, id.0)
        } else {
            proof {
                assert(self.removed@ =~= Seq::new(
                    old(self).tree().len(),
                    |k: int| old(self).removed_flags()[k] || (eff.removed && in_subtree(old(self).tree(), id.0 as int, k)),
                ));
            }
            Ok(())
        }
    }

    /// Marks `id` and all its descendants removed, and writes `removed = 1` under each
    /// of their paths at the current time.
    fn remove_subtree(&mut self, store: &mut Store, id: usize) -> (r: Result<(), SimError>)
        requires
            old(self).wf(),
            old(store).wf(),
            id < old(self).tree().len(),
        ensures
            final(self).wf(),
            final(store).wf(),
            dispatch_frame_but_removed(*old(self), *final(self)),
            final(self).pending() == old(self).pending(),
            final(self).now() == old(self).now(),
            final(self).fp() == old(self).fp(),
            final(self).dispatched() == old(self).dispatched(),
            final(self).init_done() == old(self).init_done(),
            final(self).in_init_round() == old(self).in_init_round(),
            r is Ok ==> final(self).removed_flags() =~= Seq::new(
                old(self).tree().len(),
                |k: int| old(self).removed_flags()[k] || in_subtree(old(self).tree(), id as int, k),
            ),
            r is Ok ==> removal_from(old(store)@, old(self).tree(), id as int, old(self).now(), old(self).tree().len() as int)
                == Some(final(store)@),
            r is Err ==> removal_from(old(store)@, old(self).tree(), id as int, old(self).now(), old(self).tree().len() as int)
                is None && (r matches Err(SimError::AlreadySet { key: _ })),
    {
        let ghost st0 = store@;
        let n = self.removed.len();
        let ghost tree = self.components@;
        let ghost rm0 = self.removed@;
        let mut mark: Vec<bool> = Vec::new();
        let mut k: usize = 0;
        while k < n
            invariant
                k <= n,
                mark@.len() == k,
                forall|x: int| 0 <= x < k ==> !(#[trigger] mark@[x]),
            decreases n - k,
        {
            mark.push(false);
            k += 1;
        }
        proof {
            assert forall|x: int| 0 <= x < id implies !in_subtree(tree, id as int, x) by {
                if is_ancestor(tree, id as int, x) {
                    crate::components::lemma_ancestor_lt(tree, id as int, x);
                }
            }
        }
        assert(self.removed@ =~= Seq::new(n as nat, |x: int| rm0[x] || (x < id && in_subtree(tree, id as int, x))));
        let mut i: usize = id;
        while i < n
            invariant
                self.wf(),
                store.wf(),
                *self.components == *old(self).components,
                self.store@ == old(self).store@,
                self.active@ == old(self).active@,
                self.scheduled@ == old(self).scheduled@,
                self.current_time == old(self).current_time,
                self.exited == old(self).exited,
                self.config == old(self).config,
                self.finger_print == old(self).finger_print,
                self.event_num == old(self).event_num,
                self.init_stage == old(self).init_stage,
                self.dispatching_init == old(self).dispatching_init,
                tree == self.components@,
                n == tree.len(),
                rm0 == old(self).removed@,
                id <= i <= n,
                mark@.len() == n,
                forall|x: int| 0 <= x < i ==> (#[trigger] mark@[x]) == (x >= id && in_subtree(tree, id as int, x)),
                forall|x: int| i <= x < n ==> !(#[trigger] mark@[x]),
                self.removed@ =~= Seq::new(n as nat, |x: int| rm0[x] || (x < i && in_subtree(tree, id as int, x))),
                st0 == old(store)@,
                removal_from(st0, tree, id as int, self.current_time.0, i as int) == Some(store@),
            decreases n - i,
        {
            let inside = if i == id {
                true
            } else {
                let p = self.components.get(ComponentID(i)).parent;
                proof {
                    assert(tree[i as int].parent.0 < i);
                    if p.0 < id {
                        if is_ancestor(tree, id as int, p.0 as int) {
                            crate::components::lemma_ancestor_lt(tree, id as int, p.0 as int);
                        }
                    }
                    if is_ancestor(tree, id as int, i as int) {
                        assert(p.0 == id || is_ancestor(tree, id as int, p.0 as int));
                    }
                }
                mark[p.0]
            };
            proof {
                assert(inside == in_subtree(tree, id as int, i as int));
            }
            if inside {
                mark.set(i, true);
                self.removed.set(i, true);
                let mut key = self.components.full_path(ComponentID(i));
                key.append(".removed");
                proof {
                    reveal_strlit(".removed");
                    assert(key@ =~= path_of(tree, i as int) + removed_suffix());
                    assert(key@.len() > 0);
                }
                match store.set_int(key.as_str(), 1, self.current_time) {
                    Ok(()) => {},
                    Err(e) => {
                        proof {
                            lemma_removal_none(st0, tree, id as int, self.current_time.0, i + 1, n as int);
                        }
                        return Err(e);
                    },
                }
            }
            i += 1;
        }
        Ok(())
    }

    /// Dispatches initialization round `init_done()` at time 0.
    fn dispatch_init(&mut self) -> (r: Vec<Delivery<P>>)
        requires
            old(self).wf(),
            old(self).init_done() < old(self).settings().num_init_stages,
        ensures
            final(self).wf(),
            init_round(*old(self), *final(self), Time(0), r@),
            dispatch_frame(*old(self), *final(self)),
            final(self).in_init_round(),
    {
        let stage = self.init_stage;
        let name = init_event_name(stage);
        let weight = name_weight_of(&name);
        let n = self.active.len();
        let mut deliveries: Vec<Delivery<P>> = Vec::new();
        let ghost fp0 = self.finger_print;
        let ghost e0 = self.event_num as int;
        proof {
            vstd::arithmetic::div_mod::lemma_small_mod(e0 as nat, 0x1_0000_0000_0000_0000);
        }
        let mut i: usize = 0;
        while i < n
            invariant
                *self.components == *old(self).components,
                self.store@ == old(self).store@,
                self.active@ == old(self).active@,
                self.removed@ == old(self).removed@,
                self.exited == old(self).exited,
                self.config == old(self).config,
                self.wf(),
                self.scheduled@ == old(self).scheduled@,
                self.current_time == old(self).current_time,
                self.init_stage == stage,
                stage < self.config.num_init_stages,
                n == self.active@.len(),
                name@ == init_name(stage as nat),
                weight == name_weight(name@),
                i <= n,
                self.finger_print == fp_fold(fp0, init_keys(self.active@, i as int, name@)),
                self.event_num as int == (e0 + init_keys(self.active@, i as int, name@).len()) % 0x1_0000_0000_0000_0000,
                forall|j: int|
                    0 <= j < deliveries@.len() ==> {
                        let t = (#[trigger] deliveries@[j]).target.0 as int;
                        &&& 0 <= t < i
                        &&& self.active@[t]
                        &&& !self.removed@[t]
                        &&& deliveries@[j].event.name@ == name@
                        &&& deliveries@[j].event.port_name@.len() == 0
                        &&& deliveries@[j].event.payload is None
                    },
                forall|j1: int, j2: int|
                    0 <= j1 < j2 < deliveries@.len() ==> (#[trigger] deliveries@[j1]).target.0 < (
                    #[trigger] deliveries@[j2]).target.0,
                forall|j: int|
                    0 <= j < deliveries@.len() ==> (#[trigger] deliveries@[j]).number as int == (e0 + init_keys(
                        self.active@,
                        deliveries@[j].target.0 as int,
                        name@,
                    ).len()) % 0x1_0000_0000_0000_0000,
                forall|t: int|
                    0 <= t < i && #[trigger] self.active@[t] && !self.removed@[t] ==> exists|j: int|
                        0 <= j < deliveries@.len() && (#[trigger] deliveries@[j]).target.0 == t,
            decreases n - i,
        {
            let ghost before = deliveries@;
            if self.active[i] {
                proof {
                    assert(init_keys(self.active@, i + 1, name@) == init_keys(self.active@, i as int, name@).push(
                        (0i64, i, name@),
                    ));
                    assert(init_keys(self.active@, i + 1, name@).drop_last() =~= init_keys(self.active@, i as int, name@));
                }
                self.finger_print = self.finger_print.wrapping_add(0).wrapping_add(i as u64).wrapping_add(weight);
                let number = self.event_num;
                proof {
                    vstd::arithmetic::div_mod::lemma_add_mod_noop(e0 + init_keys(self.active@, i as int, name@).len(), 1, 0x1_0000_0000_0000_0000);
                    vstd::arithmetic::div_mod::lemma_small_mod(1, 0x1_0000_0000_0000_0000);
                    vstd::arithmetic::div_mod::lemma_small_mod(self.event_num as nat, 0x1_0000_0000_0000_0000);
                }
                self.event_num = self.event_num.wrapping_add(1);
                if !self.removed[i] {
                    let event = Event { name: name.clone(), port_name: String::new(), payload: None };
                    deliveries.push(Delivery { target: ComponentID(i), event, number });
                    proof {
                        assert(deliveries@[deliveries@.len() - 1].target.0 == i);
                    }
                }
            } else {
                proof {
                    assert(init_keys(self.active@, i + 1, name@) == init_keys(self.active@, i as int, name@));
                }
            }
            proof {
                assert forall|t: int|
                    0 <= t < i + 1 && #[trigger] self.active@[t] && !self.removed@[t] implies exists|j: int|
                        0 <= j < deliveries@.len() && (#[trigger] deliveries@[j]).target.0 == t by {
                    if t < i {
                        let j = choose|j: int| 0 <= j < before.len() && (#[trigger] before[j]).target.0 == t;
                        assert(deliveries@[j] == before[j]);
                    } else {
                        assert(deliveries@[deliveries@.len() - 1].target.0 == i);
                    }
                }
            }
            i += 1;
        }
        self.init_stage = stage + 1;
        self.dispatching_init = true;
        deliveries
    }

    /// Dispatches every pending entry of the earliest pending time.
    #[verifier::spinoff_prover]
    #[verifier::rlimit(50)]
    fn dispatch_instant(&mut self) -> (r: Result<(Time, Vec<Delivery<P>>), SimError>)
        requires
            old(self).wf(),
            old(self).pending().len() > 0,
            old(self).init_done() == old(self).settings().num_init_stages,
        ensures
            final(self).wf(),
            dispatch_frame(*old(self), *final(self)),
            r matches Ok((t, d)) ==> instant(*old(self), *final(self), t, d@),
            r is Err ==> inactive_error(*old(self), r),
            earliest_active(*old(self)) ==> r is Ok,
            final(self).in_init_round() == old(self).in_init_round(),
    {
        let t = self.scheduled.peek_time().unwrap();
        self.current_time = t;
        let ghost p = self.scheduled@;
        let ghost fp0 = self.finger_print;
        let ghost e0 = self.event_num as int;
        proof {
            vstd::arithmetic::div_mod::lemma_small_mod(e0 as nat, 0x1_0000_0000_0000_0000);
        }
        let mut deliveries: Vec<Delivery<P>> = Vec::new();
        proof {
            assert(leaving(p, p.len() as int) =~= Seq::<ScheduledEntry<P>>::empty());
            assert(p.subrange(0, p.len() as int) =~= p);
            assert(keys_of(leaving(p, p.len() as int)) =~= Seq::<(i64, usize, Seq<char>)>::empty());
            assert(handed_out(deliveries@) =~= Seq::<(ComponentID, Event<P>, u64)>::empty());
        }
        loop
            invariant
                *self.components == *old(self).components,
                self.store@ == old(self).store@,
                self.active@ == old(self).active@,
                self.removed@ == old(self).removed@,
                self.exited == old(self).exited,
                self.config == old(self).config,
                self.wf(),
                self.init_stage == old(self).init_stage,
                self.dispatching_init == old(self).dispatching_init,
                p == old(self).scheduled@,
                self.current_time == t,
                t == p.last().time,
                p.len() > 0,
                latest_first_all_ge(p, t),
                self.scheduled@ == p.subrange(0, self.scheduled@.len() as int),
                self.scheduled@.len() <= p.len(),
                forall|i: int| self.scheduled@.len() <= i < p.len() ==> (#[trigger] p[i]).time == t,
                forall|i: int|
                    self.scheduled@.len() <= i < p.len() ==> {
                        let tt = (#[trigger] p[i]).target.0 as int;
                        0 <= tt < self.active@.len() && self.active@[tt]
                    },
                handed_out(deliveries@) == routed(leaving(p, self.scheduled@.len() as int), self.removed@, e0),
                self.finger_print == fp_fold(fp0, keys_of(leaving(p, self.scheduled@.len() as int))),
                self.event_num as int == (e0 + (p.len() - self.scheduled@.len())) % 0x1_0000_0000_0000_0000,
            ensures
                self.scheduled@.len() == 0 || self.scheduled@.last().time.0 != t.0,
            decreases self.scheduled@.len(),
        {
            match self.scheduled.peek_time() {
                Some(pt) => {
                    if pt.0 != t.0 {
                        break;
                    }
                },
                None => {
                    break;
                },
            }
            let ghost k = self.scheduled@.len() as int;
            let e = self.scheduled.pop();
            proof {
                assert(e == p[k - 1]);
                assert(leaving(p, k - 1) =~= leaving(p, k).push(e));
                assert(keys_of(leaving(p, k - 1)) =~= keys_of(leaving(p, k)).push(
                    (e.time.0, e.target.0, e.event.name@),
                ));
                assert(keys_of(leaving(p, k - 1)).drop_last() =~= keys_of(leaving(p, k)));
                assert(leaving(p, k - 1).drop_last() =~= leaving(p, k));
            }
            let w = name_weight_of(&e.event.name);
            self.finger_print = self.finger_print.wrapping_add(e.time.0 as u64).wrapping_add(e.target.0 as u64).wrapping_add(w);
            let number = self.event_num;
            proof {
                vstd::arithmetic::div_mod::lemma_add_mod_noop(e0 + (p.len() - k), 1, 0x1_0000_0000_0000_0000);
                vstd::arithmetic::div_mod::lemma_small_mod(1, 0x1_0000_0000_0000_0000);
                vstd::arithmetic::div_mod::lemma_small_mod(self.event_num as nat, 0x1_0000_0000_0000_0000);
            }
            self.event_num = self.event_num.wrapping_add(1);
            if e.target.0 >= self.active.len() || !self.active[e.target.0] {
                proof {
                    assert(old(self).pending()[k - 1].target.0 == e.target.0);
                    assert(old(self).pending()[k - 1].time == old(self).pending().last().time);
                }
                return Err(SimError::InactiveTarget { target: e.target.0, event: e.event.name });
            }
            if !self.removed[e.target.0] {
                let ghost before = deliveries@;
                deliveries.push(Delivery { target: e.target, event: e.event, number });
                proof {
                    assert(handed_out(deliveries@) =~= handed_out(before).push((e.target, e.event, number)));
                }
            }
        }
        proof {
            let k = self.scheduled@.len() as int;
            if k > 0 {
                assert(self.scheduled@.last().time.0 != t.0);
                assert forall|i: int| 0 <= i < k implies (#[trigger] p[i]).time.0 > t.0 by {
                    assert(p[i].time.0 >= p[k - 1].time.0);
                    assert(p[k - 1].time.0 >= t.0);
                }
            }
        }
        Ok((t, deliveries))
    }

    fn register(&mut self, name: &str, parent: ComponentID, active: bool) -> (r: Result<ComponentID, SimError>)
        requires
            old(self).wf(),
            parent.is_none() <==> old(self).tree().len() == 0,
            !parent.is_none() ==> parent.0 < old(self).tree().len(),
            old(self).tree().len() + 2 < NO_COMPONENT_INDEX,
        ensures
            final(self).wf(),
            registered(*old(self), *final(self), name@, parent, active, r),
    {
        let mut tmp = Arc::new(Components::new(0));
        std::mem::swap(&mut tmp, &mut self.components);
        match try_unwrap(tmp) {
            Err(a) => {
                self.components = a;
                Err(SimError::SnapshotRetained)
            },
            Ok(comps) => {
                let mut comps = comps;
                let r = comps.add(name, parent);
                self.components = Arc::new(comps);
                if r.is_ok() {
                    self.active.push(active);
                    self.removed.push(false);
                }
                r
            },
        }
    }

    /// Adds a component that receives no events. Such components organize others,
    /// which makes the tree easier to navigate.
    pub fn add_component(&mut self, name: &str, parent: ComponentID) -> (r: Result<ComponentID, SimError>)
        requires
            old(self).wf(),
            parent.is_none() <==> old(self).tree().len() == 0,
            !parent.is_none() ==> parent.0 < old(self).tree().len(),
            old(self).tree().len() + 2 < NO_COMPONENT_INDEX,
        ensures
            final(self).wf(),
            registered(*old(self), *final(self), name@, parent, false, r),
    {
        self.register(name, parent, false)
    }

    /// Adds a component with a worker. Returns its id and the seed for the worker's
    /// random number generator.
    pub fn add_active_component(&mut self, name: &str, parent: ComponentID) -> (r: Result<(ComponentID, u64), SimError>)
        requires
            old(self).wf(),
            parent.is_none() <==> old(self).tree().len() == 0,
            !parent.is_none() ==> parent.0 < old(self).tree().len(),
            old(self).tree().len() + 2 < NO_COMPONENT_INDEX,
        ensures
            final(self).wf(),
            registered(
                *old(self),
                *final(self),
                name@,
                parent,
                true,
                match r {
                    Ok((id, _)) => Ok::<ComponentID, SimError>(id),
                    Err(e) => Err(e),
                },
            ),
            r matches Ok((id, seed)) ==> old(self).settings().seed != 0 ==> seed == seed_for(
                old(self).settings().seed,
                0,
                id.0,
            ),
            r matches Ok((id, seed)) ==> old(self).settings().seed == 0 ==> exists|clock: u32|
                clock < 1_000_000_000 && seed == #[trigger] seed_for(0, clock, id.0),
    {
        match self.register(name, parent, true) {
            Ok(id) => {
                let seed = self.config.seed;
                let clock = if seed != 0 {
                    0
                } else {
                    clock_nanos()
                };
                let r = get_seed(seed, clock, id.0);
                proof {
                    if seed == 0 {
                        assert(clock < 1_000_000_000 && r == seed_for(0, clock, id.0));
                        assert(exists|c: u32| c < 1_000_000_000 && r == #[trigger] seed_for(0, c, id.0));
                    }
                    assert(seed == old(self).settings().seed);
                }
                Ok((id, r))
            },
            Err(e) => Err(e),
        }
    }
}

/// Every entry of `p` is at `t` or later.
pub open spec fn latest_first_all_ge<P>(p: Seq<ScheduledEntry<P>>, t: Time) -> bool {
    forall|i: int| 0 <= i < p.len() ==> (#[trigger] p[i]).time.0 >= t.0
}

/// `after` is `before` with a component registered (or, on error, unchanged).
pub open spec fn registered<P>(
    before: Simulation<P>,
    after: Simulation<P>,
    name: Seq<char>,
    parent: ComponentID,
    active: bool,
    r: Result<ComponentID, SimError>,
) -> bool {
    &&& after.now() == before.now()
    &&& after.pending() == before.pending()
    &&& after.state() == before.state()
    &&& after.exit_reason() == before.exit_reason()
    &&& after.fp() == before.fp()
    &&& after.dispatched() == before.dispatched()
    &&& after.init_done() == before.init_done()
    &&& after.settings() == before.settings()
    &&& r is Err ==> after.tree() == before.tree() && after.active_flags() == before.active_flags()
        && after.removed_flags() == before.removed_flags()
    &&& !valid_name(name) ==> (r matches Err(SimError::InvalidName { name: n }) && n@ == name) || r
        == Err::<ComponentID, SimError>(SimError::SnapshotRetained)
    &&& valid_name(name) && self_has_sibling_named(before.tree(), parent, name) ==> (r matches Err(
        SimError::DuplicateSibling { name: n },
    ) && n@ == name) || r == Err::<ComponentID, SimError>(SimError::SnapshotRetained)
    &&& valid_name(name) && !self_has_sibling_named(before.tree(), parent, name) ==> r == Ok::<ComponentID, SimError>(
        ComponentID(before.tree().len() as usize),
    ) || r == Err::<ComponentID, SimError>(SimError::SnapshotRetained)
    &&& r == Err::<ComponentID, SimError>(SimError::SnapshotRetained) ==> after.tree() == before.tree()
    &&& r matches Ok(id) ==> {
        &&& valid_name(name) && !self_has_sibling_named(before.tree(), parent, name)
        &&& id.0 == before.tree().len()
        &&& added(before.tree(), after.tree(), name, parent)
        &&& after.active_flags() == before.active_flags().push(active)
        &&& after.removed_flags() == before.removed_flags().push(false)
    }
}

impl SimState {
    pub open spec fn wf(&self) -> bool {
        self.components.wf() && self.store.wf()
    }

    fn key_of(&self, id: ComponentID, key: &str) -> (r: String)
        requires
            self.wf(),
            self.components.valid_id(id),
        ensures
            r@ == path_of(self.components@, id.0 as int) + seq!['.'] + key@,
    {
        let mut path = self.components.full_path(id);
        path.append(".");
        path.append(key);
        proof {
            reveal_strlit(".");
        }
        path
    }

    /// Whether the component has been removed: its path holds `removed`.
    pub fn was_removed(&self, id: ComponentID) -> (r: bool)
        requires
            self.wf(),
            self.components.valid_id(id),
        ensures
            ({
                let k = path_of(self.components@, id.0 as int) + seq!['.'] + "removed"@;
                r == (self.store@.ints.contains_key(k) || self.store@.floats.contains_key(k)
                    || self.store@.texts.contains_key(k))
            }),
    {
        let key = self.key_of(id, "removed");
        self.store.contains(key.as_str())
    }

    /// Whether the component's `key` holds a value of any kind.
    pub fn contains(&self, id: ComponentID, key: &str) -> (r: bool)
        requires
            self.wf(),
            self.components.valid_id(id),
        ensures
            ({
                let k = path_of(self.components@, id.0 as int) + seq!['.'] + key@;
                r == (self.store@.ints.contains_key(k) || self.store@.floats.contains_key(k)
                    || self.store@.texts.contains_key(k))
            }),
    {
        let k = self.key_of(id, key);
        self.store.contains(k.as_str())
    }

    /// The int value under the component's `key`.
    pub fn get_int(&self, id: ComponentID, key: &str) -> (r: Result<i64, SimError>)
        requires
            self.wf(),
            self.components.valid_id(id),
        ensures
            ({
                let k = path_of(self.components@, id.0 as int) + seq!['.'] + key@;
                &&& self.store@.ints.contains_key(k) ==> r == Ok::<i64, SimError>(self.store@.ints[k].1)
                &&& !self.store@.ints.contains_key(k) ==> r is Err
            }),
    {
        let k = self.key_of(id, key);
        self.store.get_int(k.as_str())
    }

    /// The bit pattern of the float value under the component's `key`.
    pub fn get_float(&self, id: ComponentID, key: &str) -> (r: Result<u64, SimError>)
        requires
            self.wf(),
            self.components.valid_id(id),
        ensures
            ({
                let k = path_of(self.components@, id.0 as int) + seq!['.'] + key@;
                &&& self.store@.floats.contains_key(k) ==> r == Ok::<u64, SimError>(self.store@.floats[k].1)
                &&& !self.store@.floats.contains_key(k) ==> r is Err
            }),
    {
        let k = self.key_of(id, key);
        self.store.get_float(k.as_str())
    }

    /// The string value under the component's `key`.
    pub fn get_string(&self, id: ComponentID, key: &str) -> (r: Result<String, SimError>)
        requires
            self.wf(),
            self.components.valid_id(id),
        ensures
            ({
                let k = path_of(self.components@, id.0 as int) + seq!['.'] + key@;
                &&& self.store@.texts.contains_key(k) ==> (r matches Ok(v) && v@ == self.store@.texts[k].1)
                &&& !self.store@.texts.contains_key(k) ==> r is Err
            }),
    {
        let k = self.key_of(id, key);
        self.store.get_string(k.as_str())
    }
}

} // verus!
