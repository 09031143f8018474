use vstd::prelude::*;

verus! {

/// Logical simulation time, counted in ticks. `Config::time_units` ticks make one second.
/// Signed so that times in the past stay easy to express.
#[derive(Clone, Copy, Debug, PartialEq, Eq, Structural)]
pub struct Time(pub i64);

} // verus!

verus! {

/// A positive or zero duration in seconds, as the fraction `num / den`.
pub struct Secs {
    num: u64,
    den: u64,
}

impl Secs {
    #[verifier::type_invariant]
    spec fn inv(self) -> bool {
        self.den > 0
    }

    pub closed spec fn numerator(self) -> nat {
        self.num as nat
    }

    pub closed spec fn denominator(self) -> nat {
        self.den as nat
    }

    pub fn new(num: u64, den: u64) -> (r: Secs)
        requires
            den > 0,
        ensures
            r.numerator() == num,
            r.denominator() == den,
    {
        Secs { num, den }
    }

    /// A whole number of seconds.
    pub fn whole(secs: u64) -> (r: Secs)
        ensures
            r.numerator() == secs,
            r.denominator() == 1,
    {
        Secs { num: secs, den: 1 }
    }

    pub fn num(&self) -> (r: u64)
        ensures
            r == self.numerator(),
    {
        self.num
    }

    pub fn den(&self) -> (r: u64)
        ensures
            r == self.denominator(),
            r > 0,
    {
        proof {
            use_type_invariant(self);
        }
        self.den
    }

    /// Whether the duration is longer than zero.
    pub fn is_positive(&self) -> (r: bool)
        ensures
            r == (self.numerator() > 0),
    {
        self.num > 0
    }
}

/// `floor(secs × time_units)`: the whole ticks in `secs` seconds.
pub open spec fn ticks_in(secs: Secs, time_units: nat) -> nat {
    if secs.denominator() == 0 {
        0
    } else {
        (secs.numerator() * time_units) / secs.denominator()
    }
}

/// When an effector scheduled an event to arrive.
pub enum Delay {
    /// As soon as possible, which is one tick later.
    Immediate,
    /// After the given number of seconds.
    After(Secs),
}

/// The ticks between the current instant and delivery: never less than one, so that
/// nothing scheduled during an instant arrives in that same instant.
pub open spec fn delay_ticks(delay: Delay, time_units: nat) -> nat {
    match delay {
        Delay::Immediate => 1,
        Delay::After(s) => if ticks_in(s, time_units) == 0 {
            1
        } else {
            ticks_in(s, time_units)
        },
    }
}

/// The delivery time of an event scheduled at `now`, held at the largest time where the
/// sum would not fit.
pub open spec fn delivery_at(now: i64, delay: Delay, time_units: nat) -> i64 {
    if now + delay_ticks(delay, time_units) > i64::MAX {
        i64::MAX
    } else {
        (now + delay_ticks(delay, time_units)) as i64
    }
}

/// An event scheduled `secs > 0` seconds after `now` arrives at least one tick later and
/// no earlier than `floor(secs × time_units)` ticks later, wherever that time fits.
pub proof fn law_delivery_after_secs(now: i64, secs: Secs, time_units: nat)
    requires
        secs.numerator() > 0,
        now + delay_ticks(Delay::After(secs), time_units) <= i64::MAX,
    ensures
        delivery_at(now, Delay::After(secs), time_units) >= now + 1,
        delivery_at(now, Delay::After(secs), time_units) >= now + ticks_in(secs, time_units),
{
}

/// An event scheduled as soon as possible arrives exactly one tick later.
pub proof fn law_immediate_is_next_tick(now: i64, time_units: nat)
    requires
        now < i64::MAX,
    ensures
        delivery_at(now, Delay::Immediate, time_units) == now + 1,
{
}

pub fn delivery_time(now: Time, delay: &Delay, time_units: u64) -> (r: Time)
    ensures
        r.0 == delivery_at(now.0, *delay, time_units as nat),
        r.0 >= now.0,
        now.0 + delay_ticks(*delay, time_units as nat) <= i64::MAX ==> {
            &&& r.0 >= now.0 + 1
            &&& (*delay matches Delay::After(s) ==> r.0 >= now.0 + ticks_in(s, time_units as nat))
        },
{
    let d: u128 = match delay {
        Delay::Immediate => 1,
        Delay::After(s) => {
            let den = s.den();
            let num = s.num();
            proof {
                assert(num as nat * time_units as nat <= u64::MAX as nat * u64::MAX as nat) by (nonlinear_arith)
                    requires
                        num <= u64::MAX,
                        time_units <= u64::MAX,
                ;
            }
            let prod = (num as u128) * (time_units as u128);
            let t = prod / (den as u128);
            if t == 0 {
                1
            } else {
                t
            }
        },
    };
    let room: u128 = (i64::MAX as i128 - now.0 as i128) as u128;
    if d > room {
        Time(i64::MAX)
    } else {
        Time((now.0 as i128 + d as i128) as i64)
    }
}

} // verus!
