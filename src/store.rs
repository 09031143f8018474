use vstd::prelude::*;
use vstd::string::*;
use crate::error::SimError;
use crate::sim_time::Time;

verus! {

/// One key of the store with the time it was last written and its value.
pub struct Slot<V> {
    pub key: String,
    pub time: Time,
    pub value: V,
}

/// One value per key and instant: once a write of `v1` at `time` succeeded, a write of a
/// different value to the same key at the same time is refused.
pub proof fn law_one_value_per_instant<W>(m: Temporal<W>, edition: u32, key: Seq<char>, v1: W, v2: W, time: i64)
    requires
        write_result(m, edition, key, v1, time) is Some,
        v1 != v2,
    ensures
        ({
            let (m1, e1) = write_result(m, edition, key, v1, time).unwrap();
            write_result(m1, e1, key, v2, time) is None
        }),
{
}

/// The edition moves, by one modulo 2^32, exactly when a write changes the value of its key.
pub proof fn law_edition_counts_changes<W>(m: Temporal<W>, edition: u32, key: Seq<char>, value: W, time: i64)
    requires
        write_result(m, edition, key, value, time) is Some,
    ensures
        ({
            let (m1, e1) = write_result(m, edition, key, value, time).unwrap();
            &&& (e1 != edition) <==> (!m.contains_key(key) || m[key].1 != m1[key].1)
            &&& e1 != edition ==> e1 as int == (edition as int + 1) % 0x1_0000_0000
            &&& forall|k: Seq<char>| k != key ==> m1.contains_key(k) == m.contains_key(k) && (m.contains_key(k) ==> m1[k] == m[k])
        }),
{
}

/// Writing the same value to a key at two different times: the key holds that value after
/// both, and only the first write can count as a change.
pub proof fn law_rewrite_same_value<W>(m: Temporal<W>, edition: u32, key: Seq<char>, value: W, t1: i64, t2: i64)
    requires
        key.len() > 0,
        t1 != t2,
        !conflicts(m, key, value, t1),
    ensures
        ({
            let (m1, e1) = write_result(m, edition, key, value, t1).unwrap();
            &&& m1[key] == (t1, value)
            &&& e1 == if changes(m, key, value) {
                edition.wrapping_add(1)
            } else {
                edition
            }
            &&& write_result(m1, e1, key, value, t2) == Some((m1.insert(key, (t2, value)), e1))
        }),
{
}

/// For a key `<p>.removed`, the prefix `<p>.`; `None` for other keys.
pub open spec fn removal_prefix(k: Seq<char>) -> Option<Seq<char>> {
    let n = k.len() as int;
    if n >= 8 && k.subrange(n - 8, n) == seq!['.', 'r', 'e', 'm', 'o', 'v', 'e', 'd'] {
        Some(k.subrange(0, n - 7))
    } else {
        None
    }
}

/// `key` belongs to a removed component: for some `<p>.removed` holding 1, `key` starts
/// with `<p>.`.
pub open spec fn under_removed(ints: Temporal<i64>, key: Seq<char>) -> bool {
    exists|k: Seq<char>|
        #[trigger] ints.contains_key(k) && ints[k].1 == 1 && removal_prefix(k) is Some && key.len() >= removal_prefix(
            k,
        ).unwrap().len() && key.subrange(0, removal_prefix(k).unwrap().len() as int) == removal_prefix(k).unwrap()
}

/// Whether `s` and `t` both have at least `n` characters and agree on the first `n`.
fn same_start(s: &str, t: &str, n: usize) -> (r: bool)
    ensures
        r == (n <= s@.len() && n <= t@.len() && s@.subrange(0, n as int) == t@.subrange(0, n as int)),
{
    let ls = s.unicode_len();
    let lt = t.unicode_len();
    if n > ls || n > lt {
        return false;
    }
    let mut i: usize = 0;
    while i < n
        invariant
            n <= s@.len(),
            n <= t@.len(),
            i <= n,
            s@.subrange(0, i as int) == t@.subrange(0, i as int),
        decreases n - i,
    {
        if s.get_char(i) != t.get_char(i) {
            assert(s@.subrange(0, n as int)[i as int] != t@.subrange(0, n as int)[i as int]);
            return false;
        }
        assert(s@.subrange(0, i + 1) =~= s@.subrange(0, i as int).push(s@[i as int]));
        assert(t@.subrange(0, i + 1) =~= t@.subrange(0, i as int).push(t@[i as int]));
        i += 1;
    }
    true
}

/// Whether `k` ends with ".removed".
fn ends_with_removed(k: &str) -> (r: bool)
    ensures
        r == (removal_prefix(k@) is Some),
{
    let n = k.unicode_len();
    if n < 8 {
        return false;
    }
    let suffix = k.substring_char(n - 8, n);
    let tail = String::from_str(".removed");
    proof {
        reveal_strlit(".removed");
        assert(tail@ =~= seq!['.', 'r', 'e', 'm', 'o', 'v', 'e', 'd']);
    }
    String::from_str(suffix) == tail
}

/// Writes each (key, value) of `kv` in order at `now`, each key behind `prefix`: the
/// mapping and edition afterwards, or `None` where one of the writes is refused.
pub open spec fn fold_writes<W>(m: Temporal<W>, e: u32, prefix: Seq<char>, kv: Seq<(Seq<char>, W)>, now: i64) -> Option<
    (Temporal<W>, u32),
>
    decreases kv.len(),
{
    if kv.len() == 0 {
        Some((m, e))
    } else {
        match fold_writes(m, e, prefix, kv.drop_last(), now) {
            Some((m1, e1)) => write_result(m1, e1, prefix + kv.last().0, kv.last().1, now),
            None => None,
        }
    }
}

/// Once a write is refused, writing more entries after it stays refused.
pub proof fn lemma_fold_none<W>(m: Temporal<W>, e: u32, prefix: Seq<char>, kv: Seq<(Seq<char>, W)>, now: i64, i: int)
    requires
        0 <= i <= kv.len(),
        fold_writes(m, e, prefix, kv.subrange(0, i), now) is None,
    ensures
        fold_writes(m, e, prefix, kv, now) is None,
    decreases kv.len() - i,
{
    if i < kv.len() {
        assert(kv.subrange(0, i + 1).drop_last() =~= kv.subrange(0, i));
        lemma_fold_none(m, e, prefix, kv, now, i + 1);
    } else {
        assert(kv.subrange(0, i) =~= kv);
    }
}

/// The store `st` with the entries of `patch` written at `now`, each key behind `prefix`:
/// the ints first, then the floats, then the strings, each in the patch's entry order.
/// `None` where a write is refused.
pub open spec fn patched(st: StoreView, prefix: Seq<char>, patch: Store, now: i64) -> Option<StoreView> {
    match fold_writes(st.ints, st.edition, prefix, patch.int_entries(), now) {
        None => None,
        Some((mi, e1)) => match fold_writes(st.floats, e1, prefix, patch.float_entries(), now) {
            None => None,
            Some((mf, e2)) => match fold_writes(st.texts, e2, prefix, patch.text_entries(), now) {
                None => None,
                Some((mt, e3)) => Some(StoreView { edition: e3, ints: mi, floats: mf, texts: mt }),
            },
        },
    }
}

/// `st` with the int `value` written under `key` at `now`, or `None` where refused.
pub open spec fn with_int(st: StoreView, key: Seq<char>, value: i64, now: i64) -> Option<StoreView> {
    match write_result(st.ints, st.edition, key, value, now) {
        None => None,
        Some((m, e)) => Some(StoreView { edition: e, ints: m, ..st }),
    }
}

pub open spec fn int_pairs(s: Seq<Slot<i64>>) -> Seq<(Seq<char>, i64)> {
    s.map_values(|x: Slot<i64>| (x.key@, x.value))
}

pub open spec fn float_pairs(s: Seq<Slot<u64>>) -> Seq<(Seq<char>, u64)> {
    s.map_values(|x: Slot<u64>| (x.key@, x.value))
}

pub open spec fn text_pairs(s: Seq<Slot<String>>) -> Seq<(Seq<char>, Seq<char>)> {
    s.map_values(|x: Slot<String>| (x.key@, x.value@))
}

/// A mapping from keys to (write time, value).
pub type Temporal<W> = Map<Seq<char>, (i64, W)>;

/// `slots` holds each key once, and holds exactly the entries of `m`, values seen through `vf`.
pub open spec fn slots_match<V, W>(slots: Seq<Slot<V>>, m: Temporal<W>, vf: spec_fn(V) -> W) -> bool {
    &&& forall|i: int, j: int| 0 <= i < j < slots.len() ==> (#[trigger] slots[i]).key@ != (#[trigger] slots[j]).key@
    &&& forall|i: int|
        0 <= i < slots.len() ==> m.contains_key((#[trigger] slots[i]).key@) && m[slots[i].key@] == (
            slots[i].time.0,
            vf(slots[i].value),
        )
    &&& forall|k: Seq<char>| #[trigger] m.contains_key(k) ==> exists|i: int| 0 <= i < slots.len() && (#[trigger] slots[i]).key@ == k
}

/// A write of `value` at `time` would contradict what was written at that same instant.
pub open spec fn conflicts<W>(m: Temporal<W>, key: Seq<char>, value: W, time: i64) -> bool {
    m.contains_key(key) && m[key].0 == time && m[key].1 != value
}

/// A write of `value` would change what the key holds.
pub open spec fn changes<W>(m: Temporal<W>, key: Seq<char>, value: W) -> bool {
    !m.contains_key(key) || m[key].1 != value
}

/// What a write does to one mapping and to the edition: `None` where the store refuses it
/// (an empty key, or a conflicting write at the same instant).
pub open spec fn write_result<W>(m: Temporal<W>, edition: u32, key: Seq<char>, value: W, time: i64) -> Option<
    (Temporal<W>, u32),
> {
    if key.len() == 0 || conflicts(m, key, value, time) {
        None
    } else {
        Some(
            (
                m.insert(key, (time, value)),
                if changes(m, key, value) {
                    edition.wrapping_add(1)
                } else {
                    edition
                },
            ),
        )
    }
}

pub open spec fn same<V>(v: V) -> V {
    v
}

pub open spec fn text_view(s: String) -> Seq<char> {
    s@
}

/// The abstract content of a store.
pub struct StoreView {
    pub edition: u32,
    pub ints: Temporal<i64>,
    /// Float values, each kept as the bit pattern of an `f64`.
    pub floats: Temporal<u64>,
    pub texts: Temporal<Seq<char>>,
}

/// A temporal key/value store: at most one value per key and instant. Each key has one
/// current value per kind (int, float, string) with the time it was written. Floats are
/// held as the bit patterns of `f64` values.
///
/// `edition` counts (modulo 2^32) the writes that changed a value, so that observers
/// can tell whether anything changed since they last looked.
pub struct Store {
    edition: u32,
    ints: Vec<Slot<i64>>,
    floats: Vec<Slot<u64>>,
    texts: Vec<Slot<String>>,
    int_map: Ghost<Temporal<i64>>,
    float_map: Ghost<Temporal<u64>>,
    text_map: Ghost<Temporal<Seq<char>>>,
}

impl View for Store {
    type V = StoreView;

    closed spec fn view(&self) -> StoreView {
        StoreView {
            edition: self.edition,
            ints: self.int_map@,
            floats: self.float_map@,
            texts: self.text_map@,
        }
    }
}

proof fn lemma_update_slot<V, W>(slots: Seq<Slot<V>>, m: Temporal<W>, vf: spec_fn(V) -> W, i: int, slot: Slot<V>)
    requires
        slots_match(slots, m, vf),
        0 <= i < slots.len(),
        slots[i].key@ == slot.key@,
    ensures
        slots_match(slots.update(i, slot), m.insert(slot.key@, (slot.time.0, vf(slot.value))), vf),
{
    let s2 = slots.update(i, slot);
    let m2 = m.insert(slot.key@, (slot.time.0, vf(slot.value)));
    assert forall|k: Seq<char>| #[trigger] m2.contains_key(k) implies exists|j: int| 0 <= j < s2.len() && (#[trigger] s2[j]).key@ == k by {
        if k == slot.key@ {
            assert(s2[i].key@ == k);
        } else {
            let j = choose|j: int| 0 <= j < slots.len() && (#[trigger] slots[j]).key@ == k;
            assert(s2[j].key@ == k);
        }
    }
}

proof fn lemma_push_slot<V, W>(slots: Seq<Slot<V>>, m: Temporal<W>, vf: spec_fn(V) -> W, slot: Slot<V>)
    requires
        slots_match(slots, m, vf),
        !m.contains_key(slot.key@),
    ensures
        slots_match(slots.push(slot), m.insert(slot.key@, (slot.time.0, vf(slot.value))), vf),
{
    let s2 = slots.push(slot);
    let m2 = m.insert(slot.key@, (slot.time.0, vf(slot.value)));
    assert forall|k: Seq<char>| #[trigger] m2.contains_key(k) implies exists|j: int| 0 <= j < s2.len() && (#[trigger] s2[j]).key@ == k by {
        if k == slot.key@ {
            assert(s2[slots.len() as int].key@ == k);
        } else {
            let j = choose|j: int| 0 <= j < slots.len() && (#[trigger] slots[j]).key@ == k;
            assert(s2[j].key@ == k);
        }
    }
}

fn find<V>(slots: &Vec<Slot<V>>, key: &String) -> (r: Option<usize>)
    ensures
        r matches Some(i) ==> i < slots@.len() && slots@[i as int].key@ == key@,
        r is None ==> forall|j: int| 0 <= j < slots@.len() ==> (#[trigger] slots@[j]).key@ != key@,
{
    let mut i: usize = 0;
    while i < slots.len()
        invariant
            i <= slots@.len(),
            forall|j: int| 0 <= j < i ==> (#[trigger] slots@[j]).key@ != key@,
        decreases slots@.len() - i,
    {
        if slots[i].key == *key {
            return Some(i);
        }
        i += 1;
    }
    None
}

/// Where a slot vector holds a key, it is the one the mapping holds.
proof fn lemma_found<V, W>(slots: Seq<Slot<V>>, m: Temporal<W>, vf: spec_fn(V) -> W, key: Seq<char>, r: Option<usize>)
    requires
        slots_match(slots, m, vf),
        r matches Some(i) ==> i < slots.len() && slots[i as int].key@ == key,
        r is None ==> forall|j: int| 0 <= j < slots.len() ==> (#[trigger] slots[j]).key@ != key,
    ensures
        r is None <==> !m.contains_key(key),
        r matches Some(i) ==> m[key] == (slots[i as int].time.0, vf(slots[i as int].value)),
{
    if r is None && m.contains_key(key) {
        let j = choose|j: int| 0 <= j < slots.len() && (#[trigger] slots[j]).key@ == key;
    }
}

impl Store {
    /// The int entries as (key, value), in the order they were first written.
    pub closed spec fn int_entries(&self) -> Seq<(Seq<char>, i64)> {
        int_pairs(self.ints@)
    }

    /// The float entries as (key, bits), in the order they were first written.
    pub closed spec fn float_entries(&self) -> Seq<(Seq<char>, u64)> {
        float_pairs(self.floats@)
    }

    /// The string entries as (key, value), in the order they were first written.
    pub closed spec fn text_entries(&self) -> Seq<(Seq<char>, Seq<char>)> {
        text_pairs(self.texts@)
    }

    pub closed spec fn wf(&self) -> bool {
        &&& forall|k: Seq<char>| #[trigger] self.int_map@.contains_key(k) ==> k.len() > 0
        &&& forall|k: Seq<char>| #[trigger] self.float_map@.contains_key(k) ==> k.len() > 0
        &&& forall|k: Seq<char>| #[trigger] self.text_map@.contains_key(k) ==> k.len() > 0
        &&& slots_match(self.ints@, self.int_map@, |v: i64| same(v))
        &&& slots_match(self.floats@, self.float_map@, |v: u64| same(v))
        &&& slots_match(self.texts@, self.text_map@, |v: String| text_view(v))
    }

    /// No key of a well-formed store is empty.
    pub proof fn lemma_keys_nonempty(&self)
        requires
            self.wf(),
        ensures
            forall|k: Seq<char>| #[trigger] self@.ints.contains_key(k) ==> k.len() > 0,
            forall|k: Seq<char>| #[trigger] self@.floats.contains_key(k) ==> k.len() > 0,
            forall|k: Seq<char>| #[trigger] self@.texts.contains_key(k) ==> k.len() > 0,
    {
    }

    pub fn new() -> (r: Store)
        ensures
            r.wf(),
            r@.edition == 0,
            r@.ints.is_empty(),
            r@.floats.is_empty(),
            r@.texts.is_empty(),
    {
        Store {
            edition: 0,
            ints: Vec::new(),
            floats: Vec::new(),
            texts: Vec::new(),
            int_map: Ghost(Map::empty()),
            float_map: Ghost(Map::empty()),
            text_map: Ghost(Map::empty()),
        }
    }

    /// Counts the writes that changed a value, modulo 2^32.
    pub fn edition(&self) -> (r: u32)
        ensures
            r == self@.edition,
    {
        self.edition
    }

    /// The int entries, each key once.
    pub fn int_slots(&self) -> (r: &Vec<Slot<i64>>)
        requires
            self.wf(),
        ensures
            slots_match(r@, self@.ints, |v: i64| same(v)),
            int_pairs(r@) == self.int_entries(),
    {
        &self.ints
    }

    /// The float entries, each key once.
    pub fn float_slots(&self) -> (r: &Vec<Slot<u64>>)
        requires
            self.wf(),
        ensures
            slots_match(r@, self@.floats, |v: u64| same(v)),
            float_pairs(r@) == self.float_entries(),
    {
        &self.floats
    }

    /// The string entries, each key once.
    pub fn string_slots(&self) -> (r: &Vec<Slot<String>>)
        requires
            self.wf(),
        ensures
            slots_match(r@, self@.texts, |v: String| text_view(v)),
            text_pairs(r@) == self.text_entries(),
    {
        &self.texts
    }

    /// Whether `key` lies under a removed component (see `under_removed`). Listings of
    /// live state leave such keys out.
    pub fn is_removed_key(&self, key: &str) -> (r: bool)
        requires
            self.wf(),
        ensures
            r == under_removed(self@.ints, key@),
    {
        let mut i: usize = 0;
        while i < self.ints.len()
            invariant
                self.wf(),
                i <= self.ints@.len(),
                forall|j: int|
                    0 <= j < i ==> !({
                        let k = (#[trigger] self.ints@[j]).key@;
                        &&& self.ints@[j].value == 1
                        &&& removal_prefix(k) is Some
                        &&& key@.len() >= removal_prefix(k).unwrap().len()
                        &&& key@.subrange(0, removal_prefix(k).unwrap().len() as int) == removal_prefix(k).unwrap()
                    }),
            decreases self.ints@.len() - i,
        {
            let slot = &self.ints[i];
            if slot.value == 1 && ends_with_removed(slot.key.as_str()) {
                let n = slot.key.as_str().unicode_len() - 7;
                if same_start(key, slot.key.as_str(), n) {
                    proof {
                        let k = slot.key@;
                        assert(self.int_map@.contains_key(k));
                        assert(self.int_map@[k].1 == 1);
                        assert(removal_prefix(k).unwrap() == k.subrange(0, n as int));
                        assert(key@.subrange(0, n as int) == removal_prefix(k).unwrap());
                    }
                    return true;
                }
            }
            i += 1;
        }
        proof {
            if under_removed(self@.ints, key@) {
                let k = choose|k: Seq<char>|
                    #[trigger] self.int_map@.contains_key(k) && self.int_map@[k].1 == 1 && removal_prefix(k) is Some && key@.len()
                        >= removal_prefix(k).unwrap().len() && key@.subrange(0, removal_prefix(k).unwrap().len() as int)
                        == removal_prefix(k).unwrap();
                let j = choose|j: int| 0 <= j < self.ints@.len() && (#[trigger] self.ints@[j]).key@ == k;
                assert(self.ints@[j].value == 1);
            }
        }
        false
    }

    /// Whether the key holds a value of any kind.
    pub fn contains(&self, key: &str) -> (r: bool)
        requires
            self.wf(),
        ensures
            r == (self@.ints.contains_key(key@) || self@.floats.contains_key(key@) || self@.texts.contains_key(key@)),
    {
        let k = String::from_str(key);
        let a = find(&self.ints, &k);
        let b = find(&self.floats, &k);
        let c = find(&self.texts, &k);
        proof {
            lemma_found(self.ints@, self.int_map@, |v: i64| same(v), key@, a);
            lemma_found(self.floats@, self.float_map@, |v: u64| same(v), key@, b);
            lemma_found(self.texts@, self.text_map@, |v: String| text_view(v), key@, c);
        }
        a.is_some() || b.is_some() || c.is_some()
    }

    pub fn get_int(&self, key: &str) -> (r: Result<i64, SimError>)
        requires
            self.wf(),
        ensures
            self@.ints.contains_key(key@) ==> r == Ok::<i64, SimError>(self@.ints[key@].1),
            !self@.ints.contains_key(key@) ==> (r matches Err(SimError::MissingKey { key: k }) && k@ == key@),
    {
        let k = String::from_str(key);
        let a = find(&self.ints, &k);
        proof {
            lemma_found(self.ints@, self.int_map@, |v: i64| same(v), key@, a);
        }
        match a {
            Some(i) => Ok(self.ints[i].value),
            None => Err(SimError::MissingKey { key: k }),
        }
    }

    /// The bit pattern of the `f64` stored under the key.
    pub fn get_float(&self, key: &str) -> (r: Result<u64, SimError>)
        requires
            self.wf(),
        ensures
            self@.floats.contains_key(key@) ==> r == Ok::<u64, SimError>(self@.floats[key@].1),
            !self@.floats.contains_key(key@) ==> (r matches Err(SimError::MissingKey { key: k }) && k@ == key@),
    {
        let k = String::from_str(key);
        let a = find(&self.floats, &k);
        proof {
            lemma_found(self.floats@, self.float_map@, |v: u64| same(v), key@, a);
        }
        match a {
            Some(i) => Ok(self.floats[i].value),
            None => Err(SimError::MissingKey { key: k }),
        }
    }

    pub fn get_string(&self, key: &str) -> (r: Result<String, SimError>)
        requires
            self.wf(),
        ensures
            self@.texts.contains_key(key@) ==> (r matches Ok(s) && s@ == self@.texts[key@].1),
            !self@.texts.contains_key(key@) ==> (r matches Err(SimError::MissingKey { key: k }) && k@ == key@),
    {
        let k = String::from_str(key);
        let a = find(&self.texts, &k);
        proof {
            lemma_found(self.texts@, self.text_map@, |v: String| text_view(v), key@, a);
        }
        match a {
            Some(i) => Ok(self.texts[i].value.clone()),
            None => Err(SimError::MissingKey { key: k }),
        }
    }
    /// Writes `value` under `key` at `time`. A write at the key's own write time must
    /// repeat the value there (else `AlreadySet`); repeating it changes nothing. Any
    /// other write replaces the entry, and counts in the edition where the value changed.
    pub fn set_int(&mut self, key: &str, value: i64, time: Time) -> (r: Result<(), SimError>)
        requires
            old(self).wf(),
        ensures
            final(self).wf(),
            match write_result(old(self)@.ints, old(self)@.edition, key@, value, time.0) {
                None => {
                    &&& final(self)@ == old(self)@
                    &&& key@.len() == 0 ==> r == Err::<(), SimError>(SimError::InvalidKey)
                    &&& key@.len() > 0 ==> (r matches Err(SimError::AlreadySet { key: k }) && k@ == key@)
                },
                Some((m, e)) => {
                    &&& r is Ok
                    &&& final(self)@ == (StoreView { edition: e, ints: m, ..old(self)@ })
                },
            },
    {
        if key.is_empty() {
            return Err(SimError::InvalidKey);
        }
        let k = String::from_str(key);
        let v: i64 = value;
        let found = find(&self.ints, &k);
        proof {
            lemma_found(self.ints@, self.int_map@, |x: i64| same(x), key@, found);
        }
        match found {
            Some(i) => {
                let same_time = self.ints[i].time.0 == time.0;
                let same_value = self.ints[i].value == v;
                if same_time {
                    if !same_value {
                        return Err(SimError::AlreadySet { key: k });
                    }
                    proof {
                        assert(self.int_map@.insert(key@, (time.0, value)) =~= self.int_map@);
                    }
                    return Ok(());
                }
                let ghost old_slots = self.ints@;
                let slot = Slot { key: k, time, value: v };
                proof {
                    lemma_update_slot(old_slots, self.int_map@, |x: i64| same(x), i as int, slot);
                }
                self.ints.set(i, slot);
                proof {
                    self.int_map@ = self.int_map@.insert(key@, (time.0, value));
                }
                if !same_value {
                    self.edition = self.edition.wrapping_add(1);
                }
            },
            None => {
                let slot = Slot { key: k, time, value: v };
                proof {
                    lemma_push_slot(self.ints@, self.int_map@, |x: i64| same(x), slot);
                }
                self.ints.push(slot);
                proof {
                    self.int_map@ = self.int_map@.insert(key@, (time.0, value));
                }
                self.edition = self.edition.wrapping_add(1);
            },
        }
        Ok(())
    }

    /// Writes `value` under `key` at `time`. A write at the key's own write time must
    /// repeat the value there (else `AlreadySet`); repeating it changes nothing. Any
    /// other write replaces the entry, and counts in the edition where the value changed.
    /// `value` is the bit pattern of an `f64`.
    pub fn set_float(&mut self, key: &str, value: u64, time: Time) -> (r: Result<(), SimError>)
        requires
            old(self).wf(),
        ensures
            final(self).wf(),
            match write_result(old(self)@.floats, old(self)@.edition, key@, value, time.0) {
                None => {
                    &&& final(self)@ == old(self)@
                    &&& key@.len() == 0 ==> r == Err::<(), SimError>(SimError::InvalidKey)
                    &&& key@.len() > 0 ==> (r matches Err(SimError::AlreadySet { key: k }) && k@ == key@)
                },
                Some((m, e)) => {
                    &&& r is Ok
                    &&& final(self)@ == (StoreView { edition: e, floats: m, ..old(self)@ })
                },
            },
    {
        if key.is_empty() {
            return Err(SimError::InvalidKey);
        }
        let k = String::from_str(key);
        let v: u64 = value;
        let found = find(&self.floats, &k);
        proof {
            lemma_found(self.floats@, self.float_map@, |x: u64| same(x), key@, found);
        }
        match found {
            Some(i) => {
                let same_time = self.floats[i].time.0 == time.0;
                let same_value = self.floats[i].value == v;
                if same_time {
                    if !same_value {
                        return Err(SimError::AlreadySet { key: k });
                    }
                    proof {
                        assert(self.float_map@.insert(key@, (time.0, value)) =~= self.float_map@);
                    }
                    return Ok(());
                }
                let ghost old_slots = self.floats@;
                let slot = Slot { key: k, time, value: v };
                proof {
                    lemma_update_slot(old_slots, self.float_map@, |x: u64| same(x), i as int, slot);
                }
                self.floats.set(i, slot);
                proof {
                    self.float_map@ = self.float_map@.insert(key@, (time.0, value));
                }
                if !same_value {
                    self.edition = self.edition.wrapping_add(1);
                }
            },
            None => {
                let slot = Slot { key: k, time, value: v };
                proof {
                    lemma_push_slot(self.floats@, self.float_map@, |x: u64| same(x), slot);
                }
                self.floats.push(slot);
                proof {
                    self.float_map@ = self.float_map@.insert(key@, (time.0, value));
                }
                self.edition = self.edition.wrapping_add(1);
            },
        }
        Ok(())
    }

    /// Writes `value` under `key` at `time`. A write at the key's own write time must
    /// repeat the value there (else `AlreadySet`); repeating it changes nothing. Any
    /// other write replaces the entry, and counts in the edition where the value changed.
    pub fn set_string(&mut self, key: &str, value: &str, time: Time) -> (r: Result<(), SimError>)
        requires
            old(self).wf(),
        ensures
            final(self).wf(),
            match write_result(old(self)@.texts, old(self)@.edition, key@, value@, time.0) {
                None => {
                    &&& final(self)@ == old(self)@
                    &&& key@.len() == 0 ==> r == Err::<(), SimError>(SimError::InvalidKey)
                    &&& key@.len() > 0 ==> (r matches Err(SimError::AlreadySet { key: k }) && k@ == key@)
                },
                Some((m, e)) => {
                    &&& r is Ok
                    &&& final(self)@ == (StoreView { edition: e, texts: m, ..old(self)@ })
                },
            },
    {
        if key.is_empty() {
            return Err(SimError::InvalidKey);
        }
        let k = String::from_str(key);
        let v: String = String::from_str(value);
        let found = find(&self.texts, &k);
        proof {
            lemma_found(self.texts@, self.text_map@, |x: String| text_view(x), key@, found);
        }
        match found {
            Some(i) => {
                let same_time = self.texts[i].time.0 == time.0;
                let same_value = self.texts[i].value == v;
                if same_time {
                    if !same_value {
                        return Err(SimError::AlreadySet { key: k });
                    }
                    proof {
                        assert(self.text_map@.insert(key@, (time.0, value@)) =~= self.text_map@);
                    }
                    return Ok(());
                }
                let ghost old_slots = self.texts@;
                let slot = Slot { key: k, time, value: v };
                proof {
                    lemma_update_slot(old_slots, self.text_map@, |x: String| text_view(x), i as int, slot);
                }
                self.texts.set(i, slot);
                proof {
                    self.text_map@ = self.text_map@.insert(key@, (time.0, value@));
                }
                if !same_value {
                    self.edition = self.edition.wrapping_add(1);
                }
            },
            None => {
                let slot = Slot { key: k, time, value: v };
                proof {
                    lemma_push_slot(self.texts@, self.text_map@, |x: String| text_view(x), slot);
                }
                self.texts.push(slot);
                proof {
                    self.text_map@ = self.text_map@.insert(key@, (time.0, value@));
                }
                self.edition = self.edition.wrapping_add(1);
            },
        }
        Ok(())
    }
}

} // verus!
