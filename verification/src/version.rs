//! Vector clocks and versioned values.
//!
//! A [`VectorClock`] captures the causal history of a value as a counter per
//! writer. The per-writer counters live in an `im::OrdMap`, a persistent
//! ordered map, so deriving a new clock never mutates the clock it came from.

use vstd::prelude::*;

use crate::util;

verus! {

use core::cmp::Ordering;

/// im::OrdMap, declared so clocks can hold one; its contents are opaque to
/// the verifier and are spoken of through [`version_map_of`].
#[verifier::external_type_specification]
#[verifier::external_body]
#[verifier::reject_recursive_types(K)]
#[verifier::reject_recursive_types(V)]
pub struct ExOrdMap<K, V>(im::OrdMap<K, V>);

/// The writer -> counter mapping that an `im::OrdMap` holds.
pub uninterp spec fn version_map_of(m: im::OrdMap<u16, u64>) -> Map<u16, u64>;

/// Relies on im::OrdMap::new: the new map holds no bindings.
#[verifier::external_body]
fn version_map_new() -> (r: im::OrdMap<u16, u64>)
    ensures
        forall|w: u16| !version_map_of(r).dom().contains(w),
{
    im::OrdMap::new()
}

/// Relies on im::OrdMap::get: returns the value bound to the key, if any.
#[verifier::external_body]
fn version_map_get(m: &im::OrdMap<u16, u64>, key: u16) -> (r: Option<u64>)
    ensures
        r == if version_map_of(*m).dom().contains(key) {
            Some(version_map_of(*m)[key])
        } else {
            None::<u64>
        },
{
    m.get(&key).copied()
}

/// Relies on im::OrdMap::update: returns a new map with the key bound to the
/// value and every other binding unchanged; the receiver is not mutated.
#[verifier::external_body]
fn version_map_update(m: &im::OrdMap<u16, u64>, key: u16, value: u64) -> (r: im::OrdMap<
    u16,
    u64,
>)
    ensures
        version_map_of(r) == version_map_of(*m).insert(key, value),
{
    m.update(key, value)
}

/// Relies on im::OrdMap::iter: yields each binding exactly once, in strictly
/// ascending key order.
#[verifier::external_body]
fn version_map_entries(m: &im::OrdMap<u16, u64>) -> (r: Vec<(u16, u64)>)
    ensures
        forall|i: int|
            0 <= i < r@.len() ==> version_map_of(*m).contains_pair(
                (#[trigger] r@[i]).0,
                r@[i].1,
            ),
        forall|k: u16|
            #[trigger] version_map_of(*m).dom().contains(k) ==> exists|i: int|
                0 <= i < r@.len() && (#[trigger] r@[i]).0 == k,
        forall|i: int, j: int| 0 <= i < j < r@.len() ==> (#[trigger] r@[i]).0 < (#[trigger] r@[j]).0,
{
    m.iter().map(|(k, v)| (*k, *v)).collect()
}

/// Relies on im::OrdMap::eq: two maps are equal exactly when they hold the
/// same bindings.
#[verifier::external_body]
fn version_map_eq(a: &im::OrdMap<u16, u64>, b: &im::OrdMap<u16, u64>) -> (r: bool)
    ensures
        r == (version_map_of(*a) == version_map_of(*b)),
{
    a == b
}

/// Relies on im::OrdMap::clone: the clone holds the same bindings.
#[verifier::external_body]
fn version_map_clone(m: &im::OrdMap<u16, u64>) -> (r: im::OrdMap<u16, u64>)
    ensures
        version_map_of(r) == version_map_of(*m),
{
    m.clone()
}

/// A causality token: one monotonically increasing counter per logical
/// writer, plus a wall-clock timestamp recorded when the clock was made.
#[derive(Debug)]
pub struct VectorClock {
    pub versions: im::OrdMap<u16, u64>,
    ts: u128,
}

/// Clock order: `a` is less than `b` when every writer `a` knows of has a
/// strictly larger counter in `b`. Writers present only in `b` are not
/// examined, so a clock with no counters is less than every clock, vacuously.
pub open spec fn map_lt(a: Map<u16, u64>, b: Map<u16, u64>) -> bool {
    forall|w: u16| #[trigger] a.dom().contains(w) ==> b.dom().contains(w) && a[w] < b[w]
}

/// The outcome of comparing two clocks by their counter maps. Identical maps
/// compare equal; that branch is taken first, so two clocks with no counters
/// are equal even though [`map_lt`] also holds between them vacuously.
pub open spec fn clock_cmp(a: Map<u16, u64>, b: Map<u16, u64>) -> Option<Ordering> {
    if a == b {
        Some(Ordering::Equal)
    } else if map_lt(a, b) {
        Some(Ordering::Less)
    } else if map_lt(b, a) {
        Some(Ordering::Greater)
    } else {
        None
    }
}

/// Two counter maps that dominate each other are the same map: strict
/// domination in both directions is contradictory writer by writer, and
/// mutual vacuous domination forces both maps to hold no counters.
pub proof fn lemma_lt_mutual_is_equal(a: Map<u16, u64>, b: Map<u16, u64>)
    requires
        map_lt(a, b),
        map_lt(b, a),
    ensures
        a == b,
{
    if exists|w: u16| a.dom().contains(w) {
        let w = choose|w: u16| a.dom().contains(w);
        assert(b.dom().contains(w) && a[w] < b[w]);
        assert(a.dom().contains(w) && b[w] < a[w]);
    } else {
        assert forall|w: u16| !b.dom().contains(w) by {
            if b.dom().contains(w) {
                assert(a.dom().contains(w));
            }
        }
        assert(a =~= b);
    }
}

/// Law: the causal comparison is well-defined — for any two clocks exactly
/// one of `a` below `b`, `b` below `a`, equality, or incomparability is the
/// outcome. Equality is decided first, so two clocks with no counters are
/// equal, not mutually below each other.
pub proof fn lemma_comparison_exclusive(a: Map<u16, u64>, b: Map<u16, u64>)
    ensures
        clock_cmp(a, b) == Some(Ordering::Less) <==> clock_cmp(b, a) == Some(Ordering::Greater),
        clock_cmp(a, b) == Some(Ordering::Equal) <==> a == b,
        clock_cmp(a, b) is None <==> clock_cmp(b, a) is None,
        ({
            let a_below = clock_cmp(a, b) == Some(Ordering::Less);
            let b_below = clock_cmp(b, a) == Some(Ordering::Less);
            let equal = a == b;
            let incomparable = clock_cmp(a, b) == None::<Ordering>;
            &&& a_below || b_below || equal || incomparable
            &&& !(a_below && b_below)
            &&& !(a_below && equal)
            &&& !(a_below && incomparable)
            &&& !(b_below && equal)
            &&& !(b_below && incomparable)
            &&& !(equal && incomparable)
        }),
{
    if a != b && map_lt(a, b) && map_lt(b, a) {
        lemma_lt_mutual_is_equal(a, b);
    }
}

/// The counter a clock map holds for a writer, 0 when the writer is absent.
pub open spec fn counter_of(m: Map<u16, u64>, w: u16) -> u64 {
    if m.dom().contains(w) {
        m[w]
    } else {
        0
    }
}

impl VectorClock {
    /// The writer -> counter mapping this clock holds.
    pub closed spec fn counters(&self) -> Map<u16, u64> {
        version_map_of(self.versions)
    }

    /// The wall-clock timestamp this clock carries.
    pub closed spec fn timestamp(&self) -> u128 {
        self.ts
    }

    /// A new clock derived from this one: the writer's counter grows by
    /// `by` (from 0 if absent) and the timestamp is replaced. The receiver
    /// is never mutated.
    pub fn incremented(&self, node: u16, by: u64, ts: u128) -> (r: Self)
        requires
            counter_of(self.counters(), node) + by <= u64::MAX,
        ensures
            r.counters() == self.counters().insert(
                node,
                (counter_of(self.counters(), node) + by) as u64,
            ),
            r.timestamp() == ts,
    {
        let new_value: u64 = match version_map_get(&self.versions, node) {
            Some(old) => old + by,
            None => by,
        };
        VectorClock { versions: version_map_update(&self.versions, node, new_value), ts }
    }

    /// Whether this clock is strictly below `other` in the causal order.
    pub fn less_than(&self, other: &Self) -> (r: bool)
        ensures
            r == map_lt(self.counters(), other.counters()),
    {
        let entries = version_map_entries(&self.versions);
        let mut i: usize = 0;
        while i < entries.len()
            invariant
                0 <= i <= entries@.len(),
                forall|j: int|
                    0 <= j < entries@.len() ==> self.counters().contains_pair(
                        (#[trigger] entries@[j]).0,
                        entries@[j].1,
                    ),
                forall|k: u16|
                    #[trigger] self.counters().dom().contains(k) ==> exists|j: int|
                        0 <= j < entries@.len() && (#[trigger] entries@[j]).0 == k,
                forall|j: int|
                    0 <= j < i ==> other.counters().dom().contains((#[trigger] entries@[j]).0)
                        && entries@[j].1 < other.counters()[entries@[j].0],
            decreases entries@.len() - i,
        {
            let (node, version) = entries[i];
            match version_map_get(&other.versions, node) {
                Some(other_version) => {
                    if version >= other_version {
                        return false;
                    }
                },
                None => {
                    return false;
                },
            }
            i += 1;
        }
        true
    }

    /// The clock's wire form: its counters as (writer, counter) pairs in
    /// strictly ascending writer order. Together with the timestamp, this
    /// is the concrete encoding of a clock for a transport to carry.
    pub fn to_entries(&self) -> (r: Vec<(u16, u64)>)
        ensures
            entries_map(r@) == self.counters(),
            forall|i: int, j: int|
                0 <= i < j < r@.len() ==> (#[trigger] r@[i]).0 < (#[trigger] r@[j]).0,
    {
        let r = version_map_entries(&self.versions);
        proof {
            lemma_entries_map_from_map(r@, self.counters());
        }
        r
    }

    /// A clock rebuilt from its wire form: it carries exactly the counters
    /// the pairs denote, and the given timestamp, so encoding a clock and
    /// rebuilding it loses nothing.
    pub fn from_entries(entries: &Vec<(u16, u64)>, ts: u128) -> (r: Self)
        ensures
            r.counters() == entries_map(entries@),
            r.timestamp() == ts,
    {
        let mut versions = version_map_new();
        proof {
            assert(version_map_of(versions) =~= Map::<u16, u64>::empty());
        }
        let mut i: usize = 0;
        while i < entries.len()
            invariant
                0 <= i <= entries@.len(),
                version_map_of(versions) == entries_map(entries@.take(i as int)),
            decreases entries@.len() - i,
        {
            let (w, n) = entries[i];
            versions = version_map_update(&versions, w, n);
            proof {
                assert(entries@.take(i as int + 1).drop_last() =~= entries@.take(i as int));
                assert(entries@.take(i as int + 1).last() == entries@[i as int]);
            }
            i += 1;
        }
        proof {
            assert(entries@.take(entries@.len() as int) =~= entries@);
        }
        VectorClock { versions, ts }
    }
}

/// The counter map a sequence of (writer, counter) pairs denotes, a later
/// pair overriding an earlier one with the same writer.
pub open spec fn entries_map(s: Seq<(u16, u64)>) -> Map<u16, u64>
    decreases s.len(),
{
    if s.len() == 0 {
        Map::empty()
    } else {
        entries_map(s.drop_last()).insert(s.last().0, s.last().1)
    }
}

/// Pairs in strictly ascending writer order that cover a counter map
/// denote exactly that map.
proof fn lemma_entries_map_from_map(s: Seq<(u16, u64)>, m: Map<u16, u64>)
    requires
        forall|i: int| 0 <= i < s.len() ==> m.contains_pair((#[trigger] s[i]).0, s[i].1),
        forall|k: u16|
            #[trigger] m.dom().contains(k) ==> exists|i: int|
                0 <= i < s.len() && (#[trigger] s[i]).0 == k,
        forall|i: int, j: int| 0 <= i < j < s.len() ==> (#[trigger] s[i]).0 < (#[trigger] s[j]).0,
    ensures
        entries_map(s) == m,
    decreases s.len(),
{
    if s.len() == 0 {
        assert(m.dom() =~= Set::<u16>::empty());
        assert(m =~= Map::<u16, u64>::empty());
    } else {
        let s0 = s.drop_last();
        let last = s.last();
        let m0 = m.remove(last.0);
        assert forall|i: int| 0 <= i < s0.len() implies m0.contains_pair(
            (#[trigger] s0[i]).0,
            s0[i].1,
        ) by {
            assert(s0[i] == s[i]);
            assert(s[i].0 < last.0);
        }
        assert forall|k: u16| #[trigger] m0.dom().contains(k) implies exists|i: int|
            0 <= i < s0.len() && (#[trigger] s0[i]).0 == k by {
            let i = choose|i: int| 0 <= i < s.len() && (#[trigger] s[i]).0 == k;
            assert(i < s.len() - 1);
            assert(s0[i] == s[i]);
        }
        lemma_entries_map_from_map(s0, m0);
        assert(m0.insert(last.0, last.1) =~= m);
    }
}

impl Default for VectorClock {
    /// A clock with no counters, timestamped with the current wall clock.
    fn default() -> (r: Self)
        ensures
            r.counters() == Map::<u16, u64>::empty(),
    {
        let versions = version_map_new();
        proof {
            assert(version_map_of(versions) =~= Map::<u16, u64>::empty());
        }
        VectorClock { versions, ts: util::current_time_millis() }
    }
}

impl Clone for VectorClock {
    /// A clock with the same counters and timestamp.
    fn clone(&self) -> (r: Self)
        ensures
            r.counters() == self.counters(),
            r.timestamp() == self.timestamp(),
    {
        VectorClock { versions: version_map_clone(&self.versions), ts: self.ts }
    }
}

impl PartialEq for VectorClock {
    fn eq(&self, other: &Self) -> (r: bool) {
        version_map_eq(&self.versions, &other.versions) && self.ts == other.ts
    }
}

impl vstd::std_specs::cmp::PartialEqSpecImpl for VectorClock {
    open spec fn obeys_eq_spec() -> bool {
        true
    }

    open spec fn eq_spec(&self, other: &Self) -> bool {
        self.counters() == other.counters() && self.timestamp() == other.timestamp()
    }
}

impl PartialOrd for VectorClock {
    /// Where this clock stands to `other` in the causal partial order:
    /// equal counter maps compare equal, one-sided domination compares
    /// less or greater, and anything else is incomparable (`None`).
    fn partial_cmp(&self, other: &Self) -> (r: Option<Ordering>) {
        if version_map_eq(&self.versions, &other.versions) {
            Some(Ordering::Equal)
        } else if self.less_than(other) {
            Some(Ordering::Less)
        } else if other.less_than(self) {
            Some(Ordering::Greater)
        } else {
            None
        }
    }
}

impl vstd::std_specs::cmp::PartialOrdSpecImpl for VectorClock {
    open spec fn obeys_partial_cmp_spec() -> bool {
        true
    }

    open spec fn partial_cmp_spec(&self, other: &Self) -> Option<Ordering> {
        clock_cmp(self.counters(), other.counters())
    }
}

/// A value paired with the [`VectorClock`] that produced it.
#[derive(Debug)]
pub struct Versioned<T> {
    pub version: VectorClock,
    pub value: T,
}

impl<T: Clone> Clone for Versioned<T> {
    /// A copy whose clock has the same counters and timestamp, and whose
    /// value is a clone of the original's.
    fn clone(&self) -> (r: Self)
        ensures
            r.version.counters() == self.version.counters(),
            r.version.timestamp() == self.version.timestamp(),
            vstd::pervasive::cloned::<T>(self.value, r.value),
    {
        Versioned { version: self.version.clone(), value: self.value.clone() }
    }
}

impl<T: View> View for Versioned<T> {
    type V = ((Map<u16, u64>, u128), T::V);

    open spec fn view(&self) -> ((Map<u16, u64>, u128), T::V) {
        ((self.version.counters(), self.version.timestamp()), self.value@)
    }
}

impl<T> Versioned<T> {
    /// Wraps a value with a fresh clock that carries no causal history.
    pub fn new(value: T) -> (r: Self)
        ensures
            r.version.counters() == Map::<u16, u64>::empty(),
            r.value == value,
    {
        Versioned { version: VectorClock::default(), value }
    }

    /// Rebuilds a versioned value from its parts, unchanged.
    pub fn from(other: Versioned<T>) -> (r: Self)
        ensures
            r == other,
    {
        Versioned { version: other.version, value: other.value }
    }

    /// Wraps a value with a caller-supplied clock carrying causal history
    /// the caller read earlier.
    pub fn with_version(version: VectorClock, value: T) -> (r: Self)
        ensures
            r.version == version,
            r.value == value,
    {
        Versioned { version, value }
    }

    /// Where this value's clock stands to `other`'s, as in
    /// [`VectorClock::partial_cmp`].
    pub fn compare_versions(&self, other: &Self) -> (r: Option<Ordering>)
        ensures
            r == clock_cmp(self.version.counters(), other.version.counters()),
    {
        self.version.partial_cmp(&other.version)
    }
}

} // verus!
