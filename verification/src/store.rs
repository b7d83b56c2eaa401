//! The store contract and the in-memory backing store.
//!
//! A key maps to an ordered list of sibling [`Versioned`] values. A write is
//! accepted only if no stored sibling causally dominates or equals it; an
//! accepted write evicts the siblings it strictly dominates and keeps the
//! incomparable ones side by side, so no concurrent write is ever silently
//! lost.

use vstd::prelude::*;

use crate::version::{clock_cmp, lemma_lt_mutual_is_equal, map_lt, VectorClock, Versioned};

verus! {

use core::cmp::Ordering;

/// The view of one stored sibling: the clock's counters and timestamp, and
/// the value's characters.
pub type SiblingView = ((Map<u16, u64>, u128), Seq<char>);

/// The abstract contents of a store: each stored key mapped to the views of
/// its siblings.
pub type ContentsView = Map<Seq<char>, Seq<SiblingView>>;

/// Why a store operation failed.
#[derive(Debug)]
pub enum StoreError {
    /// A write was rejected because a stored sibling's clock dominates or
    /// equals the incoming clock; carries the dominating clock.
    StaleWrite { dominating: VectorClock },
    /// The store's worker is gone; no request can be served any more.
    ActorUnavailable,
    /// A reply channel was dropped before delivering a result; the outcome
    /// of the operation is unknown.
    ResponseLost,
}

/// The views of a sequence of stored siblings.
pub open spec fn sibling_views(s: Seq<Versioned<String>>) -> Seq<SiblingView> {
    s.map_values(|v: Versioned<String>| v@)
}

/// The siblings a contents map holds under a key, empty when the key was
/// never written.
pub open spec fn siblings_of(m: ContentsView, key: Seq<char>) -> Seq<SiblingView> {
    if m.dom().contains(key) {
        m[key]
    } else {
        Seq::empty()
    }
}

/// Whether a stored clock map makes an incoming clock map `c` stale: it
/// already captures everything `c` does (equal), or strictly more (greater).
pub open spec fn dominates_or_equals(stored: Map<u16, u64>, c: Map<u16, u64>) -> bool {
    stored == c || map_lt(c, stored)
}

/// Whether some stored sibling makes the incoming clock map `c` stale.
pub open spec fn has_dominator(s: Seq<SiblingView>, c: Map<u16, u64>) -> bool {
    exists|i: int| 0 <= i < s.len() && dominates_or_equals((#[trigger] s[i]).0.0, c)
}

/// Whether position `i` holds the first sibling that dominates or equals the
/// incoming clock map `c`.
pub open spec fn first_dominator_at(s: Seq<SiblingView>, c: Map<u16, u64>, i: int) -> bool {
    &&& 0 <= i < s.len()
    &&& dominates_or_equals(s[i].0.0, c)
    &&& forall|j: int| 0 <= j < i ==> !dominates_or_equals((#[trigger] s[j]).0.0, c)
}

/// The siblings that survive an accepted write with clock map `c`: those the
/// incoming clock does not strictly dominate.
pub open spec fn surviving(s: Seq<SiblingView>, c: Map<u16, u64>) -> Seq<SiblingView> {
    s.filter(|x: SiblingView| !map_lt(x.0.0, c))
}

/// What an accepted write of `v` leaves under its key: the new value in
/// front of the surviving siblings.
pub open spec fn put_result_siblings(s: Seq<SiblingView>, v: SiblingView) -> Seq<SiblingView> {
    seq![v] + surviving(s, v.0.0)
}

/// No sibling is strictly below another: concurrent versions are kept, but a
/// dominated version never sits beside the version that superseded it.
pub open spec fn pairwise_unordered(s: Seq<SiblingView>) -> bool {
    forall|i: int, j: int|
        0 <= i < s.len() && 0 <= j < s.len() && i != j ==> !map_lt(
            (#[trigger] s[i]).0.0,
            (#[trigger] s[j]).0.0,
        )
}

/// The contract of a read: it always succeeds and returns exactly the
/// siblings stored under the key, in their stored order.
pub open spec fn get_contract(
    pre: ContentsView,
    key: Seq<char>,
    r: Result<Vec<Versioned<String>>, StoreError>,
) -> bool {
    &&& r is Ok
    &&& sibling_views(r->Ok_0@) == siblings_of(pre, key)
}

/// The contract of a write: rejected exactly when a stored sibling dominates
/// or equals the incoming clock, in which case the error carries the first
/// such sibling's clock and the store is unchanged; otherwise the pre-write
/// siblings are returned and the key now holds the new value in front of the
/// surviving siblings.
pub open spec fn put_contract(
    pre: ContentsView,
    key: Seq<char>,
    v: SiblingView,
    post: ContentsView,
    r: Result<Vec<Versioned<String>>, StoreError>,
) -> bool {
    match r {
        Ok(prev) => {
            &&& !has_dominator(siblings_of(pre, key), v.0.0)
            &&& sibling_views(prev@) == siblings_of(pre, key)
            &&& post == pre.insert(key, put_result_siblings(siblings_of(pre, key), v))
        },
        Err(e) => {
            &&& has_dominator(siblings_of(pre, key), v.0.0)
            &&& post == pre
            &&& match e {
                StoreError::StaleWrite { dominating } => exists|i: int|
                    #[trigger] first_dominator_at(siblings_of(pre, key), v.0.0, i)
                        && (dominating.counters(), dominating.timestamp()) == siblings_of(
                        pre,
                        key,
                    )[i].0,
                _ => false,
            }
        },
    }
}

/// A verified copy of one stored sibling: same clock view, same characters.
fn clone_versioned(v: &Versioned<String>) -> (r: Versioned<String>)
    ensures
        r@ == v@,
{
    Versioned { version: v.version.clone(), value: v.value.clone() }
}

/// A verified copy of a sibling list, element by element.
fn clone_siblings(v: &Vec<Versioned<String>>) -> (r: Vec<Versioned<String>>)
    ensures
        sibling_views(r@) == sibling_views(v@),
{
    let mut r: Vec<Versioned<String>> = Vec::new();
    let mut i: usize = 0;
    while i < v.len()
        invariant
            0 <= i <= v@.len(),
            r@.len() == i,
            forall|j: int| 0 <= j < i ==> (#[trigger] r@[j])@ == v@[j]@,
        decreases v@.len() - i,
    {
        r.push(clone_versioned(&v[i]));
        i += 1;
    }
    proof {
        assert(sibling_views(r@) =~= sibling_views(v@));
    }
    r
}

/// The abstract get/put capability of a versioned store. The verified
/// conflict-resolution contract stands on the concrete implementation's
/// inherent methods; this trait only fixes the shape and that each
/// implementation preserves its own invariant.
pub trait Store: Clone {
    type Key;

    type Value;

    type Error;

    /// The implementation's internal invariant.
    spec fn inv(&self) -> bool;

    /// All siblings stored under `key`; an empty list, not an error, when
    /// the key was never written.
    fn get(&self, key: Self::Key) -> (r: Result<Vec<Versioned<Self::Value>>, Self::Error>)
        requires
            self.inv(),
    ;

    /// Stores `value` under `key` unless a stored sibling makes it stale;
    /// returns the siblings present before the write.
    fn put(&mut self, key: Self::Key, value: Versioned<Self::Value>) -> (r: Result<
        Vec<Versioned<Self::Value>>,
        Self::Error,
    >)
        requires
            old(self).inv(),
        ensures
            final(self).inv(),
    ;
}

/// The concrete backing store: an association list from key to sibling
/// list, with each key held at most once.
#[derive(Debug, Clone)]
pub struct InMemoryStore<K, V> {
    storage_map: Vec<(K, Vec<Versioned<V>>)>,
}

impl InMemoryStore<String, String> {
    /// Looks a key up in the entry list, front to back.
    closed spec fn lookup(
        entries: Seq<(String, Vec<Versioned<String>>)>,
        key: Seq<char>,
    ) -> Option<Seq<SiblingView>>
        decreases entries.len(),
    {
        if entries.len() == 0 {
            None
        } else if entries[0].0@ == key {
            Some(sibling_views(entries[0].1@))
        } else {
            Self::lookup(entries.drop_first(), key)
        }
    }

    /// No two entries share a key.
    spec fn distinct_keys(entries: Seq<(String, Vec<Versioned<String>>)>) -> bool {
        forall|i: int, j: int|
            0 <= i < j < entries.len() ==> (#[trigger] entries[i]).0@ != (#[trigger] entries[j]).0@
    }

    /// The abstract contents: each stored key mapped to its sibling views.
    pub closed spec fn contents(&self) -> ContentsView {
        Map::new(
            |key: Seq<char>| Self::lookup(self.storage_map@, key) is Some,
            |key: Seq<char>| Self::lookup(self.storage_map@, key)->Some_0,
        )
    }

    /// Well-formed: keys are held at most once, and no stored sibling list
    /// holds a version strictly below another of its versions.
    pub closed spec fn wf(&self) -> bool {
        &&& Self::distinct_keys(self.storage_map@)
        &&& forall|i: int|
            0 <= i < self.storage_map@.len() ==> pairwise_unordered(
                sibling_views((#[trigger] self.storage_map@[i]).1@),
            )
    }

    /// With distinct keys, an entry holding the key decides the lookup.
    proof fn lemma_lookup_found(
        entries: Seq<(String, Vec<Versioned<String>>)>,
        key: Seq<char>,
        i: int,
    )
        requires
            Self::distinct_keys(entries),
            0 <= i < entries.len(),
            entries[i].0@ == key,
        ensures
            Self::lookup(entries, key) == Some(sibling_views(entries[i].1@)),
        decreases entries.len(),
    {
        if i == 0 {
        } else {
            assert(entries[0].0@ != key);
            assert(Self::distinct_keys(entries.drop_first())) by {
                assert forall|p: int, q: int|
                    0 <= p < q < entries.drop_first().len() implies (#[trigger] entries.drop_first()[p]).0@
                    != (#[trigger] entries.drop_first()[q]).0@ by {
                    assert(entries.drop_first()[p] == entries[p + 1]);
                    assert(entries.drop_first()[q] == entries[q + 1]);
                }
            }
            Self::lemma_lookup_found(entries.drop_first(), key, i - 1);
        }
    }

    /// A key held by no entry is not found.
    proof fn lemma_lookup_missing(entries: Seq<(String, Vec<Versioned<String>>)>, key: Seq<char>)
        requires
            forall|j: int| 0 <= j < entries.len() ==> (#[trigger] entries[j]).0@ != key,
        ensures
            Self::lookup(entries, key) is None,
        decreases entries.len(),
    {
        if entries.len() > 0 {
            Self::lemma_lookup_missing(entries.drop_first(), key);
        }
    }

    /// An empty store: well-formed, holding nothing.
    pub fn new() -> (r: Self)
        ensures
            r.wf(),
            r.contents() == Map::<Seq<char>, Seq<SiblingView>>::empty(),
    {
        let r = InMemoryStore { storage_map: Vec::new() };
        proof {
            assert(r.contents() =~= Map::<Seq<char>, Seq<SiblingView>>::empty());
        }
        r
    }

    /// The position of the entry holding `key`, if any.
    fn find_key(&self, key: &String) -> (r: Option<usize>)
        ensures
            match r {
                Some(i) => i < self.storage_map@.len() && self.storage_map@[i as int].0@ == key@,
                None => forall|j: int|
                    0 <= j < self.storage_map@.len() ==> (#[trigger] self.storage_map@[j]).0@
                        != key@,
            },
    {
        let mut i: usize = 0;
        while i < self.storage_map.len()
            invariant
                0 <= i <= self.storage_map@.len(),
                forall|j: int| 0 <= j < i ==> (#[trigger] self.storage_map@[j]).0@ != key@,
            decreases self.storage_map@.len() - i,
        {
            if self.storage_map[i].0 == *key {
                return Some(i);
            }
            i += 1;
        }
        None
    }

    /// All siblings stored under `key`, cloned, in their stored order; an
    /// empty list, not an error, when the key was never written.
    pub fn get(&self, key: String) -> (r: Result<Vec<Versioned<String>>, StoreError>)
        requires
            self.wf(),
        ensures
            get_contract(self.contents(), key@, r),
    {
        match self.find_key(&key) {
            Some(i) => {
                proof {
                    Self::lemma_lookup_found(self.storage_map@, key@, i as int);
                }
                Ok(clone_siblings(&self.storage_map[i].1))
            },
            None => {
                proof {
                    Self::lemma_lookup_missing(self.storage_map@, key@);
                    assert(sibling_views(Seq::<Versioned<String>>::empty()) =~= Seq::<
                        SiblingView,
                    >::empty());
                }
                Ok(Vec::new())
            },
        }
    }

    /// Stores `value` under `key` unless a stored sibling's clock dominates
    /// or equals its clock. On success the siblings the write found are
    /// returned and the key now holds the new value followed by the
    /// surviving (incomparable) siblings; on rejection the store is
    /// unchanged and the error carries the first dominating clock.
    #[verifier::loop_isolation(false)]
    pub fn put(&mut self, key: String, value: Versioned<String>) -> (r: Result<
        Vec<Versioned<String>>,
        StoreError,
    >)
        requires
            old(self).wf(),
        ensures
            final(self).wf(),
            put_contract(old(self).contents(), key@, value@, final(self).contents(), r),
    {
        let idx = self.find_key(&key);
        let old_value: Vec<Versioned<String>> = match idx {
            Some(i) => {
                proof {
                    Self::lemma_lookup_found(self.storage_map@, key@, i as int);
                }
                clone_siblings(&self.storage_map[i].1)
            },
            None => {
                proof {
                    Self::lemma_lookup_missing(self.storage_map@, key@);
                    assert(sibling_views(Seq::<Versioned<String>>::empty()) =~= Seq::<
                        SiblingView,
                    >::empty());
                }
                Vec::new()
            },
        };
        let ghost pre_sibs = siblings_of(old(self).contents(), key@);
        let ghost c = value.version.counters();
        proof {
            assert(sibling_views(old_value@) == pre_sibs);
            if idx is Some {
                assert(pairwise_unordered(pre_sibs));
            }
        }

        let mut i: usize = 0;
        while i < old_value.len()
            invariant
                0 <= i <= old_value@.len(),
                forall|j: int|
                    0 <= j < i ==> !dominates_or_equals((#[trigger] pre_sibs[j]).0.0, c),
            decreases old_value@.len() - i,
        {
            proof {
                assert(pre_sibs[i as int] == old_value@[i as int]@);
            }
            match old_value[i].version.partial_cmp(&value.version) {
                Some(Ordering::Greater) | Some(Ordering::Equal) => {
                    let dominating = old_value[i].version.clone();
                    proof {
                        assert(first_dominator_at(pre_sibs, c, i as int));
                    }
                    return Err(StoreError::StaleWrite { dominating });
                },
                _ => {
                    proof {
                        let s = old_value@[i as int].version.counters();
                        if map_lt(c, s) && map_lt(s, c) {
                            lemma_lt_mutual_is_equal(c, s);
                        }
                        assert(!dominates_or_equals(s, c));
                    }
                },
            }
            i += 1;
        }
        proof {
            assert(!has_dominator(pre_sibs, c));
        }

        let mut new_value: Vec<Versioned<String>> = Vec::new();
        new_value.push(clone_versioned(&value));
        let mut i: usize = 0;
        while i < old_value.len()
            invariant
                0 <= i <= old_value@.len(),
                sibling_views(new_value@) == seq![value@] + surviving(
                    pre_sibs.take(i as int),
                    c,
                ),
                pairwise_unordered(sibling_views(new_value@)),
                forall|p: int|
                    1 <= p < new_value@.len() ==> exists|q: int|
                        0 <= q < i && (#[trigger] sibling_views(new_value@)[p]) == pre_sibs[q],
            decreases old_value@.len() - i,
        {
            proof {
                assert(pre_sibs[i as int] == old_value@[i as int]@);
                assert(pre_sibs.take(i as int + 1).drop_last() =~= pre_sibs.take(i as int));
                assert(pre_sibs.take(i as int + 1).last() == pre_sibs[i as int]);
            }
            let ghost nv_before = sibling_views(new_value@);
            let keep = !old_value[i].version.less_than(&value.version);
            proof {
                reveal(Seq::filter);
                let x = pre_sibs[i as int];
                if keep {
                    assert(surviving(pre_sibs.take(i as int + 1), c) == surviving(
                        pre_sibs.take(i as int),
                        c,
                    ).push(x));
                } else {
                    assert(surviving(pre_sibs.take(i as int + 1), c) == surviving(
                        pre_sibs.take(i as int),
                        c,
                    ));
                }
            }
            if keep {
                new_value.push(clone_versioned(&old_value[i]));
                proof {
                    assert(sibling_views(new_value@) =~= nv_before.push(pre_sibs[i as int]));
                    assert(sibling_views(new_value@) =~= seq![value@] + surviving(
                        pre_sibs.take(i as int + 1),
                        c,
                    ));
                    let x = pre_sibs[i as int];
                    assert forall|p: int, q: int|
                        0 <= p < sibling_views(new_value@).len() && 0 <= q < sibling_views(
                            new_value@,
                        ).len() && p != q implies !map_lt(
                        (#[trigger] sibling_views(new_value@)[p]).0.0,
                        (#[trigger] sibling_views(new_value@)[q]).0.0,
                    ) by {
                        let nv = sibling_views(new_value@);
                        let last = nv.len() - 1;
                        if p < last && q < last {
                            assert(nv[p] == nv_before[p] && nv[q] == nv_before[q]);
                        } else {
                            // one of the pair is the newly kept sibling x
                            let o = if p == last {
                                q
                            } else {
                                p
                            };
                            assert(nv[o] == nv_before[o]);
                            if o == 0 {
                                // x against the incoming value: not dominated
                                // by it (it was kept) and not dominating it
                                // (the write was accepted)
                                assert(nv_before[0] == value@);
                                assert(!dominates_or_equals(x.0.0, c));
                            } else {
                                // x against an earlier survivor: both stood
                                // at distinct positions of the old siblings
                                let q0 = choose|q0: int|
                                    0 <= q0 < i && nv_before[o] == pre_sibs[q0];
                                assert(!map_lt(pre_sibs[q0].0.0, pre_sibs[i as int].0.0));
                                assert(!map_lt(pre_sibs[i as int].0.0, pre_sibs[q0].0.0));
                            }
                        }
                    }
                }
            }
            i += 1;
        }
        proof {
            assert(pre_sibs.take(pre_sibs.len() as int) =~= pre_sibs);
            assert(sibling_views(new_value@) == put_result_siblings(pre_sibs, value@));
        }

        let ghost pre_entries = self.storage_map@;
        let ghost new_entry_views = sibling_views(new_value@);
        match idx {
            Some(i2) => {
                self.storage_map.remove(i2);
                proof {
                    pre_entries.remove_ensures(i2 as int);
                }
                self.storage_map.push((key, new_value));
            },
            None => {
                self.storage_map.push((key, new_value));
            },
        }

        proof {
            let post_entries = self.storage_map@;
            let last = post_entries.len() - 1;
            // every earlier position of the new entry list carries an entry
            // of the old list under the same key, and the last carries the
            // written key
            assert(post_entries[last].0@ == key@ && sibling_views(post_entries[last].1@)
                == new_entry_views);
            assert forall|p: int| 0 <= p < last implies exists|q: int|
                0 <= q < pre_entries.len() && (#[trigger] post_entries[p]) == pre_entries[q]
                    && pre_entries[q].0@ != key@ by {
                match idx {
                    Some(i2) => {
                        let q = if p < i2 as int {
                            p
                        } else {
                            p + 1
                        };
                        assert(post_entries[p] == pre_entries[q]);
                    },
                    None => {
                        assert(post_entries[p] == pre_entries[p]);
                    },
                }
            }
            assert(Self::distinct_keys(post_entries)) by {
                assert forall|p: int, q: int| 0 <= p < q < post_entries.len() implies (
                #[trigger] post_entries[p]).0@ != (#[trigger] post_entries[q]).0@ by {
                    match idx {
                        Some(i2) => {
                            let i2 = i2 as int;
                            if q < last {
                                let p0 = if p < i2 {
                                    p
                                } else {
                                    p + 1
                                };
                                let q0 = if q < i2 {
                                    q
                                } else {
                                    q + 1
                                };
                                assert(post_entries[p] == pre_entries[p0]);
                                assert(post_entries[q] == pre_entries[q0]);
                            }
                        },
                        None => {},
                    }
                }
            }
            // the lookup of every key in the new entry list
            assert forall|k: Seq<char>| true implies Self::lookup(post_entries, k) == (if k
                == key@ {
                Some(new_entry_views)
            } else {
                Self::lookup(pre_entries, k)
            }) by {
                if k == key@ {
                    Self::lemma_lookup_found(post_entries, k, last);
                } else {
                    if exists|j: int|
                        0 <= j < pre_entries.len() && (#[trigger] pre_entries[j]).0@ == k {
                        let j = choose|j: int|
                            0 <= j < pre_entries.len() && (#[trigger] pre_entries[j]).0@ == k;
                        Self::lemma_lookup_found(pre_entries, k, j);
                        let j2 = match idx {
                            Some(i2) => if j < i2 as int {
                                j
                            } else {
                                j - 1
                            },
                            None => j,
                        };
                        assert(post_entries[j2] == pre_entries[j]);
                        Self::lemma_lookup_found(post_entries, k, j2);
                    } else {
                        Self::lemma_lookup_missing(pre_entries, k);
                        assert forall|j: int| 0 <= j < post_entries.len() implies (
                        #[trigger] post_entries[j]).0@ != k by {}
                        Self::lemma_lookup_missing(post_entries, k);
                    }
                }
            }
            assert(self.contents() =~= old(self).contents().insert(
                key@,
                put_result_siblings(pre_sibs, value@),
            ));
            // well-formedness of the written sibling lists
            assert forall|p: int| 0 <= p < post_entries.len() implies pairwise_unordered(
                sibling_views((#[trigger] post_entries[p]).1@),
            ) by {
                if p < last {
                    let q = choose|q: int|
                        0 <= q < pre_entries.len() && post_entries[p] == pre_entries[q]
                            && pre_entries[q].0@ != key@;
                    assert(pairwise_unordered(sibling_views(pre_entries[q].1@)));
                }
            }
        }
        Ok(old_value)
    }
}

impl Store for InMemoryStore<String, String> {
    type Key = String;

    type Value = String;

    type Error = StoreError;

    open spec fn inv(&self) -> bool {
        self.wf()
    }

    fn get(&self, key: String) -> (r: Result<Vec<Versioned<String>>, StoreError>) {
        InMemoryStore::get(self, key)
    }

    fn put(&mut self, key: String, value: Versioned<String>) -> (r: Result<
        Vec<Versioned<String>>,
        StoreError,
    >) {
        InMemoryStore::put(self, key, value)
    }
}

/// Law: the stored siblings of a key never hold a version strictly below
/// another stored version of that key — a dominated version is evicted by
/// the write that dominated it, and only concurrent versions sit side by
/// side.
pub proof fn lemma_wf_siblings_unordered(s: &InMemoryStore<String, String>, key: Seq<char>)
    requires
        s.wf(),
    ensures
        pairwise_unordered(siblings_of(s.contents(), key)),
{
    if s.contents().dom().contains(key) {
        if exists|j: int|
            0 <= j < s.storage_map@.len() && (#[trigger] s.storage_map@[j]).0@ == key {
            let j = choose|j: int|
                0 <= j < s.storage_map@.len() && (#[trigger] s.storage_map@[j]).0@ == key;
            InMemoryStore::lemma_lookup_found(s.storage_map@, key, j);
        } else {
            InMemoryStore::lemma_lookup_missing(s.storage_map@, key);
        }
    }
}

/// Law: reads are idempotent — two reads of the same key against the same
/// contents return identical sibling sequences.
pub proof fn lemma_get_idempotent(
    pre: ContentsView,
    key: Seq<char>,
    r1: Result<Vec<Versioned<String>>, StoreError>,
    r2: Result<Vec<Versioned<String>>, StoreError>,
)
    requires
        get_contract(pre, key, r1),
        get_contract(pre, key, r2),
    ensures
        r1 is Ok && r2 is Ok,
        sibling_views(r1->Ok_0@) == sibling_views(r2->Ok_0@),
{
}

/// Law: concurrent writes are both kept — if a write of `v1` is accepted,
/// and an accepted write of `v2` follows whose clock is incomparable with
/// `v1`'s, the key's siblings afterwards contain both values.
pub proof fn lemma_concurrent_siblings_kept(
    pre: ContentsView,
    key: Seq<char>,
    v1: SiblingView,
    v2: SiblingView,
)
    requires
        clock_cmp(v1.0.0, v2.0.0) is None,
        !has_dominator(siblings_of(pre, key), v1.0.0),
        !has_dominator(
            siblings_of(pre.insert(key, put_result_siblings(siblings_of(pre, key), v1)), key),
            v2.0.0,
        ),
    ensures
        ({
            let mid = pre.insert(key, put_result_siblings(siblings_of(pre, key), v1));
            let post = mid.insert(key, put_result_siblings(siblings_of(mid, key), v2));
            &&& siblings_of(post, key).contains(v1)
            &&& siblings_of(post, key).contains(v2)
        }),
{
    let s1 = put_result_siblings(siblings_of(pre, key), v1);
    let mid = pre.insert(key, s1);
    let surv = surviving(s1, v2.0.0);
    let s2 = put_result_siblings(s1, v2);
    assert(s2[0] == v2);
    assert(siblings_of(mid, key) == s1);
    assert(s1[0] == v1);
    s1.lemma_filter_contains(|x: SiblingView| !map_lt(x.0.0, v2.0.0), 0);
    assert(surv.contains(v1));
    let j = choose|j: int| 0 <= j < surv.len() && surv[j] == v1;
    assert(s2[1 + j] == v1);
    assert(s2.contains(v1));
}

/// Law: a strictly dominating write evicts — if a key holds exactly one
/// sibling `v1` and `v2`'s clock strictly dominates `v1`'s, the write of
/// `v2` is accepted and afterwards the key holds `v2` alone.
pub proof fn lemma_dominating_write_evicts(
    pre: ContentsView,
    key: Seq<char>,
    v1: SiblingView,
    v2: SiblingView,
)
    requires
        siblings_of(pre, key) == seq![v1],
        clock_cmp(v1.0.0, v2.0.0) == Some(Ordering::Less),
    ensures
        !has_dominator(siblings_of(pre, key), v2.0.0),
        put_result_siblings(siblings_of(pre, key), v2) == seq![v2],
{
    reveal_with_fuel(Seq::filter, 2);
    if map_lt(v2.0.0, v1.0.0) {
        lemma_lt_mutual_is_equal(v1.0.0, v2.0.0);
    }
    assert forall|i: int| 0 <= i < seq![v1].len() implies !dominates_or_equals(
        (#[trigger] seq![v1][i]).0.0,
        v2.0.0,
    ) by {
        assert(seq![v1][i] == v1);
    }
    assert(seq![v1].drop_last() =~= Seq::<SiblingView>::empty());
    assert(surviving(seq![v1], v2.0.0) =~= Seq::<SiblingView>::empty());
    assert(put_result_siblings(seq![v1], v2) =~= seq![v2]);
}

/// Law: a stale write changes nothing — when some stored sibling dominates
/// or equals the incoming clock, the write is rejected with a stale-write
/// error and the contents after the write equal the contents before it.
pub proof fn lemma_stale_write_rejected(
    pre: ContentsView,
    key: Seq<char>,
    v: SiblingView,
    post: ContentsView,
    r: Result<Vec<Versioned<String>>, StoreError>,
)
    requires
        put_contract(pre, key, v, post, r),
        has_dominator(siblings_of(pre, key), v.0.0),
    ensures
        r is Err,
        r->Err_0 matches StoreError::StaleWrite { dominating },
        post == pre,
{
}

/// Law: writes to distinct keys do not interact — a write under one key
/// leaves the siblings under every other key unchanged, so the outcome of a
/// write there is unchanged too, and two such writes land in the same
/// contents in either order.
pub proof fn lemma_distinct_keys_independent(
    pre: ContentsView,
    k1: Seq<char>,
    s1: Seq<SiblingView>,
    k2: Seq<char>,
    s2: Seq<SiblingView>,
)
    requires
        k1 != k2,
    ensures
        siblings_of(pre.insert(k1, s1), k2) == siblings_of(pre, k2),
        pre.insert(k1, s1).insert(k2, s2) == pre.insert(k2, s2).insert(k1, s1),
{
    assert(pre.insert(k1, s1).insert(k2, s2) =~= pre.insert(k2, s2).insert(k1, s1));
}

} // verus!
