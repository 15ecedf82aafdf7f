//! A fixed-capacity map from strings, open-addressed with linear probing.
//!
//! The table never grows: when every probed slot is taken by another key,
//! `set` reports failure. Deleting simply empties the slot, so the table is
//! modelled slot by slot, exactly as it behaves.

#[allow(deprecated)]
use std::hash::SipHasher;
use std::hash::{Hash, Hasher};

use vstd::prelude::*;

use crate::doc::str_eq;

verus! {

/// One occupied slot: a key and its value.
pub struct MapItem<T> {
    key: String,
    value: T,
}

/// A map from strings to `T` over a fixed number of slots.
pub struct StringMap<T> {
    items: Vec<Option<MapItem<T>>>,
}

impl<T> View for MapItem<T> {
    type V = (Seq<char>, T);

    closed spec fn view(&self) -> (Seq<char>, T) {
        (self.key@, self.value)
    }
}

impl<T> View for StringMap<T> {
    type V = Seq<Option<(Seq<char>, T)>>;

    closed spec fn view(&self) -> Seq<Option<(Seq<char>, T)>> {
        Seq::new(
            self.items@.len(),
            |i: int|
                match self.items@[i] {
                    Some(item) => Some(item@),
                    None => None,
                },
        )
    }
}

/// What the map's hash function returns for a key.
pub uninterp spec fn sip_hash_of(key: Seq<char>) -> usize;

/// Relies on std's `SipHasher`: its default value fixes both of the
/// algorithm's keys to zero, so the hash of a string is a function of its
/// characters alone.
#[verifier::external_body]
#[allow(deprecated)]
fn sip_hash(key: &str) -> (r: usize)
    ensures
        r == sip_hash_of(key@),
{
    let mut hasher = SipHasher::default();
    key.hash(&mut hasher);
    hasher.finish() as usize
}

/// The slot visited `k` steps into a probe that starts at hash `h`.
pub open spec fn probe_index(h: usize, k: int, len: int) -> int
    recommends
        len > 0,
{
    ((h as int) % len + k) % len
}

/// The slot is empty or already holds this key: `set` may claim it.
pub open spec fn slot_fits<T>(slot: Option<(Seq<char>, T)>, key: Seq<char>) -> bool {
    match slot {
        None => true,
        Some(p) => p.0 == key,
    }
}

/// The slot holds this key.
pub open spec fn slot_matches<T>(slot: Option<(Seq<char>, T)>, key: Seq<char>) -> bool {
    match slot {
        None => false,
        Some(p) => p.0 == key,
    }
}

/// The first probe step at or after `k` whose slot `set` may claim.
pub open spec fn first_fit_from<T>(
    m: Seq<Option<(Seq<char>, T)>>,
    h: usize,
    key: Seq<char>,
    k: int,
) -> Option<int>
    decreases m.len() - k,
{
    if k < 0 || k >= m.len() {
        None
    } else if slot_fits(m[probe_index(h, k, m.len() as int)], key) {
        Some(k)
    } else {
        first_fit_from(m, h, key, k + 1)
    }
}

/// The first probe step whose slot `set` may claim, if any.
pub open spec fn spec_first_fit<T>(m: Seq<Option<(Seq<char>, T)>>, h: usize, key: Seq<char>) -> Option<
    int,
> {
    first_fit_from(m, h, key, 0)
}

/// The first probe step at or after `k` whose slot holds the key.
pub open spec fn first_match_from<T>(
    m: Seq<Option<(Seq<char>, T)>>,
    h: usize,
    key: Seq<char>,
    k: int,
) -> Option<int>
    decreases m.len() - k,
{
    if k < 0 || k >= m.len() {
        None
    } else if slot_matches(m[probe_index(h, k, m.len() as int)], key) {
        Some(k)
    } else {
        first_match_from(m, h, key, k + 1)
    }
}

/// The first probe step whose slot holds the key, if any.
pub open spec fn spec_find<T>(m: Seq<Option<(Seq<char>, T)>>, h: usize, key: Seq<char>) -> Option<
    int,
> {
    first_match_from(m, h, key, 0)
}

/// A probe step always lands inside the table.
pub proof fn lemma_probe_range(h: usize, k: int, len: int)
    requires
        len > 0,
    ensures
        0 <= probe_index(h, k, len) < len,
{
    vstd::arithmetic::div_mod::lemma_mod_bound((h as int) % len + k, len);
}

/// A found probe step points at a slot that really holds the key.
pub proof fn lemma_find_found<T>(m: Seq<Option<(Seq<char>, T)>>, h: usize, key: Seq<char>, j: int)
    ensures
        first_match_from(m, h, key, j) matches Some(k) ==> j <= k < m.len() && slot_matches(
            m[probe_index(h, k, m.len() as int)],
            key,
        ),
    decreases m.len() - j,
{
    if 0 <= j < m.len() && !slot_matches(m[probe_index(h, j, m.len() as int)], key) {
        lemma_find_found(m, h, key, j + 1);
    }
}

/// How many slots are occupied.
pub open spec fn spec_occupied<T>(m: Seq<Option<(Seq<char>, T)>>) -> nat
    decreases m.len(),
{
    if m.len() == 0 {
        0
    } else {
        spec_occupied(m.drop_last()) + if m.last() is Some {
            1nat
        } else {
            0nat
        }
    }
}

impl<T> StringMap<T> {
    /// An empty map with `size` slots.
    pub fn new(size: usize) -> (r: StringMap<T>)
        ensures
            r@.len() == size,
            forall|i: int| 0 <= i < size ==> r@[i] is None,
    {
        let mut items: Vec<Option<MapItem<T>>> = Vec::with_capacity(size);
        let mut n: usize = 0;
        while n < size
            invariant
                n <= size,
                items@.len() == n,
                forall|i: int| 0 <= i < n ==> (#[trigger] items@[i]) is None,
            decreases size - n,
        {
            items.push(None);
            n += 1;
        }
        StringMap { items }
    }

    /// The key's hash, as the probing sequence uses it.
    pub fn get_hash(&self, key: &str) -> (r: usize)
        ensures
            r == sip_hash_of(key@),
    {
        sip_hash(key)
    }

    /// Store `value` under `key` in the first probed slot that is empty or
    /// already holds the key. With every probed slot taken by other keys the
    /// table is full for this key: nothing changes and `false` comes back.
    pub fn set(&mut self, key: &str, value: T) -> (r: bool)
        ensures
            match spec_first_fit(old(self)@, sip_hash_of(key@), key@) {
                Some(k) => r == true && final(self)@ == old(self)@.update(
                    probe_index(sip_hash_of(key@), k, old(self)@.len() as int),
                    Some((key@, value)),
                ),
                None => r == false && final(self)@ == old(self)@,
            },
    {
        let h = sip_hash(key);
        let len = self.items.len();
        if len == 0 {
            return false;
        }
        let start = h % len;
        let mut k: usize = 0;
        while k < len
            invariant
                0 < len == self@.len(),
                start == (h as int) % (len as int),
                h == sip_hash_of(key@),
                k <= len,
                self@ == old(self)@,
                first_fit_from(self@, h, key@, 0) == first_fit_from(self@, h, key@, k as int),
            decreases len - k,
        {
            let index = if k < len - start {
                start + k
            } else {
                k - (len - start)
            };
            proof {
                if start + k >= len {
                    vstd::arithmetic::div_mod::lemma_fundamental_div_mod_converse(
                        start + k,
                        len as int,
                        1,
                        start + k - len,
                    );
                } else {
                    vstd::arithmetic::div_mod::lemma_fundamental_div_mod_converse(
                        start + k,
                        len as int,
                        0,
                        start + k,
                    );
                }
                assert(index == probe_index(h, k as int, len as int));
            }
            let fits = match &self.items[index] {
                Some(item) => str_eq(item.key.as_str(), key),
                None => true,
            };
            proof {
                assert(fits == slot_fits(self@[index as int], key@));
            }
            if fits {
                let owned: String = key.to_owned();
                self.items[index] = Some(MapItem { key: owned, value });
                proof {
                    assert(final(self)@ =~= old(self)@.update(
                        index as int,
                        Some((key@, value)),
                    ));
                }
                return true;
            }
            k += 1;
        }
        proof {
            assert(first_fit_from(self@, h, key@, len as int) is None);
        }
        false
    }

    /// The slot index where the key lives, if probing finds it.
    pub fn get_index(&self, key: &str) -> (r: Option<usize>)
        ensures
            match spec_find(self@, sip_hash_of(key@), key@) {
                Some(k) => r == Some(
                    probe_index(sip_hash_of(key@), k, self@.len() as int) as usize,
                ),
                None => r is None,
            },
    {
        let h = sip_hash(key);
        let len = self.items.len();
        if len == 0 {
            return None;
        }
        let start = h % len;
        let mut k: usize = 0;
        while k < len
            invariant
                0 < len == self@.len(),
                start == (h as int) % (len as int),
                h == sip_hash_of(key@),
                k <= len,
                first_match_from(self@, h, key@, 0) == first_match_from(
                    self@,
                    h,
                    key@,
                    k as int,
                ),
            decreases len - k,
        {
            let index = if k < len - start {
                start + k
            } else {
                k - (len - start)
            };
            proof {
                if start + k >= len {
                    vstd::arithmetic::div_mod::lemma_fundamental_div_mod_converse(
                        start + k,
                        len as int,
                        1,
                        start + k - len,
                    );
                } else {
                    vstd::arithmetic::div_mod::lemma_fundamental_div_mod_converse(
                        start + k,
                        len as int,
                        0,
                        start + k,
                    );
                }
                assert(index == probe_index(h, k as int, len as int));
            }
            let matched = match &self.items[index] {
                Some(item) => str_eq(item.key.as_str(), key),
                None => false,
            };
            proof {
                assert(matched == slot_matches(self@[index as int], key@));
            }
            if matched {
                return Some(index);
            }
            k += 1;
        }
        None
    }

    /// A borrow of the value stored under `key`, if any.
    pub fn get(&mut self, key: &str) -> (r: Option<&T>)
        ensures
            final(self)@ == old(self)@,
            match spec_find(old(self)@, sip_hash_of(key@), key@) {
                Some(k) => match r {
                    Some(v) => old(self)@[probe_index(
                        sip_hash_of(key@),
                        k,
                        old(self)@.len() as int,
                    )] == Some((key@, *v)),
                    None => false,
                },
                None => r is None,
            },
    {
        let len = self.items.len();
        proof {
            lemma_find_found(old(self)@, sip_hash_of(key@), key@, 0);
            if len > 0 {
                match spec_find(self@, sip_hash_of(key@), key@) {
                    Some(k) => {
                        lemma_probe_range(sip_hash_of(key@), k, len as int);
                    },
                    None => {},
                }
            }
        }
        match self.get_index(key) {
            None => None,
            Some(index) => match &self.items[index] {
                Some(item) => {
                    proof {
                        assert(self@[index as int] == Some((item.key@, item.value)));
                    }
                    if str_eq(item.key.as_str(), key) {
                        Some(&item.value)
                    } else {
                        None
                    }
                },
                None => {
                    proof {
                        assert(self@[index as int] is None);
                    }
                    None
                },
            },
        }
    }

    /// A mutable borrow of the value stored under `key`, if any: the caller
    /// may overwrite the value in place, and the slot then holds whatever was
    /// written when the borrow ends.
    pub fn get_mut(&mut self, key: &str) -> (r: Option<&mut T>)
        ensures
            match spec_find(old(self)@, sip_hash_of(key@), key@) {
                None => r is None && final(self)@ == old(self)@,
                Some(k) => {
                    let idx = probe_index(sip_hash_of(key@), k, old(self)@.len() as int);
                    &&& r is Some
                    &&& old(self)@[idx] == Some((key@, *r.unwrap()))
                    &&& final(self)@ == old(self)@.update(idx, Some((key@, *final(r.unwrap()))))
                },
            },
    {
        let len = self.items.len();
        proof {
            lemma_find_found(old(self)@, sip_hash_of(key@), key@, 0);
            if len > 0 {
                match spec_find(self@, sip_hash_of(key@), key@) {
                    Some(k) => {
                        lemma_probe_range(sip_hash_of(key@), k, len as int);
                    },
                    None => {},
                }
            }
        }
        match self.get_index(key) {
            None => None,
            Some(index) => {
                let slot = &mut self.items[index];
                match slot {
                    Some(item) => {
                        proof {
                            assert(old(self)@[index as int] == Some((item.key@, item.value)));
                        }
                        Some(&mut item.value)
                    },
                    None => None,
                }
            },
        }
    }

    /// Empty the key's slot, if probing finds it; otherwise change nothing.
    pub fn delete(&mut self, key: &str)
        ensures
            match spec_find(old(self)@, sip_hash_of(key@), key@) {
                Some(k) => final(self)@ == old(self)@.update(
                    probe_index(sip_hash_of(key@), k, old(self)@.len() as int),
                    None,
                ),
                None => final(self)@ == old(self)@,
            },
    {
        let len = self.items.len();
        proof {
            lemma_find_found(old(self)@, sip_hash_of(key@), key@, 0);
            if len > 0 {
                match spec_find(self@, sip_hash_of(key@), key@) {
                    Some(k) => {
                        lemma_probe_range(sip_hash_of(key@), k, len as int);
                    },
                    None => {},
                }
            }
        }
        match self.get_index(key) {
            None => {},
            Some(index) => {
                self.items[index] = None;
                proof {
                    assert(final(self)@ =~= old(self)@.update(index as int, None));
                }
            },
        }
    }

    /// How many slots the table was created with.
    pub fn slot_count(&self) -> (r: usize)
        ensures
            r == self@.len(),
    {
        self.items.len()
    }

    /// How many slots hold a pair.
    pub fn occupied_count(&self) -> (r: usize)
        ensures
            r == spec_occupied(self@),
    {
        let len = self.items.len();
        let mut n: usize = 0;
        let mut count: usize = 0;
        while n < len
            invariant
                n <= len,
                len == self@.len(),
                count == spec_occupied(self@.take(n as int)),
                count <= n,
            decreases len - n,
        {
            proof {
                assert(self@.take(n as int + 1).drop_last() =~= self@.take(n as int));
            }
            let occupied = match &self.items[n] {
                Some(_) => true,
                None => false,
            };
            if occupied {
                count += 1;
            }
            n += 1;
        }
        proof {
            assert(self@.take(len as int) =~= self@);
        }
        count
    }
}

} // verus!
