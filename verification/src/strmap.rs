//! A map from strings to values that is kept in the order of its keys.

use crate::text::{lemma_str_order, lemma_str_total, str_before, str_place, Place};
use vstd::prelude::*;

verus! {

/// A map whose entries stand in strictly ascending order of their keys, so
/// that no key occurs twice and a walk over the entries is a walk in key order.
#[derive(Debug)]
pub struct StrMap<V> {
    pub entries: Vec<(String, V)>,
}

/// The entries are in strictly ascending order of their keys.
pub open spec fn keys_ascend<V>(entries: Seq<(String, V)>) -> bool {
    forall|i: int, j: int|
        0 <= i < j < entries.len() ==> str_before(#[trigger] entries[i].0@, #[trigger] entries[j].0@)
}

/// Entry `i` holds `key`.
pub open spec fn key_at<V>(entries: Seq<(String, V)>, key: Seq<char>, i: int) -> bool {
    0 <= i < entries.len() && entries[i].0@ == key
}

impl<V> StrMap<V> {
    pub open spec fn wf(&self) -> bool {
        keys_ascend(self.entries@)
    }

    /// The map's contents.
    pub open spec fn map(&self) -> Map<Seq<char>, V> {
        Map::new(
            |key: Seq<char>| exists|i: int| key_at(self.entries@, key, i),
            |key: Seq<char>| self.entries@[choose|i: int| key_at(self.entries@, key, i)].1,
        )
    }

    /// In a well-formed map a key names one entry.
    pub proof fn lemma_entry(&self, i: int)
        requires
            self.wf(),
            0 <= i < self.entries@.len(),
        ensures
            self.map().contains_key(self.entries@[i].0@),
            self.map()[self.entries@[i].0@] == self.entries@[i].1,
    {
        let key = self.entries@[i].0@;
        assert(key_at(self.entries@, key, i));
        let j = choose|j: int| key_at(self.entries@, key, j);
        lemma_str_order(key, key, key);
        if j < i {
            assert(str_before(self.entries@[j].0@, self.entries@[i].0@));
        } else if i < j {
            assert(str_before(self.entries@[i].0@, self.entries@[j].0@));
        }
    }

    /// A map without entries is the empty map, and only such a one is.
    pub proof fn lemma_empty(&self)
        requires
            self.wf(),
        ensures
            self.entries@.len() == 0 <==> self.map() == Map::<Seq<char>, V>::empty(),
    {
        if self.entries@.len() > 0 {
            self.lemma_entry(0);
        } else {
            assert(self.map() =~= Map::<Seq<char>, V>::empty());
        }
    }

    pub fn new() -> (map: Self)
        ensures
            map.wf(),
            map.entries@.len() == 0,
            map.map() == Map::<Seq<char>, V>::empty(),
    {
        let map = StrMap { entries: Vec::new() };
        assert(map.map() =~= Map::<Seq<char>, V>::empty());
        map
    }

    /// The place of the first entry whose key is not before `key`.
    pub fn lower_bound(&self, key: &str) -> (at: usize)
        requires
            self.wf(),
        ensures
            at <= self.entries@.len(),
            forall|i: int| 0 <= i < at ==> str_before(#[trigger] self.entries@[i].0@, key@),
            forall|i: int|
                at <= i < self.entries@.len() ==> !str_before(
                    #[trigger] self.entries@[i].0@,
                    key@,
                ),
    {
        let mut lo: usize = 0;
        let mut hi: usize = self.entries.len();
        while lo < hi
            invariant
                self.wf(),
                lo <= hi <= self.entries@.len(),
                forall|i: int| 0 <= i < lo ==> str_before(#[trigger] self.entries@[i].0@, key@),
                forall|i: int|
                    hi <= i < self.entries@.len() ==> !str_before(
                        #[trigger] self.entries@[i].0@,
                        key@,
                    ),
            decreases hi - lo,
        {
            let mid: usize = lo + (hi - lo) / 2;
            match str_place(self.entries[mid].0.as_str(), key) {
                Place::Before => {
                    proof {
                        assert forall|i: int| 0 <= i < mid + 1 implies str_before(
                            #[trigger] self.entries@[i].0@,
                            key@,
                        ) by {
                            if i < mid {
                                lemma_str_order(
                                    self.entries@[i].0@,
                                    self.entries@[mid as int].0@,
                                    key@,
                                );
                            }
                        }
                    }
                    lo = mid + 1;
                },
                _ => {
                    proof {
                        assert forall|i: int| mid <= i < self.entries@.len() implies !str_before(
                            #[trigger] self.entries@[i].0@,
                            key@,
                        ) by {
                            if mid < i {
                                lemma_str_order(
                                    self.entries@[mid as int].0@,
                                    self.entries@[i].0@,
                                    key@,
                                );
                            }
                        }
                    }
                    hi = mid;
                },
            }
        }
        lo
    }

    /// The place of `key`, if the map holds it.
    pub fn find(&self, key: &str) -> (place: Option<usize>)
        requires
            self.wf(),
        ensures
            place matches Some(i) ==> {
                &&& key_at(self.entries@, key@, i as int)
                &&& self.map().contains_key(key@)
                &&& self.map()[key@] == self.entries@[i as int].1
            },
            place is None ==> !self.map().contains_key(key@),
    {
        let at: usize = self.lower_bound(key);
        if at < self.entries.len() {
            match str_place(self.entries[at].0.as_str(), key) {
                Place::Same => {
                    proof {
                        self.lemma_entry(at as int);
                    }
                    return Some(at);
                },
                _ => {},
            }
        }
        proof {
            if exists|i: int| key_at(self.entries@, key@, i) {
                let i = choose|i: int| key_at(self.entries@, key@, i);
                lemma_str_order(key@, key@, key@);
                if i < at {
                    assert(str_before(self.entries@[i].0@, key@));
                } else if i > at {
                    assert(str_before(self.entries@[at as int].0@, self.entries@[i].0@));
                }
                assert(false);
            }
        }
        None
    }

    pub fn get(&self, key: &str) -> (value: Option<&V>)
        requires
            self.wf(),
        ensures
            value == (if self.map().contains_key(key@) {
                Some(&self.map()[key@])
            } else {
                None
            }),
    {
        match self.find(key) {
            Some(i) => Some(&self.entries[i].1),
            None => None,
        }
    }

    pub fn contains_key(&self, key: &str) -> (found: bool)
        requires
            self.wf(),
        ensures
            found == self.map().contains_key(key@),
    {
        self.find(key).is_some()
    }

    pub fn len(&self) -> (n: usize)
        ensures
            n == self.entries@.len(),
    {
        self.entries.len()
    }

    pub fn is_empty(&self) -> (empty: bool)
        ensures
            empty == (self.entries@.len() == 0),
    {
        self.entries.len() == 0
    }

    /// Sets `key` to `value`, and hands back the value that it had.
    pub fn insert(&mut self, key: String, value: V) -> (previous: Option<V>)
        requires
            old(self).wf(),
        ensures
            final(self).wf(),
            final(self).map() == old(self).map().insert(key@, value),
            previous == (if old(self).map().contains_key(key@) {
                Some(old(self).map()[key@])
            } else {
                None
            }),
    {
        let ghost before = self.entries@;
        let ghost was = *self;
        let ghost name = key@;
        match self.find(key.as_str()) {
            Some(i) => {
                let mut slot = (key, value);
                let ghost fresh = slot;
                core::mem::swap(&mut slot, &mut self.entries[i]);
                proof {
                    assert(self.entries@ =~= before.update(i as int, fresh));
                    assert forall|a: int, b: int| 0 <= a < b < self.entries@.len() implies str_before(
                        #[trigger] self.entries@[a].0@,
                        #[trigger] self.entries@[b].0@,
                    ) by {
                        assert(str_before(before[a].0@, before[b].0@));
                    }
                    Self::lemma_same_keys(was, *self, name, value, i as int);
                }
                Some(slot.1)
            },
            None => {
                let at: usize = self.lower_bound(key.as_str());
                self.entries.insert(at, (key, value));
                proof {
                    let after = self.entries@;
                    assert(after =~= before.insert(at as int, (key, value)));
                    assert forall|a: int, b: int| 0 <= a < b < after.len() implies str_before(
                        #[trigger] after[a].0@,
                        #[trigger] after[b].0@,
                    ) by {
                        let oa = if a < at { a } else { a - 1 };
                        let ob = if b < at { b } else { b - 1 };
                        if a != at && b != at {
                            assert(after[a] == before[oa] && after[b] == before[ob]);
                            assert(str_before(before[oa].0@, before[ob].0@));
                        } else if b == at {
                            assert(after[a] == before[a]);
                        } else {
                            assert(after[b] == before[ob]);
                            assert(!str_before(before[ob].0@, name));
                            assert(before[ob].0@ != name) by {
                                if before[ob].0@ == name {
                                    assert(key_at(before, name, ob));
                                }
                            }
                            lemma_str_total(before[ob].0@, name);
                        }
                    }
                    Self::lemma_inserted(was, *self, name, value, at as int);
                }
                None
            },
        }
    }

    proof fn lemma_same_keys(was: Self, now: Self, key: Seq<char>, value: V, at: int)
        requires
            was.wf(),
            now.wf(),
            key_at(was.entries@, key, at),
            now.entries@.len() == was.entries@.len(),
            now.entries@[at].0@ == key,
            now.entries@[at].1 == value,
            forall|i: int| 0 <= i < was.entries@.len() && i != at ==> #[trigger] now.entries@[i]
                == was.entries@[i],
        ensures
            now.map() == was.map().insert(key, value),
    {
        assert forall|k: Seq<char>| #[trigger]
            now.map().contains_key(k) == was.map().insert(key, value).contains_key(k) by {
            if now.map().contains_key(k) {
                let i = choose|i: int| key_at(now.entries@, k, i);
                assert(i != at ==> key_at(was.entries@, k, i));
            }
            if was.map().contains_key(k) {
                let i = choose|i: int| key_at(was.entries@, k, i);
                assert(key_at(now.entries@, k, i));
            }
            assert(key_at(now.entries@, key, at));
        }
        assert forall|k: Seq<char>| #[trigger] now.map().contains_key(k) implies now.map()[k]
            == was.map().insert(key, value)[k] by {
            let i = choose|i: int| key_at(now.entries@, k, i);
            now.lemma_entry(i);
            was.lemma_entry(i);
            if k == key {
                now.lemma_entry(at);
            }
        }
        assert(now.map() =~= was.map().insert(key, value));
    }

    proof fn lemma_inserted(was: Self, now: Self, key: Seq<char>, value: V, at: int)
        requires
            was.wf(),
            now.wf(),
            !was.map().contains_key(key),
            0 <= at <= was.entries@.len(),
            now.entries@.len() == was.entries@.len() + 1,
            now.entries@[at].0@ == key,
            now.entries@[at].1 == value,
            forall|i: int| 0 <= i < at ==> #[trigger] now.entries@[i] == was.entries@[i],
            forall|i: int|
                at <= i < was.entries@.len() ==> #[trigger] was.entries@[i] == now.entries@[i + 1],
        ensures
            now.map() == was.map().insert(key, value),
    {
        assert(key_at(now.entries@, key, at));
        assert forall|k: Seq<char>| #[trigger]
            now.map().contains_key(k) == was.map().insert(key, value).contains_key(k) by {
            if now.map().contains_key(k) {
                let i = choose|i: int| key_at(now.entries@, k, i);
                if i < at {
                    assert(key_at(was.entries@, k, i));
                } else if i > at {
                    assert(was.entries@[i - 1] == now.entries@[i]);
                    assert(key_at(was.entries@, k, i - 1));
                }
            }
            if was.map().contains_key(k) {
                let i = choose|i: int| key_at(was.entries@, k, i);
                if i < at {
                    assert(now.entries@[i] == was.entries@[i]);
                    assert(key_at(now.entries@, k, i));
                } else {
                    assert(key_at(now.entries@, k, i + 1));
                }
            }
        }
        assert forall|k: Seq<char>| #[trigger] now.map().contains_key(k) implies now.map()[k]
            == was.map().insert(key, value)[k] by {
            let i = choose|i: int| key_at(now.entries@, k, i);
            now.lemma_entry(i);
            if i < at {
                was.lemma_entry(i);
            } else if i > at {
                assert(was.entries@[i - 1] == now.entries@[i]);
                was.lemma_entry(i - 1);
            }
        }
        assert(now.map() =~= was.map().insert(key, value));
    }
}

} // verus!
