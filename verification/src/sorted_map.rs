//! An ordered map from strings, kept as two parallel vectors.

use vstd::prelude::*;

use crate::text::{key_lt, lemma_key_lt_total, lemma_key_lt_transitive, rank, string_views, Rank};

verus! {

/// Whether each string comes before all that follow it.
pub open spec fn strictly_sorted(keys: Seq<Seq<char>>) -> bool {
    forall|i: int, j: int| 0 <= i < j < keys.len() ==> key_lt(#[trigger] keys[i], #[trigger] keys[j])
}

/// Whether the second pair of sequences is the first with a key and its value put
/// in at `p`.
pub open spec fn added_at<T>(
    keys: Seq<Seq<char>>,
    values: Seq<T>,
    keys2: Seq<Seq<char>>,
    values2: Seq<T>,
    key: Seq<char>,
    value: T,
    p: int,
) -> bool {
    &&& 0 <= p <= keys.len()
    &&& keys2 == keys.insert(p, key)
    &&& values2 == values.insert(p, value)
}

/// Whether the second pair of sequences is the first with the value of the key at
/// `p` set to another one.
pub open spec fn changed_at<T>(
    keys: Seq<Seq<char>>,
    values: Seq<T>,
    keys2: Seq<Seq<char>>,
    values2: Seq<T>,
    key: Seq<char>,
    value: T,
    p: int,
) -> bool {
    &&& 0 <= p < keys.len()
    &&& keys[p] == key
    &&& keys2 == keys
    &&& values2 == values.update(p, value)
}

/// A map from strings to `V`, walked in the order of its keys.
pub struct StringMap<V> {
    keys: Vec<String>,
    values: Vec<V>,
}

impl<V: View> StringMap<V> {
    /// The keys, in order.
    pub closed spec fn keys_seq(&self) -> Seq<Seq<char>> {
        string_views(self.keys@)
    }

    /// The values, in the order of their keys.
    pub closed spec fn values_seq(&self) -> Seq<V::V> {
        self.values@.map_values(|v: V| v@)
    }

    /// Every key has a value, and the keys are in order, each once.
    pub open spec fn wf(&self) -> bool {
        &&& self.keys_seq().len() == self.values_seq().len()
        &&& strictly_sorted(self.keys_seq())
    }

    /// The map itself.
    pub open spec fn view(&self) -> Map<Seq<char>, V::V> {
        Map::new(
            |k: Seq<char>| self.keys_seq().contains(k),
            |k: Seq<char>| self.values_seq()[self.keys_seq().index_of(k)],
        )
    }

    /// The entry at a position is in the map.
    pub proof fn lemma_at(&self, i: int)
        requires
            self.wf(),
            0 <= i < self.keys_seq().len(),
        ensures
            self@.contains_key(self.keys_seq()[i]),
            self@[self.keys_seq()[i]] == self.values_seq()[i],
    {
        let ks = self.keys_seq();
        assert(ks.contains(ks[i]));
        let j = ks.index_of(ks[i]);
        assert(ks[j] == ks[i]);
        if j < i {
            lemma_key_lt_total(ks[j], ks[i]);
        } else if i < j {
            lemma_key_lt_total(ks[i], ks[j]);
        }
    }

    /// A key of the map stands at some position.
    pub proof fn lemma_position(&self, k: Seq<char>) -> (i: int)
        requires
            self.wf(),
            self@.contains_key(k),
        ensures
            0 <= i < self.keys_seq().len(),
            self.keys_seq()[i] == k,
            self.values_seq()[i] == self@[k],
    {
        let i = self.keys_seq().index_of(k);
        self.lemma_at(i);
        i
    }

    /// The keys of the map, in order, are those that it is walked by.
    pub proof fn lemma_keys(&self)
        requires
            self.wf(),
        ensures
            keys_of(self@, self.keys_seq()),
            keys_in_order(self@) == self.keys_seq(),
    {
        lemma_keys_in_order(self@, self.keys_seq());
    }

    /// An empty map.
    pub fn new() -> (m: Self)
        ensures
            m.wf(),
            m.keys_seq() == Seq::<Seq<char>>::empty(),
            m@ == Map::<Seq<char>, V::V>::empty(),
    {
        let m = StringMap { keys: Vec::new(), values: Vec::new() };
        assert(m.keys_seq() =~= Seq::<Seq<char>>::empty());
        assert(m@ =~= Map::<Seq<char>, V::V>::empty());
        m
    }

    /// The number of keys.
    pub fn len(&self) -> (n: usize)
        ensures
            n == self.keys_seq().len(),
    {
        self.keys.len()
    }

    /// The key at position `i`.
    pub fn key_at(&self, i: usize) -> (k: &String)
        requires
            i < self.keys_seq().len(),
        ensures
            k@ == self.keys_seq()[i as int],
    {
        &self.keys[i]
    }

    /// The value at position `i`.
    pub fn value_at(&self, i: usize) -> (v: &V)
        requires
            self.wf(),
            i < self.keys_seq().len(),
        ensures
            v@ == self.values_seq()[i as int],
    {
        assert(self.values_seq().len() == self.values@.len());
        &self.values[i]
    }

    /// The first position whose key does not come before `key`.
    pub fn lower_bound(&self, key: &str) -> (r: usize)
        requires
            self.wf(),
        ensures
            r <= self.keys_seq().len(),
            forall|i: int| 0 <= i < r ==> key_lt(#[trigger] self.keys_seq()[i], key@),
            forall|i: int|
                r <= i < self.keys_seq().len() ==> !key_lt(#[trigger] self.keys_seq()[i], key@),
    {
        let mut lo: usize = 0;
        let mut hi: usize = self.keys.len();
        while lo < hi
            invariant
                self.wf(),
                lo <= hi <= self.keys@.len(),
                self.keys@.len() == self.keys_seq().len(),
                forall|i: int| 0 <= i < lo ==> key_lt(#[trigger] self.keys_seq()[i], key@),
                forall|i: int|
                    hi <= i < self.keys_seq().len() ==> !key_lt(
                        #[trigger] self.keys_seq()[i],
                        key@,
                    ),
            decreases hi - lo,
        {
            let mid: usize = lo + (hi - lo) / 2;
            let ghost ks = self.keys_seq();
            assert(ks[mid as int] == self.keys@[mid as int]@);
            match rank(self.keys[mid].as_str(), key) {
                Rank::Before => {
                    assert forall|i: int| 0 <= i < mid + 1 implies key_lt(#[trigger] ks[i], key@) by {
                        if lo <= i < mid {
                            lemma_key_lt_transitive(ks[i], ks[mid as int], key@);
                        }
                    }
                    lo = mid + 1;
                },
                _ => {
                    proof {
                        lemma_key_lt_total(ks[mid as int], key@);
                    }
                    assert forall|i: int| mid <= i < ks.len() implies !key_lt(#[trigger] ks[i], key@) by {
                        if mid < i && key_lt(ks[i], key@) {
                            lemma_key_lt_transitive(ks[mid as int], ks[i], key@);
                        }
                    }
                    hi = mid;
                },
            }
        }
        lo
    }

    /// The position of `key`, if it is in the map.
    pub fn position(&self, key: &str) -> (r: Option<usize>)
        requires
            self.wf(),
        ensures
            r is Some <==> self@.contains_key(key@),
            r is Some ==> {
                &&& r->0 < self.keys_seq().len()
                &&& self.keys_seq()[r->0 as int] == key@
                &&& self.values_seq()[r->0 as int] == self@[key@]
            },
    {
        let p = self.lower_bound(key);
        let ghost ks = self.keys_seq();
        if p < self.keys.len() {
            assert(ks[p as int] == self.keys@[p as int]@);
            match rank(self.keys[p].as_str(), key) {
                Rank::Same => {
                    proof {
                        self.lemma_at(p as int);
                    }
                    return Some(p);
                },
                _ => {},
            }
        }
        proof {
            if ks.contains(key@) {
                let j = ks.index_of(key@);
                lemma_key_lt_total(key@, key@);
                if p < j {
                    lemma_key_lt_total(ks[p as int], key@);
                }
                assert(false);
            }
        }
        None
    }

    /// A copy of the keys, in order.
    pub fn keys(&self) -> (out: Vec<String>)
        ensures
            string_views(out@) == self.keys_seq(),
    {
        let mut out: Vec<String> = Vec::new();
        for i in 0..self.keys.len()
            invariant
                out@.len() == i,
                i <= self.keys@.len(),
                forall|j: int| 0 <= j < i ==> (#[trigger] out@[j])@ == self.keys_seq()[j],
        {
            out.push(self.keys[i].clone());
        }
        assert(string_views(out@) =~= self.keys_seq());
        out
    }

    /// Whether `key` is in the map.
    pub fn contains(&self, key: &str) -> (r: bool)
        requires
            self.wf(),
        ensures
            r == self@.contains_key(key@),
    {
        self.position(key).is_some()
    }

    /// The value of `key`.
    pub fn get(&self, key: &str) -> (r: Option<&V>)
        requires
            self.wf(),
        ensures
            match r {
                Some(v) => self@.contains_key(key@) && v@ == self@[key@],
                None => !self@.contains_key(key@),
            },
    {
        match self.position(key) {
            Some(i) => {
                assert(self.values_seq().len() == self.values@.len());
                Some(&self.values[i])
            },
            None => None,
        }
    }

    /// Sets the value of `key` and hands back the one that it had.
    pub fn insert(&mut self, key: String, value: V) -> (r: Option<V>)
        requires
            old(self).wf(),
        ensures
            final(self).wf(),
            final(self)@ == old(self)@.insert(key@, value@),
            match r {
                Some(v) => {
                    &&& old(self)@.contains_key(key@)
                    &&& v@ == old(self)@[key@]
                    &&& exists|p: int|
                        #[trigger] changed_at(
                            old(self).keys_seq(),
                            old(self).values_seq(),
                            final(self).keys_seq(),
                            final(self).values_seq(),
                            key@,
                            value@,
                            p,
                        ) && old(self).values_seq()[p] == v@
                },
                None => {
                    &&& !old(self)@.contains_key(key@)
                    &&& exists|p: int|
                        #[trigger] added_at(
                            old(self).keys_seq(),
                            old(self).values_seq(),
                            final(self).keys_seq(),
                            final(self).values_seq(),
                            key@,
                            value@,
                            p,
                        )
                },
            },
    {
        let ghost ks = self.keys_seq();
        let ghost vs = self.values_seq();
        assert(self.values@.len() == self.keys@.len());
        let found = self.position(key.as_str());
        match found {
            Some(i) => {
                self.values.push(value);
                let old_value = self.values.swap_remove(i);
                assert(self.keys_seq() =~= ks);
                assert(self.values_seq() =~= vs.update(i as int, value@));
                assert(changed_at(ks, vs, self.keys_seq(), self.values_seq(), key@, value@, i as int));
                proof {
                    assert forall|k: Seq<char>| #[trigger] self@.contains_key(k) implies self@[k]
                        == old(self)@.insert(key@, value@)[k] by {
                        let j = self.lemma_position(k);
                        old(self).lemma_at(j);
                        old(self).lemma_at(i as int);
                        if j != i {
                            lemma_key_lt_total(ks[i as int], ks[j]);
                        }
                    }
                    assert(self@ =~= old(self)@.insert(key@, value@));
                }
                Some(old_value)
            },
            None => {
                let p = self.lower_bound(key.as_str());
                let ghost k0 = key@;
                let ghost v0 = value@;
                self.keys.insert(p, key);
                self.values.insert(p, value);
                assert(self.keys_seq() =~= ks.insert(p as int, k0));
                assert(self.values_seq() =~= vs.insert(p as int, v0));
                assert(added_at(ks, vs, self.keys_seq(), self.values_seq(), k0, v0, p as int));
                proof {
                    let ks2 = self.keys_seq();
                    assert forall|i: int, j: int| 0 <= i < j < ks2.len() implies key_lt(
                        #[trigger] ks2[i],
                        #[trigger] ks2[j],
                    ) by {
                        if i == p {
                            lemma_key_lt_total(ks[j - 1], k0);
                            assert(!ks.contains(k0));
                            assert(ks.contains(ks[j - 1]));
                        }
                    }
                    assert(self.wf());
                    assert forall|k: Seq<char>| #[trigger]
                        self@.contains_key(k) <==> old(self)@.insert(k0, v0).contains_key(k) by {
                        if self@.contains_key(k) {
                            let j = self.lemma_position(k);
                            if j < p {
                                assert(ks[j] == k);
                            } else if j > p {
                                assert(ks[j - 1] == k);
                            }
                        }
                        if k == k0 {
                            assert(ks2[p as int] == k0);
                        } else if ks.contains(k) {
                            let j = ks.index_of(k);
                            if j < p {
                                assert(ks2[j] == k);
                            } else {
                                assert(ks2[j + 1] == k);
                            }
                        }
                    }
                    assert forall|k: Seq<char>| #[trigger] self@.contains_key(k) implies self@[k]
                        == old(self)@.insert(k0, v0)[k] by {
                        let j = self.lemma_position(k);
                        if j == p {
                        } else {
                            if j < p {
                                old(self).lemma_at(j);
                            } else {
                                old(self).lemma_at(j - 1);
                            }
                            assert(k != k0) by {
                                assert(ks.contains(k));
                            }
                        }
                    }
                    assert(self@ =~= old(self)@.insert(k0, v0));
                }
                None
            },
        }
    }

    /// Removes the entry at position `i` and hands back its value.
    pub fn remove_at(&mut self, i: usize) -> (v: V)
        requires
            old(self).wf(),
            i < old(self).keys_seq().len(),
        ensures
            final(self).wf(),
            final(self).keys_seq() == old(self).keys_seq().remove(i as int),
            final(self).values_seq() == old(self).values_seq().remove(i as int),
            final(self)@ == old(self)@.remove(old(self).keys_seq()[i as int]),
            v@ == old(self).values_seq()[i as int],
    {
        let ghost ks = self.keys_seq();
        let ghost vs = self.values_seq();
        let ghost key = ks[i as int];
        assert(self.values@.len() == vs.len());
        let _ = self.keys.remove(i);
        let v = self.values.remove(i);
        assert(self.keys_seq() =~= ks.remove(i as int));
        assert(self.values_seq() =~= vs.remove(i as int));
        proof {
            let ks2 = self.keys_seq();
            assert(self.wf());
            assert forall|k: Seq<char>| #[trigger]
                self@.contains_key(k) <==> old(self)@.remove(key).contains_key(k) by {
                if self@.contains_key(k) {
                    let j = self.lemma_position(k);
                    if j < i {
                        assert(ks[j] == k);
                        lemma_key_lt_total(ks[j], ks[i as int]);
                    } else {
                        assert(ks[j + 1] == k);
                        lemma_key_lt_total(ks[i as int], ks[j + 1]);
                    }
                }
                if k != key && ks.contains(k) {
                    let j = ks.index_of(k);
                    if j < i {
                        assert(ks2[j] == k);
                    } else {
                        assert(ks2[j - 1] == k);
                    }
                }
            }
            assert forall|k: Seq<char>| #[trigger] self@.contains_key(k) implies self@[k] == old(
                self,
            )@.remove(key)[k] by {
                let j = self.lemma_position(k);
                if j < i {
                    old(self).lemma_at(j);
                } else {
                    old(self).lemma_at(j + 1);
                }
            }
            assert(self@ =~= old(self)@.remove(key));
        }
        v
    }

    /// Removes `key` and hands back the value that it had.
    pub fn remove(&mut self, key: &str) -> (r: Option<V>)
        requires
            old(self).wf(),
        ensures
            final(self).wf(),
            final(self)@ == old(self)@.remove(key@),
            match r {
                Some(v) => old(self)@.contains_key(key@) && v@ == old(self)@[key@],
                None => !old(self)@.contains_key(key@),
            },
    {
        match self.position(key) {
            Some(i) => Some(self.remove_at(i)),
            None => {
                assert(self@ =~= old(self)@.remove(key@));
                None
            },
        }
    }

    /// Removes every key.
    pub fn clear(&mut self)
        ensures
            final(self).wf(),
            final(self)@ == Map::<Seq<char>, V::V>::empty(),
            final(self).keys_seq() == Seq::<Seq<char>>::empty(),
    {
        self.keys.clear();
        self.values.clear();
        assert(self.keys_seq() =~= Seq::<Seq<char>>::empty());
        assert(self@ =~= Map::<Seq<char>, V::V>::empty());
    }
}

impl StringMap<Vec<u8>> {
    /// A value is no longer than a vector can be.
    pub proof fn lemma_fits(&self, i: int)
        requires
            self.wf(),
            0 <= i < self.keys_seq().len(),
        ensures
            self.values_seq()[i].len() <= usize::MAX,
    {
        assert(self.values_seq().len() == self.values@.len());
        assert(self.values_seq()[i] == self.values@[i]@);
        assert(self.values@[i].len() <= usize::MAX);
    }
}

/// Whether `keys` are the keys of `m`, in order.
pub open spec fn keys_of<T>(m: Map<Seq<char>, T>, keys: Seq<Seq<char>>) -> bool {
    &&& strictly_sorted(keys)
    &&& forall|k: Seq<char>| #[trigger] m.contains_key(k) <==> keys.contains(k)
}

/// The keys of `m`, in order.
pub open spec fn keys_in_order<T>(m: Map<Seq<char>, T>) -> Seq<Seq<char>> {
    choose|keys: Seq<Seq<char>>| #[trigger] keys_of(m, keys)
}

/// The keys of a map in order are determined by the map.
pub proof fn lemma_keys_in_order<T>(m: Map<Seq<char>, T>, keys: Seq<Seq<char>>)
    requires
        keys_of(m, keys),
    ensures
        keys_in_order(m) == keys,
{
    let other = keys_in_order(m);
    assert(keys_of(m, other));
    assert forall|k: Seq<char>| keys.contains(k) <==> other.contains(k) by {
        assert(m.contains_key(k) <==> keys.contains(k));
        assert(m.contains_key(k) <==> other.contains(k));
    }
    lemma_sorted_keys_unique(keys, other);
}

/// Two sequences of strings in order that hold the same strings are equal.
pub proof fn lemma_sorted_keys_unique(a: Seq<Seq<char>>, b: Seq<Seq<char>>)
    requires
        strictly_sorted(a),
        strictly_sorted(b),
        forall|k: Seq<char>| a.contains(k) <==> b.contains(k),
    ensures
        a == b,
    decreases a.len(),
{
    if a.len() == 0 {
        if b.len() > 0 {
            assert(b.contains(b[0]));
        }
        assert(a =~= b);
    } else {
        assert(a.contains(a[0]));
        let i = b.index_of(a[0]);
        assert(b.contains(b[0]));
        let j = a.index_of(b[0]);
        lemma_key_lt_total(a[0], b[0]);
        if i > 0 && j > 0 {
            assert(key_lt(b[0], b[i]));
            assert(key_lt(a[0], a[j]));
        }
        assert(a[0] == b[0]);
        let a2 = a.drop_first();
        let b2 = b.drop_first();
        assert forall|k: Seq<char>| a2.contains(k) <==> b2.contains(k) by {
            if a2.contains(k) {
                let p = a2.index_of(k);
                assert(a[p + 1] == k);
                assert(a.contains(k));
                let q = b.index_of(k);
                lemma_key_lt_total(a[0], a[p + 1]);
                assert(b2[q - 1] == k);
            }
            if b2.contains(k) {
                let p = b2.index_of(k);
                assert(b[p + 1] == k);
                assert(b.contains(k));
                let q = a.index_of(k);
                lemma_key_lt_total(b[0], b[p + 1]);
                assert(a2[q - 1] == k);
            }
        }
        lemma_sorted_keys_unique(a2, b2);
        assert(a =~= seq![a[0]] + a2);
        assert(b =~= seq![b[0]] + b2);
    }
}

/// Strings in order, with one more string put in its place.
pub proof fn lemma_sorted_with(keys: Seq<Seq<char>>, k: Seq<char>) -> (out: Seq<Seq<char>>)
    requires
        strictly_sorted(keys),
    ensures
        strictly_sorted(out),
        forall|x: Seq<char>| #[trigger] out.contains(x) <==> keys.contains(x) || x == k,
    decreases keys.len(),
{
    if keys.contains(k) {
        keys
    } else if keys.len() == 0 || key_lt(keys.last(), k) {
        let out = keys.push(k);
        assert forall|i: int, j: int| 0 <= i < j < out.len() implies key_lt(
            #[trigger] out[i],
            #[trigger] out[j],
        ) by {
            if j == keys.len() && i < keys.len() - 1 {
                lemma_key_lt_transitive(keys[i], keys.last(), k);
            }
        }
        assert forall|x: Seq<char>| #[trigger] out.contains(x) <==> keys.contains(x) || x == k by {
            if keys.contains(x) {
                assert(out[keys.index_of(x)] == x);
            }
            if x == k {
                assert(out[keys.len() as int] == x);
            }
        }
        out
    } else {
        let init = keys.drop_last();
        let last = keys.last();
        assert forall|x: Seq<char>| #[trigger] keys.contains(x) <==> init.contains(x) || x
            == last by {
            if keys.contains(x) {
                let i = keys.index_of(x);
                if i < init.len() {
                    assert(init[i] == x);
                }
            }
            if init.contains(x) {
                assert(keys[init.index_of(x)] == x);
            }
            if x == last {
                assert(keys[keys.len() - 1] == x);
            }
        }
        let mid = lemma_sorted_with(init, k);
        lemma_key_lt_total(last, k);
        let out = mid.push(last);
        assert forall|i: int, j: int| 0 <= i < j < out.len() implies key_lt(
            #[trigger] out[i],
            #[trigger] out[j],
        ) by {
            if j == mid.len() {
                assert(mid.contains(mid[i]));
                if mid[i] != k {
                    let n = init.index_of(mid[i]);
                    assert(key_lt(keys[n], keys[keys.len() - 1]));
                }
            }
        }
        assert forall|x: Seq<char>| #[trigger] out.contains(x) <==> keys.contains(x) || x == k by {
            if out.contains(x) {
                let i = out.index_of(x);
                if i < mid.len() {
                    assert(mid.contains(x));
                }
            }
            if mid.contains(x) {
                assert(out[mid.index_of(x)] == x);
            }
            if x == last {
                assert(out[mid.len() as int] == x);
            }
        }
        out
    }
}

/// Strings in order, with one of them taken out.
pub proof fn lemma_sorted_without(keys: Seq<Seq<char>>, k: Seq<char>) -> (out: Seq<Seq<char>>)
    requires
        strictly_sorted(keys),
    ensures
        strictly_sorted(out),
        forall|x: Seq<char>| #[trigger] out.contains(x) <==> keys.contains(x) && x != k,
{
    if !keys.contains(k) {
        keys
    } else {
        let n = keys.index_of(k);
        let out = keys.remove(n);
        assert forall|x: Seq<char>| #[trigger] out.contains(x) <==> keys.contains(x) && x != k by {
            if out.contains(x) {
                let i = out.index_of(x);
                if i < n {
                    assert(keys[i] == x);
                    lemma_key_lt_total(keys[i], keys[n]);
                } else {
                    assert(keys[i + 1] == x);
                    lemma_key_lt_total(keys[n], keys[i + 1]);
                }
            }
            if keys.contains(x) && x != k {
                let i = keys.index_of(x);
                if i < n {
                    assert(out[i] == x);
                } else {
                    assert(out[i - 1] == x);
                }
            }
        }
        out
    }
}

/// Whether the keys of a map can be brought into an order.
pub open spec fn orderable<T>(m: Map<Seq<char>, T>) -> bool {
    exists|keys: Seq<Seq<char>>| #[trigger] keys_of(m, keys)
}

/// The keys of a map in order are those of the map.
pub proof fn lemma_orderable<T>(m: Map<Seq<char>, T>)
    requires
        orderable(m),
    ensures
        keys_of(m, keys_in_order(m)),
{
}

/// A map with one more key can be brought into an order.
pub proof fn lemma_orderable_insert<T>(m: Map<Seq<char>, T>, k: Seq<char>, v: T)
    requires
        orderable(m),
    ensures
        orderable(m.insert(k, v)),
{
    let out = lemma_sorted_with(keys_in_order(m), k);
    assert(keys_of(m.insert(k, v), out));
}

/// A map with a key less can be brought into an order.
pub proof fn lemma_orderable_remove<T>(m: Map<Seq<char>, T>, k: Seq<char>)
    requires
        orderable(m),
    ensures
        orderable(m.remove(k)),
{
    let out = lemma_sorted_without(keys_in_order(m), k);
    assert(keys_of(m.remove(k), out));
}

proof fn lemma_sorted_part(keys: Seq<Seq<char>>, part: Set<Seq<char>>) -> (out: Seq<Seq<char>>)
    requires
        strictly_sorted(keys),
    ensures
        strictly_sorted(out),
        forall|k: Seq<char>| #[trigger] out.contains(k) <==> keys.contains(k) && part.contains(k),
    decreases keys.len(),
{
    if keys.len() == 0 {
        keys
    } else {
        let init = keys.drop_last();
        let last = keys.last();
        assert forall|i: int, j: int| 0 <= i < j < init.len() implies key_lt(
            #[trigger] init[i],
            #[trigger] init[j],
        ) by {
            assert(key_lt(keys[i], keys[j]));
        }
        let before = lemma_sorted_part(init, part);
        assert forall|k: Seq<char>| #[trigger] keys.contains(k) <==> init.contains(k) || k == last by {
            if keys.contains(k) {
                let i = keys.index_of(k);
                if i < init.len() {
                    assert(init[i] == k);
                }
            }
            if init.contains(k) {
                assert(keys[init.index_of(k)] == k);
            }
            assert(keys[keys.len() - 1] == last);
        }
        if part.contains(last) {
            let out = before.push(last);
            assert forall|i: int, j: int| 0 <= i < j < out.len() implies key_lt(
                #[trigger] out[i],
                #[trigger] out[j],
            ) by {
                if j < before.len() {
                    assert(key_lt(before[i], before[j]));
                } else {
                    assert(before.contains(before[i]));
                    assert(init.contains(before[i]));
                    let n = init.index_of(before[i]);
                    assert(keys[n] == before[i]);
                    assert(key_lt(keys[n], keys[keys.len() - 1]));
                }
            }
            assert forall|k: Seq<char>| #[trigger] out.contains(k) <==> keys.contains(k)
                && part.contains(k) by {
                if out.contains(k) {
                    let i = out.index_of(k);
                    if i < before.len() {
                        assert(before[i] == k);
                        assert(before.contains(k));
                    }
                }
                if before.contains(k) {
                    assert(out[before.index_of(k)] == k);
                }
                assert(out[before.len() as int] == last);
            }
            out
        } else {
            before
        }
    }
}

/// A map with only some of the keys can be brought into an order.
pub proof fn lemma_orderable_part<T, U>(a: Map<Seq<char>, T>, b: Map<Seq<char>, U>)
    requires
        orderable(a),
        forall|k: Seq<char>| #[trigger] b.contains_key(k) ==> a.contains_key(k),
    ensures
        orderable(b),
{
    let out = lemma_sorted_part(keys_in_order(a), b.dom());
    assert(keys_of(b, out));
}

proof fn lemma_sorted_union(a: Seq<Seq<char>>, b: Seq<Seq<char>>) -> (out: Seq<Seq<char>>)
    requires
        strictly_sorted(a),
    ensures
        strictly_sorted(out),
        forall|k: Seq<char>| #[trigger] out.contains(k) <==> a.contains(k) || b.contains(k),
    decreases b.len(),
{
    if b.len() == 0 {
        a
    } else {
        let before = lemma_sorted_union(a, b.drop_last());
        let out = lemma_sorted_with(before, b.last());
        assert forall|k: Seq<char>| #[trigger] out.contains(k) <==> a.contains(k) || b.contains(
            k,
        ) by {
            if b.contains(k) && k != b.last() {
                assert(b.drop_last()[b.index_of(k)] == k);
            }
            if b.drop_last().contains(k) {
                assert(b[b.drop_last().index_of(k)] == k);
            }
            assert(b[b.len() - 1] == b.last());
        }
        out
    }
}

/// Two maps taken together can be brought into an order where each can.
pub proof fn lemma_orderable_union<T>(a: Map<Seq<char>, T>, b: Map<Seq<char>, T>)
    requires
        orderable(a),
        orderable(b),
    ensures
        orderable(a.union_prefer_right(b)),
{
    let out = lemma_sorted_union(keys_in_order(a), keys_in_order(b));
    assert(keys_of(a.union_prefer_right(b), out));
}

/// Maps with the same keys have the same keys in order.
pub proof fn lemma_same_keys<T, U>(a: Map<Seq<char>, T>, b: Map<Seq<char>, U>)
    requires
        orderable(a),
        forall|k: Seq<char>| #[trigger] a.contains_key(k) <==> b.contains_key(k),
    ensures
        keys_in_order(b) == keys_in_order(a),
        orderable(b),
{
    let ks = keys_in_order(a);
    assert(keys_of(a, ks));
    assert forall|k: Seq<char>| #[trigger] b.contains_key(k) <==> ks.contains(k) by {
        assert(a.contains_key(k) <==> b.contains_key(k));
    }
    assert(keys_of(b, ks));
    lemma_keys_in_order(b, ks);
}

} // verus!
