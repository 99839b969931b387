//! A map from byte-string keys to values, kept as two vectors in increasing key order.

use crate::lexicographic::{
    byte_strings, lemma_lex_irreflexive, lemma_sorted_insert, lemma_sorted_listing_of,
    lemma_sorted_no_duplicates, locate, sorted_listing, strictly_sorted,
};
use crate::seq_facts::{lemma_insert_to_set, lemma_remove_to_set};
use vstd::prelude::*;

verus! {

/// The position of `k` in `keys`.
spec fn key_position(keys: Seq<Seq<u8>>, k: Seq<u8>) -> int {
    choose|i: int| 0 <= i < keys.len() && keys[i] == k
}

proof fn lemma_key_position(keys: Seq<Seq<u8>>, j: int)
    requires
        strictly_sorted(keys),
        0 <= j < keys.len(),
    ensures
        key_position(keys, keys[j]) == j,
{
    lemma_sorted_no_duplicates(keys);
    let i = key_position(keys, keys[j]);
    assert(0 <= i < keys.len() && keys[i] == keys[j]);
}

/// A key that `locate` did not find is not among the keys.
proof fn lemma_absent(ks: Seq<Seq<u8>>, idx: int, key: Seq<u8>)
    requires
        0 <= idx <= ks.len(),
        forall|k: int| 0 <= k < idx ==> crate::lexicographic::lex_lt(#[trigger] ks[k], key),
        forall|k: int| idx <= k < ks.len() ==> crate::lexicographic::lex_lt(key, #[trigger] ks[k]),
    ensures
        !ks.to_set().contains(key),
{
    if ks.to_set().contains(key) {
        let k = choose|k: int| 0 <= k < ks.len() && ks[k] == key;
        lemma_lex_irreflexive(key);
    }
}

/// A map from byte strings to values.
#[verifier::reject_recursive_types(V)]
#[derive(Debug)]
pub struct ByteMap<V> {
    keys: Vec<Vec<u8>>,
    values: Vec<V>,
}

impl<V> View for ByteMap<V> {
    type V = Map<Seq<u8>, V>;

    closed spec fn view(&self) -> Map<Seq<u8>, V> {
        Map::new(
            |k: Seq<u8>| byte_strings(self.keys@).to_set().contains(k),
            |k: Seq<u8>| self.values@[key_position(byte_strings(self.keys@), k)],
        )
    }
}

impl<V> ByteMap<V> {
    #[verifier::type_invariant]
    spec fn well_formed(&self) -> bool {
        &&& strictly_sorted(byte_strings(self.keys@))
        &&& self.keys@.len() == self.values@.len()
    }

    proof fn lemma_entry(&self, j: int)
        requires
            self.well_formed(),
            0 <= j < self.keys@.len(),
        ensures
            byte_strings(self.keys@)[j] == self.keys@[j]@,
            self@.contains_key(self.keys@[j]@),
            self@[self.keys@[j]@] == self.values@[j],
    {
        let ks = byte_strings(self.keys@);
        assert(ks[j] == self.keys@[j]@);
        assert(ks.to_set().contains(ks[j]));
        lemma_key_position(ks, j);
    }

    proof fn lemma_keys(&self)
        requires
            self.well_formed(),
        ensures
            self@.dom() == byte_strings(self.keys@).to_set(),
            sorted_listing(self@.dom()) == byte_strings(self.keys@),
            self@.dom().finite(),
            self@.dom().len() == self.keys@.len(),
    {
        let ks = byte_strings(self.keys@);
        assert(self@.dom() =~= ks.to_set());
        lemma_sorted_listing_of(ks);
        vstd::seq_lib::seq_to_set_is_finite(ks);
        lemma_sorted_no_duplicates(ks);
        ks.unique_seq_to_set();
    }

    /// The empty map.
    pub fn new() -> (m: Self)
        ensures
            m@ == Map::<Seq<u8>, V>::empty(),
    {
        let m = ByteMap { keys: Vec::new(), values: Vec::new() };
        assert(m@ =~= Map::<Seq<u8>, V>::empty());
        m
    }

    /// The number of keys.
    pub fn len(&self) -> (n: usize)
        ensures
            self@.dom().finite(),
            n == self@.dom().len(),
    {
        proof {
            use_type_invariant(self);
            self.lemma_keys();
        }
        self.keys.len()
    }

    /// The value stored under `key`, if any.
    pub fn get(&self, key: &[u8]) -> (r: Option<&V>)
        ensures
            match r {
                Some(v) => self@.contains_key(key@) && *v == self@[key@],
                None => !self@.contains_key(key@),
            },
    {
        proof {
            use_type_invariant(self);
        }
        let (found, idx) = locate(&self.keys, key);
        if found {
            proof {
                self.lemma_entry(idx as int);
            }
            Some(&self.values[idx])
        } else {
            proof {
                lemma_absent(byte_strings(self.keys@), idx as int, key@);
            }
            None
        }
    }

    /// Stores `value` under `key`, in place of what was stored there.
    pub fn put(&mut self, key: &[u8], value: V)
        ensures
            final(self)@ == old(self)@.insert(key@, value),
    {
        proof {
            use_type_invariant(&*self);
        }
        let ghost before = *self;
        let ghost ks = byte_strings(self.keys@);
        let (found, idx) = locate(&self.keys, key);
        let mut taken = ByteMap::new();
        std::mem::swap(&mut taken, self);
        let ByteMap { mut keys, mut values } = taken;
        let ghost vv = value;
        if found {
            let ghost old_values = values@;
            values.set(idx, value);
            let ghost after = ByteMap { keys, values };
            assert(keys@ == before.keys@);
            assert(old_values == before.values@);
            assert(values@ == old_values.update(idx as int, vv));
            assert(after@ =~= before@.insert(key@, vv)) by {
                lemma_sorted_no_duplicates(ks);
                assert(ks.to_set().contains(ks[idx as int]));
                assert forall|k: Seq<u8>| #[trigger] after@.contains_key(k) implies after@[k]
                    == before@.insert(key@, vv)[k] by {
                    let j = key_position(ks, k);
                    lemma_key_position(ks, j);
                    if j == idx {
                        assert(after.values@[j] == vv);
                    } else {
                        before.lemma_entry(j);
                        assert(ks[j] != ks[idx as int]);
                        assert(after.values@[j] == before.values@[j]);
                    }
                }
            }
        } else {
            proof {
                lemma_absent(ks, idx as int, key@);
                lemma_sorted_insert(ks, idx as int, key@);
                lemma_insert_to_set(ks, idx as int, key@);
            }
            let owned_key = vstd::slice::slice_to_vec(key);
            keys.insert(idx, owned_key);
            values.insert(idx, value);
            let ghost ks2 = byte_strings(keys@);
            assert(ks2 =~= ks.insert(idx as int, key@));
            let ghost after = ByteMap { keys, values };
            assert(after@ =~= before@.insert(key@, vv)) by {
                assert forall|k: Seq<u8>| #[trigger] after@.contains_key(k) implies after@[k]
                    == before@.insert(key@, vv)[k] by {
                    let j = key_position(ks2, k);
                    lemma_key_position(ks2, j);
                    if j < idx {
                        assert(ks[j] == k);
                        before.lemma_entry(j);
                    } else if j > idx {
                        assert(ks[j - 1] == k);
                        before.lemma_entry(j - 1);
                    }
                }
            }
        }
        *self = ByteMap { keys, values };
    }

    /// Removes what is stored under `key` and returns it, if anything was.
    pub fn remove(&mut self, key: &[u8]) -> (r: Option<V>)
        ensures
            final(self)@ == old(self)@.remove(key@),
            r == if old(self)@.contains_key(key@) {
                Some(old(self)@[key@])
            } else {
                None::<V>
            },
    {
        proof {
            use_type_invariant(&*self);
        }
        let ghost before = *self;
        let ghost ks = byte_strings(self.keys@);
        let (found, idx) = locate(&self.keys, key);
        if !found {
            proof {
                lemma_absent(ks, idx as int, key@);
            }
            assert(self@ =~= self@.remove(key@));
            return None;
        }
        proof {
            before.lemma_entry(idx as int);
            lemma_sorted_no_duplicates(ks);
            lemma_remove_to_set(ks, idx as int);
        }
        let mut taken = ByteMap::new();
        std::mem::swap(&mut taken, self);
        let ByteMap { mut keys, mut values } = taken;
        keys.remove(idx);
        let value = values.remove(idx);
        let ghost ks2 = byte_strings(keys@);
        assert(ks2 =~= ks.remove(idx as int));
        assert(strictly_sorted(ks2)) by {
            assert forall|a: int, b: int| 0 <= a < b < ks2.len() implies crate::lexicographic::lex_lt(
                #[trigger] ks2[a],
                #[trigger] ks2[b],
            ) by {
                let a0 = if a < idx { a } else { a + 1 };
                let b0 = if b < idx { b } else { b + 1 };
                assert(ks2[a] == ks[a0]);
                assert(ks2[b] == ks[b0]);
            }
        }
        let ghost after = ByteMap { keys, values };
        assert(after@ =~= before@.remove(key@)) by {
            assert forall|k: Seq<u8>| #[trigger] after@.contains_key(k) implies after@[k]
                == before@.remove(key@)[k] by {
                let j = key_position(ks2, k);
                lemma_key_position(ks2, j);
                if j < idx {
                    assert(ks[j] == k);
                    before.lemma_entry(j);
                } else {
                    assert(ks[j + 1] == k);
                    before.lemma_entry(j + 1);
                }
            }
        }
        *self = ByteMap { keys, values };
        Some(value)
    }

    /// The `i`-th key in increasing order.
    pub fn key_at(&self, i: usize) -> (key: &[u8])
        requires
            i < self@.dom().len(),
        ensures
            self@.dom().finite(),
            key@ == sorted_listing(self@.dom())[i as int],
    {
        proof {
            use_type_invariant(self);
            self.lemma_keys();
        }
        self.keys[i].as_slice()
    }

    /// The value stored under the `i`-th key in increasing order.
    pub fn value_at(&self, i: usize) -> (value: &V)
        requires
            i < self@.dom().len(),
        ensures
            self@.dom().finite(),
            *value == self@[sorted_listing(self@.dom())[i as int]],
    {
        proof {
            use_type_invariant(self);
            self.lemma_keys();
            self.lemma_entry(i as int);
        }
        &self.values[i]
    }
}

impl<V: Clone> Clone for ByteMap<V> {
    fn clone(&self) -> (m: Self)
        ensures
            m@.dom() == self@.dom(),
            forall|k: Seq<u8>| #[trigger] self@.contains_key(k) ==> cloned::<V>(self@[k], m@[k]),
    {
        proof {
            use_type_invariant(self);
        }
        let ghost ks = byte_strings(self.keys@);
        let mut keys: Vec<Vec<u8>> = Vec::new();
        let mut values: Vec<V> = Vec::new();
        let mut i: usize = 0;
        while i < self.keys.len()
            invariant
                i <= self.keys@.len(),
                self.keys@.len() == self.values@.len(),
                ks == byte_strings(self.keys@),
                keys@.len() == i,
                values@.len() == i,
                byte_strings(keys@) == ks.take(i as int),
                forall|j: int| 0 <= j < i ==> cloned::<V>(self.values@[j], #[trigger] values@[j]),
            decreases self.keys@.len() - i,
        {
            let ghost before = keys@;
            let key_copy = vstd::slice::slice_to_vec(self.keys[i].as_slice());
            keys.push(key_copy);
            assert(byte_strings(keys@) =~= byte_strings(before).push(key_copy@));
            assert(ks[i as int] == self.keys@[i as int]@);
            assert(byte_strings(keys@) =~= ks.take(i + 1));
            let value_copy = self.values[i].clone();
            values.push(value_copy);
            i = i + 1;
        }
        assert(ks.take(i as int) =~= ks);
        let m = ByteMap { keys, values };
        proof {
            assert(m@.dom() =~= self@.dom());
            assert forall|k: Seq<u8>| #[trigger] self@.contains_key(k) implies cloned::<V>(
                self@[k],
                m@[k],
            ) by {
                let j = key_position(ks, k);
                lemma_key_position(ks, j);
                self.lemma_entry(j);
                m.lemma_entry(j);
            }
        }
        m
    }
}

} // verus!
