//! A table of byte-string sets keyed by byte strings, kept in key order, with a hash of its
//! whole contents.

use crate::binary_set::{lemma_set_bytes_injective, set_bytes, set_fits, BinarySet};
use crate::digest::{sha256, sha256_digest, HashValue};
use crate::framing::{
    append_frame, encode_frames, frame, items_fit, lemma_decode_encode, lemma_encode_append,
};
use crate::byte_map::ByteMap;
use crate::lexicographic::sorted_listing;
use vstd::prelude::*;

verus! {

/// The set stored under `key`, or the empty set where nothing is stored.
pub open spec fn stored_set(m: Map<Seq<u8>, Set<Seq<u8>>>, key: Seq<u8>) -> Set<Seq<u8>> {
    if m.contains_key(key) {
        m[key]
    } else {
        Set::empty()
    }
}

/// The items that encode the table entries under `keys`, in order: each key followed by
/// the encoding of its set.
pub open spec fn entry_items(keys: Seq<Seq<u8>>, m: Map<Seq<u8>, Set<Seq<u8>>>) -> Seq<Seq<u8>>
    decreases keys.len(),
{
    if keys.len() == 0 {
        Seq::empty()
    } else {
        entry_items(keys.drop_last(), m) + seq![keys.last(), set_bytes(m[keys.last()])]
    }
}

/// The encoding of a table: the frames of its entries in increasing key order, each entry
/// being its key followed by the encoding of its set.
pub open spec fn table_bytes(m: Map<Seq<u8>, Set<Seq<u8>>>) -> Seq<u8> {
    encode_frames(entry_items(sorted_listing(m.dom()), m))
}

/// A table from byte-string keys to sets of byte strings.
#[derive(Debug)]
pub struct ConfirmationIndex {
    entries: ByteMap<BinarySet>,
}

impl View for ConfirmationIndex {
    type V = Map<Seq<u8>, Set<Seq<u8>>>;

    closed spec fn view(&self) -> Map<Seq<u8>, Set<Seq<u8>>> {
        self.entries@.map_values(|s: BinarySet| s@)
    }
}

impl ConfirmationIndex {
    /// The empty table.
    pub fn new() -> (t: Self)
        ensures
            t@ == Map::<Seq<u8>, Set<Seq<u8>>>::empty(),
    {
        let t = ConfirmationIndex { entries: ByteMap::new() };
        assert(t@ =~= Map::<Seq<u8>, Set<Seq<u8>>>::empty());
        t
    }

    /// The number of keys.
    pub fn len(&self) -> (n: usize)
        ensures
            self@.dom().finite(),
            n == self@.dom().len(),
    {
        let n = self.entries.len();
        assert(self@.dom() =~= self.entries@.dom());
        n
    }

    /// The set stored under `key`, if any.
    pub fn get(&self, key: &[u8]) -> (r: Option<&BinarySet>)
        ensures
            match r {
                Some(s) => self@.contains_key(key@) && s@ == self@[key@],
                None => !self@.contains_key(key@),
            },
    {
        self.entries.get(key)
    }

    /// Stores `value` under `key`, in place of what was stored there.
    pub fn put(&mut self, key: &[u8], value: BinarySet)
        ensures
            final(self)@ == old(self)@.insert(key@, value@),
    {
        let ghost vv = value@;
        self.entries.put(key, value);
        assert(self@ =~= old(self)@.insert(key@, vv));
    }

    /// The hash of the whole table: the SHA-256 digest of its encoding. The hash is a flat
    /// digest of the table; no proof of a single entry can be drawn from it.
    pub fn object_hash(&self) -> (h: HashValue)
        ensures
            h@ == sha256_digest(table_bytes(self@)),
            table_fits(self@),
    {
        let n = self.entries.len();
        let ghost m = self@;
        let ghost ks = sorted_listing(self.entries@.dom());
        assert(m.dom() =~= self.entries@.dom());
        proof {
            crate::lexicographic::lemma_sorted_listing_exists(m.dom());
            crate::lexicographic::lemma_sorted_no_duplicates(ks);
            ks.unique_seq_to_set();
        }
        let mut out: Vec<u8> = Vec::new();
        let mut i: usize = 0;
        while i < n
            invariant
                i <= n,
                n == self.entries@.dom().len(),
                self.entries@.dom().finite(),
                m == self@,
                m.dom() == self.entries@.dom(),
                ks == sorted_listing(m.dom()),
                ks.len() == n,
                ks.to_set() == m.dom(),
                out@ == encode_frames(entry_items(ks.take(i as int), m)),
                forall|j: int|
                    0 <= j < i ==> entry_fits(m, #[trigger] ks[j]),
            decreases n - i,
        {
            let ghost prefix = entry_items(ks.take(i as int), m);
            let key = self.entries.key_at(i);
            append_frame(&mut out, key);
            let value = self.entries.value_at(i);
            let value_bytes = value.to_bytes();
            append_frame(&mut out, value_bytes.as_slice());
            proof {
                let k = ks[i as int];
                crate::binary_set::lemma_view_fits(*value);
                assert(key@.len() == key.len());
                assert(entry_fits(m, k));
                assert(ks.to_set().contains(k));
                assert(m[k] == self.entries@[k]@);
                assert(ks.take(i + 1).drop_last() =~= ks.take(i as int));
                assert(ks.take(i + 1).last() == k);
                let pair = seq![k, set_bytes(m[k])];
                lemma_encode_append(prefix, pair);
                assert(pair.drop_first().drop_first() =~= Seq::<Seq<u8>>::empty());
                assert(encode_frames(Seq::<Seq<u8>>::empty()) =~= Seq::<u8>::empty());
                assert(pair.drop_first() =~= seq![set_bytes(m[k])]);
                assert(encode_frames(pair.drop_first()) =~= frame(set_bytes(m[k])));
                assert(encode_frames(pair) =~= frame(k) + frame(set_bytes(m[k])));
            }
            i = i + 1;
        }
        assert(ks.take(i as int) =~= ks);
        assert forall|k: Seq<u8>| #[trigger] m.contains_key(k) implies entry_fits(m, k) by {
            assert(ks.to_set().contains(k));
            let j = choose|j: int| 0 <= j < ks.len() && ks[j] == k;
        }
        sha256(out.as_slice())
    }
}

impl Clone for ConfirmationIndex {
    fn clone(&self) -> (t: Self)
        ensures
            t@ == self@,
    {
        let entries = self.entries.clone();
        let t = ConfirmationIndex { entries };
        assert forall|k: Seq<u8>| #[trigger] self.entries@.contains_key(k) implies t.entries@[k]@
            == self.entries@[k]@ by {
            assert(cloned::<BinarySet>(self.entries@[k], t.entries@[k]));
        }
        assert(t@ =~= self@);
        t
    }
}

impl Default for ConfirmationIndex {
    fn default() -> (t: Self)
        ensures
            t@ == Map::<Seq<u8>, Set<Seq<u8>>>::empty(),
    {
        ConfirmationIndex::new()
    }
}

/// The table is finite, and every key, element and set encoding is short enough for a
/// length prefix.
pub open spec fn table_fits(m: Map<Seq<u8>, Set<Seq<u8>>>) -> bool {
    &&& m.dom().finite()
    &&& forall|k: Seq<u8>| #[trigger] m.contains_key(k) ==> entry_fits(m, k)
}

/// The key `k`, its set's elements and the set's encoding are all short enough for a
/// length prefix.
pub open spec fn entry_fits(m: Map<Seq<u8>, Set<Seq<u8>>>, k: Seq<u8>) -> bool {
    &&& k.len() <= u64::MAX
    &&& set_fits(m[k])
    &&& set_bytes(m[k]).len() <= u64::MAX
}

/// The items of the entries under `keys` alternate: each key, then the encoding of its
/// set.
proof fn lemma_entry_items_shape(keys: Seq<Seq<u8>>, m: Map<Seq<u8>, Set<Seq<u8>>>)
    ensures
        entry_items(keys, m).len() == 2 * keys.len(),
        forall|j: int|
            #![trigger keys[j]]
            0 <= j < keys.len() ==> {
                &&& entry_items(keys, m)[2 * j] == keys[j]
                &&& entry_items(keys, m)[2 * j + 1] == set_bytes(m[keys[j]])
            },
    decreases keys.len(),
{
    if keys.len() > 0 {
        let init = keys.drop_last();
        lemma_entry_items_shape(init, m);
        let pair = seq![keys.last(), set_bytes(m[keys.last()])];
        assert(entry_items(keys, m) == entry_items(init, m) + pair);
        assert forall|j: int| #![trigger keys[j]] 0 <= j < keys.len() implies {
            &&& entry_items(keys, m)[2 * j] == keys[j]
            &&& entry_items(keys, m)[2 * j + 1] == set_bytes(m[keys[j]])
        } by {
            let a = entry_items(init, m);
            if j < keys.len() - 1 {
                assert(init[j] == keys[j]);
                assert(a[2 * j] == init[j]);
                assert(a[2 * j + 1] == set_bytes(m[init[j]]));
                assert((a + pair)[2 * j] == a[2 * j]);
                assert((a + pair)[2 * j + 1] == a[2 * j + 1]);
            } else {
                assert(2 * j == a.len());
                assert(keys[j] == keys.last());
                assert((a + pair)[2 * j] == pair[0]);
                assert((a + pair)[2 * j + 1] == pair[1]);
            }
        }
    }
}

/// The items of the entries of a table that fits are short enough for length prefixes.
proof fn lemma_entry_items_fit(keys: Seq<Seq<u8>>, m: Map<Seq<u8>, Set<Seq<u8>>>)
    requires
        table_fits(m),
        forall|j: int| 0 <= j < keys.len() ==> m.contains_key(#[trigger] keys[j]),
    ensures
        items_fit(entry_items(keys, m)),
    decreases keys.len(),
{
    if keys.len() > 0 {
        let init = keys.drop_last();
        assert forall|j: int| 0 <= j < init.len() implies m.contains_key(#[trigger] init[j]) by {
            assert(init[j] == keys[j]);
        }
        lemma_entry_items_fit(init, m);
        let k = keys.last();
        assert(m.contains_key(k));
        let pair = seq![k, set_bytes(m[k])];
        let e = entry_items(keys, m);
        assert(e == entry_items(init, m) + pair);
        assert forall|i: int| 0 <= i < e.len() implies #[trigger] e[i].len() <= u64::MAX by {
            if i < entry_items(init, m).len() {
                assert(e[i] == entry_items(init, m)[i]);
            }
        }
    }
}

/// Different tables have different encodings.
pub proof fn lemma_table_bytes_injective(m1: Map<Seq<u8>, Set<Seq<u8>>>, m2: Map<Seq<u8>, Set<Seq<u8>>>)
    requires
        table_fits(m1),
        table_fits(m2),
        table_bytes(m1) == table_bytes(m2),
    ensures
        m1 == m2,
{
    crate::lexicographic::lemma_sorted_listing_exists(m1.dom());
    crate::lexicographic::lemma_sorted_listing_exists(m2.dom());
    let l1 = sorted_listing(m1.dom());
    let l2 = sorted_listing(m2.dom());
    let e1 = entry_items(l1, m1);
    let e2 = entry_items(l2, m2);
    lemma_entry_items_shape(l1, m1);
    lemma_entry_items_shape(l2, m2);
    assert forall|j: int| 0 <= j < l1.len() implies m1.contains_key(#[trigger] l1[j]) by {
        assert(l1.to_set().contains(l1[j]));
    }
    assert forall|j: int| 0 <= j < l2.len() implies m2.contains_key(#[trigger] l2[j]) by {
        assert(l2.to_set().contains(l2[j]));
    }
    lemma_entry_items_fit(l1, m1);
    lemma_entry_items_fit(l2, m2);
    lemma_decode_encode(e1);
    lemma_decode_encode(e2);
    assert(e1 == e2);
    assert(l1 =~= l2) by {
        assert forall|j: int| 0 <= j < l1.len() implies l1[j] == l2[j] by {
            assert(e1[2 * j] == l1[j]);
            assert(e2[2 * j] == l2[j]);
        }
    }
    assert(m1.dom() == m2.dom());
    assert forall|k: Seq<u8>| #[trigger] m1.contains_key(k) implies m1[k] == m2[k] by {
        let j = choose|j: int| 0 <= j < l1.len() && l1[j] == k;
        assert(e1[2 * j] == l1[j]);
        assert(e2[2 * j] == l2[j]);
        assert(e1[2 * j + 1] == set_bytes(m1[k]));
        assert(e2[2 * j + 1] == set_bytes(m2[k]));
        lemma_set_bytes_injective(m1[k], m2[k]);
    }
    assert(m1 =~= m2);
}

/// The items of the entries under `keys` depend only on what the table holds under
/// those keys.
proof fn lemma_entry_items_agree(
    keys: Seq<Seq<u8>>,
    m1: Map<Seq<u8>, Set<Seq<u8>>>,
    m2: Map<Seq<u8>, Set<Seq<u8>>>,
)
    requires
        forall|j: int| 0 <= j < keys.len() ==> m1[#[trigger] keys[j]] == m2[keys[j]],
    ensures
        entry_items(keys, m1) == entry_items(keys, m2),
    decreases keys.len(),
{
    if keys.len() > 0 {
        let init = keys.drop_last();
        assert forall|j: int| 0 <= j < init.len() implies m1[#[trigger] init[j]] == m2[init[j]] by {
            assert(init[j] == keys[j]);
        }
        lemma_entry_items_agree(init, m1, m2);
        assert(m1[keys[keys.len() - 1]] == m2[keys[keys.len() - 1]]);
    }
}

/// The encoding of the empty table is empty.
pub proof fn lemma_table_bytes_empty()
    ensures
        table_bytes(Map::<Seq<u8>, Set<Seq<u8>>>::empty()) == Seq::<u8>::empty(),
{
    let l = Seq::<Seq<u8>>::empty();
    assert(l.to_set() =~= Map::<Seq<u8>, Set<Seq<u8>>>::empty().dom());
    crate::lexicographic::lemma_sorted_listing_of(l);
}

/// Adding an entry under a key that comes after every key of the table appends the
/// entry's frames, the key and the encoding of its set, to the table's encoding: entries
/// are written in increasing key order, whatever their number.
pub proof fn lemma_table_bytes_append(
    m: Map<Seq<u8>, Set<Seq<u8>>>,
    k: Seq<u8>,
    s: Set<Seq<u8>>,
)
    requires
        m.dom().finite(),
        forall|j: Seq<u8>| m.contains_key(j) ==> crate::lexicographic::lex_lt(j, k),
    ensures
        table_bytes(m.insert(k, s)) == table_bytes(m) + frame(k) + frame(set_bytes(s)),
{
    crate::lexicographic::lemma_sorted_listing_exists(m.dom());
    let l = sorted_listing(m.dom());
    let l2 = l.push(k);
    let m2 = m.insert(k, s);
    assert(crate::lexicographic::strictly_sorted(l2)) by {
        assert forall|a: int, b: int| 0 <= a < b < l2.len() implies crate::lexicographic::lex_lt(
            #[trigger] l2[a],
            #[trigger] l2[b],
        ) by {
            if b < l.len() {
                assert(l2[a] == l[a] && l2[b] == l[b]);
            } else {
                assert(l.to_set().contains(l[a]));
                assert(l2[a] == l[a]);
            }
        }
    }
    assert(l2 =~= l.insert(l.len() as int, k));
    crate::seq_facts::lemma_insert_to_set(l, l.len() as int, k);
    assert(m2.dom() =~= m.dom().insert(k));
    crate::lexicographic::lemma_sorted_listing_of(l2);
    assert forall|j: int| 0 <= j < l.len() implies m2[#[trigger] l[j]] == m[l[j]] by {
        assert(l.to_set().contains(l[j]));
        if l[j] == k {
            crate::lexicographic::lemma_lex_irreflexive(k);
        }
    }
    lemma_entry_items_agree(l, m2, m);
    assert(l2.drop_last() =~= l);
    assert(entry_items(l2, m2) == entry_items(l, m2) + seq![k, set_bytes(s)]);
    let pair = seq![k, set_bytes(s)];
    lemma_encode_append(entry_items(l, m), pair);
    assert(pair.drop_first().drop_first() =~= Seq::<Seq<u8>>::empty());
    assert(encode_frames(Seq::<Seq<u8>>::empty()) =~= Seq::<u8>::empty());
    assert(pair.drop_first() =~= seq![set_bytes(s)]);
    assert(encode_frames(pair.drop_first()) =~= frame(set_bytes(s)));
    assert(encode_frames(pair) =~= frame(k) + frame(set_bytes(s)));
    assert(table_bytes(m) + frame(k) + frame(set_bytes(s)) =~= table_bytes(m) + (frame(k) + frame(
        set_bytes(s),
    )));
}

} // verus!
