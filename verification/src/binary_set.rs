//! A set of byte strings kept in lexicographic order, with its binary encoding.

use crate::digest::{sha256, sha256_digest, HashValue};
use crate::framing::{
    append_frame, decode_frames, encode_frames, items_fit, lemma_decode_encode,
    lemma_encode_append, lemma_encode_decode, split_frames, well_framed,
};
use crate::lexicographic::{
    byte_strings, lemma_sorted_insert, lemma_sorted_listing_exists, lemma_sorted_listing_of,
    lemma_sorted_no_duplicates, locate, sorted_listing, strictly_sorted,
};
use crate::seq_facts::lemma_insert_to_set;
use vstd::prelude::*;

verus! {

/// A set of binary values: each element is the byte string that encodes a value, and the
/// elements are kept in increasing lexicographic order without repetition.
#[derive(Debug, PartialEq, Eq, PartialOrd, Ord)]
pub struct BinarySet {
    items: Vec<Vec<u8>>,
}

impl View for BinarySet {
    type V = Set<Seq<u8>>;

    closed spec fn view(&self) -> Set<Seq<u8>> {
        byte_strings(self.items@).to_set()
    }
}

/// The length of a public key, in bytes.
pub const PUBLIC_KEY_LENGTH: usize = 32;

/// Why bytes do not decode to a set of public keys.
#[derive(Clone, Copy, Debug, PartialEq, Eq)]
pub enum KeyDecodeError {
    /// An element is not `PUBLIC_KEY_LENGTH` bytes long.
    WrongKeyLength,
}

/// Every item is as long as a public key.
pub open spec fn all_keys(items: Seq<Seq<u8>>) -> bool {
    forall|i: int| 0 <= i < items.len() ==> (#[trigger] items[i]).len() == PUBLIC_KEY_LENGTH
}

/// The encoding of a set: the frames of its elements in increasing order.
pub open spec fn set_bytes(s: Set<Seq<u8>>) -> Seq<u8> {
    encode_frames(sorted_listing(s))
}

impl BinarySet {
    #[verifier::type_invariant]
    spec fn sorted(&self) -> bool {
        strictly_sorted(byte_strings(self.items@))
    }

    /// The elements are listed in increasing order, which makes them the set's listing.
    proof fn lemma_listing(&self)
        requires
            self.sorted(),
        ensures
            sorted_listing(self@) == byte_strings(self.items@),
            self@.finite(),
            items_fit(byte_strings(self.items@)),
    {
        lemma_sorted_listing_of(byte_strings(self.items@));
        let l = byte_strings(self.items@);
        assert forall|i: int| 0 <= i < l.len() implies #[trigger] l[i].len() <= u64::MAX by {
            assert(l[i] == self.items@[i]@);
            assert(self.items@[i]@.len() == self.items@[i].len());
        }
        vstd::seq_lib::seq_to_set_is_finite(l);
    }

    /// The empty set.
    pub fn new() -> (s: Self)
        ensures
            s@ == Set::<Seq<u8>>::empty(),
    {
        let s = BinarySet { items: Vec::new() };
        assert(s@ =~= Set::<Seq<u8>>::empty());
        s
    }

    /// The number of elements.
    pub fn len(&self) -> (n: usize)
        ensures
            n == self@.len(),
    {
        proof {
            use_type_invariant(self);
            lemma_sorted_no_duplicates(byte_strings(self.items@));
            byte_strings(self.items@).unique_seq_to_set();
        }
        self.items.len()
    }

    /// Whether `x` is an element.
    pub fn contains(&self, x: &[u8]) -> (b: bool)
        ensures
            b == self@.contains(x@),
    {
        proof {
            use_type_invariant(self);
        }
        let (found, _) = locate(&self.items, x);
        proof {
            let l = byte_strings(self.items@);
            if !found && l.to_set().contains(x@) {
                let k = choose|k: int| 0 <= k < l.len() && l[k] == x@;
                crate::lexicographic::lemma_lex_irreflexive(x@);
            }
        }
        found
    }

    /// Adds `x`; answers whether it was not there before.
    pub fn insert(&mut self, x: Vec<u8>) -> (added: bool)
        ensures
            final(self)@ == old(self)@.insert(x@),
            added == !old(self)@.contains(x@),
    {
        proof {
            use_type_invariant(&*self);
        }
        let ghost l = byte_strings(self.items@);
        let (found, idx) = locate(&self.items, x.as_slice());
        if found {
            assert(self@ =~= self@.insert(x@)) by {
                assert(l[idx as int] == x@);
            }
            return false;
        }
        assert(!l.to_set().contains(x@)) by {
            if l.to_set().contains(x@) {
                let k = choose|k: int| 0 <= k < l.len() && l[k] == x@;
                crate::lexicographic::lemma_lex_irreflexive(x@);
            }
        }
        let mut items: Vec<Vec<u8>> = Vec::new();
        std::mem::swap(&mut items, &mut self.items);
        proof {
            lemma_sorted_insert(l, idx as int, x@);
        }
        let ghost xv = x@;
        items.insert(idx, x);
        let ghost m = byte_strings(items@);
        assert(m =~= l.insert(idx as int, xv));
        proof {
            lemma_insert_to_set(l, idx as int, xv);
        }
        self.items = items;
        true
    }

    /// The elements in increasing order.
    pub fn elements(&self) -> (items: &Vec<Vec<u8>>)
        ensures
            byte_strings(items@) == sorted_listing(self@),
    {
        proof {
            use_type_invariant(self);
            self.lemma_listing();
        }
        &self.items
    }

    /// The binary encoding: for each element in increasing order, its length as eight
    /// little-endian bytes followed by the element.
    pub fn to_bytes(&self) -> (bytes: Vec<u8>)
        ensures
            bytes@ == set_bytes(self@),
            decode_frames(bytes@) == Some(sorted_listing(self@)),
            decode_frames(bytes@).unwrap().to_set() == self@,
            set_bytes(self@).len() <= u64::MAX,
    {
        proof {
            use_type_invariant(self);
            self.lemma_listing();
        }
        let ghost l = byte_strings(self.items@);
        let mut out: Vec<u8> = Vec::new();
        let mut i: usize = 0;
        while i < self.items.len()
            invariant
                i <= self.items@.len(),
                l == byte_strings(self.items@),
                out@ == encode_frames(l.take(i as int)),
            decreases self.items@.len() - i,
        {
            append_frame(&mut out, self.items[i].as_slice());
            proof {
                lemma_encode_append(l.take(i as int), seq![l[i as int]]);
                assert(l.take(i as int) + seq![l[i as int]] =~= l.take(i + 1));
                assert(seq![l[i as int]].drop_first() =~= Seq::<Seq<u8>>::empty());
                assert(encode_frames(Seq::<Seq<u8>>::empty()) =~= Seq::<u8>::empty());
                assert(encode_frames(seq![l[i as int]]) =~= crate::framing::frame(l[i as int]));
            }
            i = i + 1;
        }
        proof {
            assert(l.take(i as int) =~= l);
            lemma_decode_encode(l);
            assert(out@.len() == out.len());
        }
        out
    }

    /// The binary encoding, consuming the set.
    pub fn into_bytes(self) -> (bytes: Vec<u8>)
        ensures
            bytes@ == set_bytes(self@),
            decode_frames(bytes@) == Some(sorted_listing(self@)),
            decode_frames(bytes@).unwrap().to_set() == self@,
            set_bytes(self@).len() <= u64::MAX,
    {
        self.to_bytes()
    }

    /// Reads a set of public keys from its binary encoding: fails when some element is not
    /// a key of `PUBLIC_KEY_LENGTH` bytes; an element that occurs more than once is kept
    /// once.
    pub fn from_key_bytes(value: &[u8]) -> (r: Result<Self, KeyDecodeError>)
        requires
            well_framed(value@),
        ensures
            r is Ok <==> all_keys(decode_frames(value@).unwrap()),
            r is Ok <==> forall|i: int|
                0 <= i < decode_frames(value@).unwrap().len() ==> (
                #[trigger] decode_frames(value@).unwrap()[i]).len() == 32,
            r matches Ok(s) ==> s@ == decode_frames(value@).unwrap().to_set(),
            r matches Err(e) ==> e == KeyDecodeError::WrongKeyLength,
    {
        let chunks = split_frames(value);
        let ghost frames = decode_frames(value@).unwrap();
        let mut i: usize = 0;
        while i < chunks.len()
            invariant
                i <= chunks@.len(),
                chunks@.map_values(|x: Vec<u8>| x@) == frames,
                frames == decode_frames(value@).unwrap(),
                forall|j: int| 0 <= j < i ==> (#[trigger] frames[j]).len() == PUBLIC_KEY_LENGTH,
            decreases chunks@.len() - i,
        {
            assert(frames[i as int] == chunks@[i as int]@);
            if chunks[i].len() != PUBLIC_KEY_LENGTH {
                assert(chunks@[i as int]@.len() == chunks@[i as int].len());
                assert(frames.len() == chunks@.len());
                assert((frames[i as int]).len() != PUBLIC_KEY_LENGTH);
                return Err(KeyDecodeError::WrongKeyLength);
            }
            i = i + 1;
        }
        Ok(Self::from_bytes(value))
    }

    /// Reads a set from its binary encoding; an element that occurs more than once is kept
    /// once.
    pub fn from_bytes(value: &[u8]) -> (s: Self)
        requires
            well_framed(value@),
        ensures
            s@ == decode_frames(value@).unwrap().to_set(),
    {
        let chunks = split_frames(value);
        let ghost frames = decode_frames(value@).unwrap();
        let mut values = BinarySet::new();
        let mut i: usize = 0;
        while i < chunks.len()
            invariant
                i <= chunks@.len(),
                chunks@.map_values(|x: Vec<u8>| x@) == frames,
                values@ == frames.take(i as int).to_set(),
            decreases chunks@.len() - i,
        {
            let chunk = slice_clone(chunks[i].as_slice());
            values.insert(chunk);
            proof {
                assert(frames[i as int] == chunks@[i as int]@);
                assert(frames.take(i + 1) =~= frames.take(i as int).insert(i as int, frames[i as int]));
                lemma_insert_to_set(frames.take(i as int), i as int, frames[i as int]);
            }
            i = i + 1;
        }
        assert(frames.take(i as int) =~= frames);
        values
    }

    /// The hash of the set: the SHA-256 digest of its binary encoding.
    pub fn object_hash(&self) -> (h: HashValue)
        ensures
            h@ == sha256_digest(set_bytes(self@)),
    {
        let bytes = self.to_bytes();
        sha256(bytes.as_slice())
    }
}

impl Clone for BinarySet {
    fn clone(&self) -> (s: Self)
        ensures
            s@ == self@,
    {
        proof {
            use_type_invariant(self);
        }
        let mut items: Vec<Vec<u8>> = Vec::new();
        let mut i: usize = 0;
        while i < self.items.len()
            invariant
                i <= self.items@.len(),
                strictly_sorted(byte_strings(self.items@)),
                byte_strings(items@) == byte_strings(self.items@).take(i as int),
            decreases self.items@.len() - i,
        {
            let ghost before = items@;
            let copy = slice_clone(self.items[i].as_slice());
            items.push(copy);
            assert(items@ == before.push(copy));
            assert(byte_strings(items@) =~= byte_strings(before).push(copy@));
            assert(byte_strings(self.items@)[i as int] == self.items@[i as int]@);
            assert(byte_strings(items@) =~= byte_strings(self.items@).take(i + 1));
            i = i + 1;
        }
        assert(byte_strings(items@) =~= byte_strings(self.items@));
        BinarySet { items }
    }
}

impl Default for BinarySet {
    fn default() -> (s: Self)
        ensures
            s@ == Set::<Seq<u8>>::empty(),
    {
        BinarySet::new()
    }
}

/// A copy of `bytes` in a vector of its own.
fn slice_clone(bytes: &[u8]) -> (v: Vec<u8>)
    ensures
        v@ == bytes@,
{
    vstd::slice::slice_to_vec(bytes)
}

/// Decoding the encoding of a finite set of byte strings gives back its elements, each
/// once and in increasing order.
pub proof fn lemma_set_bytes_roundtrip(s: Set<Seq<u8>>)
    requires
        s.finite(),
        forall|x: Seq<u8>| s.contains(x) ==> x.len() <= u64::MAX,
    ensures
        well_framed(set_bytes(s)),
        decode_frames(set_bytes(s)) == Some(sorted_listing(s)),
        strictly_sorted(decode_frames(set_bytes(s)).unwrap()),
        decode_frames(set_bytes(s)).unwrap().to_set() == s,
{
    lemma_sorted_listing_exists(s);
    let l = sorted_listing(s);
    assert forall|i: int| 0 <= i < l.len() implies #[trigger] l[i].len() <= u64::MAX by {
        assert(l.to_set().contains(l[i]));
    }
    lemma_decode_encode(l);
}

/// Bytes that hold the frames of strictly increasing elements are exactly the encoding of
/// the set that they decode to.
pub proof fn lemma_canonical_bytes(bytes: Seq<u8>)
    requires
        well_framed(bytes),
        strictly_sorted(decode_frames(bytes).unwrap()),
    ensures
        set_bytes(decode_frames(bytes).unwrap().to_set()) == bytes,
{
    let l = decode_frames(bytes).unwrap();
    lemma_sorted_listing_of(l);
    lemma_encode_decode(bytes);
}

/// Every element of `s` is short enough for a length prefix, and `s` is finite.
pub open spec fn set_fits(s: Set<Seq<u8>>) -> bool {
    &&& s.finite()
    &&& forall|x: Seq<u8>| s.contains(x) ==> x.len() <= u64::MAX
}

/// A binary set is finite, and each element is short enough for its length prefix.
pub proof fn lemma_view_fits(s: BinarySet)
    ensures
        set_fits(s@),
{
    let l = byte_strings(s.items@);
    vstd::seq_lib::seq_to_set_is_finite(l);
    assert forall|x: Seq<u8>| s@.contains(x) implies x.len() <= u64::MAX by {
        let i = choose|i: int| 0 <= i < l.len() && l[i] == x;
        assert(l[i] == s.items@[i]@);
        assert(s.items@[i]@.len() == s.items@[i].len());
    }
}

/// Different sets have different encodings.
pub proof fn lemma_set_bytes_injective(s1: Set<Seq<u8>>, s2: Set<Seq<u8>>)
    requires
        set_fits(s1),
        set_fits(s2),
        set_bytes(s1) == set_bytes(s2),
    ensures
        s1 == s2,
{
    lemma_set_bytes_roundtrip(s1);
    lemma_set_bytes_roundtrip(s2);
}

/// Items are all keys exactly when each of them, however many there are, is 32 bytes
/// long.
pub proof fn lemma_all_keys(items: Seq<Seq<u8>>)
    ensures
        all_keys(items) <==> forall|i: int| 0 <= i < items.len() ==> (#[trigger] items[i]).len()
            == 32,
        all_keys(Seq::empty()),
        forall|x: Seq<u8>| all_keys(items) && x.len() == 32 ==> #[trigger] all_keys(items.push(x)),
        forall|x: Seq<u8>| x.len() != 32 ==> !#[trigger] all_keys(items.push(x)),
{
    assert forall|x: Seq<u8>| all_keys(items) && x.len() == 32 implies #[trigger] all_keys(
        items.push(x),
    ) by {
        assert forall|i: int| 0 <= i < items.push(x).len() implies (#[trigger] items.push(x)[i]).len()
            == PUBLIC_KEY_LENGTH by {
            if i < items.len() {
                assert(items.push(x)[i] == items[i]);
            }
        }
    }
    assert forall|x: Seq<u8>| x.len() != 32 implies !#[trigger] all_keys(items.push(x)) by {
        assert(items.push(x)[items.len() as int] == x);
    }
}

/// The encoding of a set whose elements all come before `x` is the encoding of the set
/// followed by the frame of `x`: elements are written in increasing order.
pub proof fn lemma_set_bytes_append(s: Set<Seq<u8>>, x: Seq<u8>)
    requires
        s.finite(),
        forall|y: Seq<u8>| s.contains(y) ==> crate::lexicographic::lex_lt(y, x),
    ensures
        set_bytes(s.insert(x)) == set_bytes(s) + crate::framing::frame(x),
{
    lemma_sorted_listing_exists(s);
    let l = sorted_listing(s);
    let l2 = l.push(x);
    assert(strictly_sorted(l2)) by {
        assert forall|a: int, b: int| 0 <= a < b < l2.len() implies crate::lexicographic::lex_lt(
            #[trigger] l2[a],
            #[trigger] l2[b],
        ) by {
            if b < l.len() {
                assert(l2[a] == l[a] && l2[b] == l[b]);
            } else {
                assert(l.to_set().contains(l[a]));
                assert(l2[a] == l[a]);
            }
        }
    }
    assert(l2 =~= l.insert(l.len() as int, x));
    lemma_insert_to_set(l, l.len() as int, x);
    lemma_sorted_listing_of(l2);
    lemma_encode_append(l, seq![x]);
    assert(seq![x].drop_first() =~= Seq::<Seq<u8>>::empty());
    assert(encode_frames(Seq::<Seq<u8>>::empty()) =~= Seq::<u8>::empty());
    assert(encode_frames(seq![x]) =~= crate::framing::frame(x));
    assert(l + seq![x] =~= l2);
}

/// The encoding of the empty set is empty.
pub proof fn lemma_set_bytes_empty()
    ensures
        set_bytes(Set::<Seq<u8>>::empty()) == Seq::<u8>::empty(),
{
    let l = Seq::<Seq<u8>>::empty();
    assert(l.to_set() =~= Set::<Seq<u8>>::empty());
    lemma_sorted_listing_of(l);
}

} // verus!
