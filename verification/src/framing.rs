//! The length-prefixed framing of a sequence of byte strings: each item is written as its
//! length in eight little-endian bytes followed by the item itself.

use byteorder::{ByteOrder, LittleEndian};
use vstd::bytes::{lemma_auto_spec_u64_to_from_le_bytes, spec_u64_from_le_bytes, spec_u64_to_le_bytes};
use vstd::prelude::*;
use vstd::slice::{slice_subrange, slice_to_vec};

verus! {

/// Number of bytes of a length prefix.
pub const PREFIX_LEN: usize = 8;

/// The frame of one item: its length in eight little-endian bytes, then the item.
pub open spec fn frame(item: Seq<u8>) -> Seq<u8> {
    spec_u64_to_le_bytes(item.len() as u64) + item
}

/// The frames of `items`, one after another in order.
pub open spec fn encode_frames(items: Seq<Seq<u8>>) -> Seq<u8>
    decreases items.len(),
{
    if items.len() == 0 {
        Seq::empty()
    } else {
        frame(items[0]) + encode_frames(items.drop_first())
    }
}

/// Reads `bytes` as a sequence of frames; `None` where a length prefix is cut short or
/// announces more bytes than remain.
pub open spec fn decode_frames(bytes: Seq<u8>) -> Option<Seq<Seq<u8>>>
    decreases bytes.len(),
{
    if bytes.len() == 0 {
        Some(Seq::empty())
    } else if bytes.len() < 8 {
        None
    } else {
        let n = spec_u64_from_le_bytes(bytes.take(8)) as int;
        let rest = bytes.skip(8);
        if n > rest.len() {
            None
        } else {
            match decode_frames(rest.skip(n)) {
                Some(tail) => Some(seq![rest.take(n)] + tail),
                None => None,
            }
        }
    }
}

/// `bytes` is a whole number of frames.
pub open spec fn well_framed(bytes: Seq<u8>) -> bool {
    decode_frames(bytes) is Some
}

/// Every item is short enough for its length to fit in a length prefix.
pub open spec fn items_fit(items: Seq<Seq<u8>>) -> bool {
    forall|i: int| 0 <= i < items.len() ==> #[trigger] items[i].len() <= u64::MAX
}

/// The frames of two sequences back to back are the frames of their concatenation.
pub proof fn lemma_encode_append(a: Seq<Seq<u8>>, b: Seq<Seq<u8>>)
    ensures
        encode_frames(a + b) == encode_frames(a) + encode_frames(b),
    decreases a.len(),
{
    if a.len() == 0 {
        assert(a + b =~= b);
        assert(encode_frames(a) + encode_frames(b) =~= encode_frames(b));
    } else {
        lemma_encode_append(a.drop_first(), b);
        assert((a + b).drop_first() =~= a.drop_first() + b);
        assert((a + b)[0] == a[0]);
        assert(frame(a[0]) + (encode_frames(a.drop_first()) + encode_frames(b)) =~= (frame(a[0])
            + encode_frames(a.drop_first())) + encode_frames(b));
    }
}

/// Decoding the frames of items gives the items back.
pub proof fn lemma_decode_encode(items: Seq<Seq<u8>>)
    requires
        items_fit(items),
    ensures
        decode_frames(encode_frames(items)) == Some(items),
    decreases items.len(),
{
    lemma_auto_spec_u64_to_from_le_bytes();
    if items.len() == 0 {
    } else {
        let x = items[0];
        let tail = items.drop_first();
        assert(items_fit(tail)) by {
            assert forall|i: int| 0 <= i < tail.len() implies #[trigger] tail[i].len() <= u64::MAX by {
                assert(tail[i] == items[i + 1]);
            }
        }
        lemma_decode_encode(tail);
        let e = encode_frames(items);
        let prefix = spec_u64_to_le_bytes(x.len() as u64);
        assert(e == prefix + x + encode_frames(tail));
        assert(e.take(8) =~= prefix);
        let rest = e.skip(8);
        assert(rest =~= x + encode_frames(tail));
        assert(rest.take(x.len() as int) =~= x);
        assert(rest.skip(x.len() as int) =~= encode_frames(tail));
        assert(seq![x] + tail =~= items);
    }
}

/// Re-encoding the items read from a whole number of frames gives the same bytes back.
pub proof fn lemma_encode_decode(bytes: Seq<u8>)
    requires
        well_framed(bytes),
    ensures
        items_fit(decode_frames(bytes).unwrap()),
        encode_frames(decode_frames(bytes).unwrap()) == bytes,
    decreases bytes.len(),
{
    lemma_auto_spec_u64_to_from_le_bytes();
    if bytes.len() > 0 {
        let n = spec_u64_from_le_bytes(bytes.take(8));
        let rest = bytes.skip(8);
        let after = rest.skip(n as int);
        lemma_encode_decode(after);
        let items = decode_frames(bytes).unwrap();
        let x = rest.take(n as int);
        let tail = decode_frames(after).unwrap();
        assert(items == seq![x] + tail);
        assert(items[0] == x);
        assert(items.drop_first() =~= tail);
        assert(x.len() as u64 == n);
        assert(spec_u64_to_le_bytes(n) == bytes.take(8));
        assert(items_fit(items)) by {
            assert forall|i: int| 0 <= i < items.len() implies #[trigger] items[i].len() <= u64::MAX by {
                if i > 0 {
                    assert(items[i] == tail[i - 1]);
                }
            }
        }
        assert(bytes =~= bytes.take(8) + x + after);
    }
}

/// Reads the length prefix at the start of `buf`.
///
/// Calls `byteorder::LittleEndian::read_u64`, which reads the first eight bytes of its
/// argument as a little-endian integer and panics on fewer than eight bytes.
#[verifier::external_body]
fn read_u64_le(buf: &[u8]) -> (n: u64)
    requires
        buf@.len() >= 8,
    ensures
        n == spec_u64_from_le_bytes(buf@.take(8)),
{
    LittleEndian::read_u64(buf)
}

/// The eight little-endian bytes of `n`.
///
/// Calls `byteorder::LittleEndian::write_u64`, which writes `n` in little-endian order to
/// the first eight bytes of its buffer.
#[verifier::external_body]
fn u64_le_bytes(n: u64) -> (bytes: [u8; 8])
    ensures
        bytes@ == spec_u64_to_le_bytes(n),
{
    let mut buf = [0u8; 8];
    LittleEndian::write_u64(&mut buf, n);
    buf
}

/// Appends the frame of `item` to `out`.
pub fn append_frame(out: &mut Vec<u8>, item: &[u8])
    ensures
        final(out)@ == old(out)@ + frame(item@),
{
    let prefix = u64_le_bytes(item.len() as u64);
    let ghost before = out@;
    let mut i: usize = 0;
    while i < PREFIX_LEN
        invariant
            i <= 8,
            prefix@ == spec_u64_to_le_bytes(item@.len() as u64),
            prefix@.len() == 8,
            out@ == before + prefix@.take(i as int),
        decreases 8 - i,
    {
        out.push(prefix[i]);
        i = i + 1;
        assert(out@ =~= before + prefix@.take(i as int));
    }
    let ghost middle = out@;
    let mut j: usize = 0;
    while j < item.len()
        invariant
            j <= item@.len(),
            out@ == middle + item@.take(j as int),
        decreases item@.len() - j,
    {
        out.push(item[j]);
        j = j + 1;
        assert(out@ =~= middle + item@.take(j as int));
    }
    assert(prefix@.take(8) =~= prefix@);
    assert(item@.take(item@.len() as int) =~= item@);
    assert(out@ =~= before + frame(item@));
}

/// Splits a whole number of frames into the items they hold, in order.
pub fn split_frames(bytes: &[u8]) -> (items: Vec<Vec<u8>>)
    requires
        well_framed(bytes@),
    ensures
        items@.map_values(|x: Vec<u8>| x@) == decode_frames(bytes@).unwrap(),
{
    let mut items: Vec<Vec<u8>> = Vec::new();
    let mut pos: usize = 0;
    assert(bytes@.skip(0) =~= bytes@);
    while pos < bytes.len()
        invariant
            pos <= bytes@.len(),
            well_framed(bytes@.skip(pos as int)),
            decode_frames(bytes@).unwrap() == items@.map_values(|x: Vec<u8>| x@) + decode_frames(
                bytes@.skip(pos as int),
            ).unwrap(),
        decreases bytes@.len() - pos,
    {
        let ghost rem = bytes@.skip(pos as int);
        let len = read_u64_le(slice_subrange(bytes, pos, bytes.len()));
        assert(bytes@.subrange(pos as int, bytes@.len() as int) =~= rem);
        let start = pos + PREFIX_LEN;
        let end = start + len as usize;
        let item = slice_to_vec(slice_subrange(bytes, start, end));
        let ghost tail = decode_frames(rem.skip(8).skip(len as int)).unwrap();
        assert(rem.skip(8).take(len as int) =~= item@);
        assert(rem.skip(8).skip(len as int) =~= bytes@.skip(end as int));
        let ghost old_items = items@.map_values(|x: Vec<u8>| x@);
        items.push(item);
        assert(items@.map_values(|x: Vec<u8>| x@) =~= old_items.push(item@));
        assert(old_items.push(item@) + tail =~= old_items + (seq![item@] + tail));
        pos = end;
    }
    assert(bytes@.skip(pos as int) =~= Seq::<u8>::empty());
    assert(items@.map_values(|x: Vec<u8>| x@) + Seq::<Seq<u8>>::empty() =~= items@.map_values(
        |x: Vec<u8>| x@,
    ));
    items
}

/// A frame is the item's length as eight bytes, least significant byte first, followed by
/// the item itself.
pub proof fn lemma_frame_layout(item: Seq<u8>)
    ensures
        frame(item).len() == 8 + item.len(),
        frame(item).skip(8) == item,
        frame(item).take(8) == seq![
            ((item.len() as u64) & 0xff) as u8,
            (((item.len() as u64) >> 8) & 0xff) as u8,
            (((item.len() as u64) >> 16) & 0xff) as u8,
            (((item.len() as u64) >> 24) & 0xff) as u8,
            (((item.len() as u64) >> 32) & 0xff) as u8,
            (((item.len() as u64) >> 40) & 0xff) as u8,
            (((item.len() as u64) >> 48) & 0xff) as u8,
            (((item.len() as u64) >> 56) & 0xff) as u8,
        ],
{
    let n = item.len() as u64;
    vstd::bytes::spec_u64_to_le_bytes_to_open(n);
    lemma_auto_spec_u64_to_from_le_bytes();
    let p = spec_u64_to_le_bytes(n);
    assert(frame(item).take(8) =~= p);
    assert(frame(item).skip(8) =~= item);
}

} // verus!
