//! The byte encoding of a postings entry and the framing of entries in a
//! postings data file.
//!
//! An entry is a list of (document identifier, term frequency) pairs. Its
//! encoding is the one `bincode` gives a sequence of (string, `u64`) pairs:
//! the number of pairs as eight little-endian bytes, then for each pair the
//! byte length of the identifier as eight little-endian bytes, the
//! identifier's bytes, and the frequency as eight little-endian bytes.
//!
//! In a data file each entry is framed: the length of its encoding as eight
//! raw little-endian bytes, then the encoding.

use vstd::prelude::*;
use vstd::bytes::{spec_u64_to_le_bytes, spec_u64_from_le_bytes, u64_to_le_bytes, u64_from_le_bytes};
use vstd::bytes::lemma_auto_spec_u64_to_from_le_bytes;
use vstd::utf8::{valid_utf8, encode_utf8_valid_utf8};
use crate::lex::bytes_of;
use crate::str_map::{ascending, is_listing, lemma_listing_to_map, lemma_to_map_insert, sorted_keys, sorted_values, to_map, StrMap};
use crate::symbols::{keys_of, listing, pairs, values_of};

verus! {

/// The error of the `bincode` crate.
#[verifier::external_type_specification]
#[verifier::external_body]
pub struct ExEncodingErrorKind(bincode::ErrorKind);

/// Why a byte range could not be read as a framed entry.
#[derive(Clone, Copy, Debug, PartialEq, Eq, Structural)]
pub enum CodecError {
    /// The frame does not lie within the data.
    OutOfRange,
    /// The payload is not the encoding of an entry.
    Malformed,
}

/// Eight little-endian bytes.
pub open spec fn le8(v: u64) -> Seq<u8> {
    spec_u64_to_le_bytes(v)
}

/// The lengths that the encoding writes fit in eight bytes.
pub open spec fn encodable(entries: Seq<(Seq<u8>, u64)>) -> bool {
    &&& entries.len() <= u64::MAX
    &&& forall|i: int| 0 <= i < entries.len() ==> (#[trigger] entries[i]).0.len() <= u64::MAX
}

/// Every key is the UTF-8 encoding of some text.
pub open spec fn keys_are_text(entries: Seq<(Seq<u8>, u64)>) -> bool {
    forall|i: int| 0 <= i < entries.len() ==> valid_utf8((#[trigger] entries[i]).0)
}

/// The encoding of one pair.
pub open spec fn item_bytes(item: (Seq<u8>, u64)) -> Seq<u8> {
    le8(item.0.len() as u64) + item.0 + le8(item.1)
}

/// The encodings of the pairs, one after the other.
pub open spec fn items_bytes(entries: Seq<(Seq<u8>, u64)>) -> Seq<u8>
    decreases entries.len(),
{
    if entries.len() == 0 {
        Seq::empty()
    } else {
        item_bytes(entries[0]) + items_bytes(entries.drop_first())
    }
}

/// The encoding of an entry.
pub open spec fn entry_bytes(entries: Seq<(Seq<u8>, u64)>) -> Seq<u8> {
    le8(entries.len() as u64) + items_bytes(entries)
}

/// The pairs of a vector of (string, value) items, keys as bytes.
pub open spec fn text_pairs(items: Seq<(String, u64)>) -> Seq<(Seq<u8>, u64)> {
    Seq::new(items.len(), |i: int| (bytes_of(items[i].0@), items[i].1))
}

/// `bytes` begins with the encoding of `entries`.
pub open spec fn begins_with_entry(bytes: Seq<u8>, entries: Seq<(Seq<u8>, u64)>) -> bool {
    &&& encodable(entries)
    &&& keys_are_text(entries)
    &&& entry_bytes(entries).is_prefix_of(bytes)
}

/// `bytes` begins with the encoding of some entry.
pub open spec fn decodable(bytes: Seq<u8>) -> bool {
    exists|entries: Seq<(Seq<u8>, u64)>| #[trigger] begins_with_entry(bytes, entries)
}

/// The entry whose encoding `bytes` begins with.
pub open spec fn decoded(bytes: Seq<u8>) -> Seq<(Seq<u8>, u64)> {
    choose|entries: Seq<(Seq<u8>, u64)>| #[trigger] begins_with_entry(bytes, entries)
}

/// The map that results from putting the pairs in one after the other, a
/// later pair replacing an earlier one with the same key.
pub open spec fn fold_pairs(entries: Seq<(Seq<u8>, u64)>) -> Map<Seq<u8>, u64>
    decreases entries.len(),
{
    if entries.len() == 0 {
        Map::empty()
    } else {
        fold_pairs(entries.drop_last()).insert(entries.last().0, entries.last().1)
    }
}

/// Calls `bincode::serialize` on a vector of (string, `u64`) pairs. With its
/// fixed-width little-endian integers the result is the encoding described
/// at the top of this file; serialising into memory without a size limit
/// cannot fail.
#[verifier::external_body]
fn serialize_pairs(items: &Vec<(String, u64)>) -> (r: Result<Vec<u8>, Box<bincode::ErrorKind>>)
    ensures
        r is Ok,
        r->Ok_0@ == entry_bytes(text_pairs(items@)),
{
    bincode::serialize(items)
}

/// Calls `bincode::deserialize` for a vector of (string, `u64`) pairs. It
/// reads the pairs that the bytes begin with and ignores what follows them;
/// it fails where the bytes end too early or an identifier is not UTF-8,
/// that is, where the bytes begin with no entry's encoding.
#[verifier::external_body]
fn deserialize_pairs(bytes: &[u8]) -> (r: Result<Vec<(String, u64)>, Box<bincode::ErrorKind>>)
    ensures
        match r {
            Ok(items) => entry_bytes(text_pairs(items@)).is_prefix_of(bytes@),
            Err(_) => !decodable(bytes@),
        },
{
    bincode::deserialize(bytes)
}

proof fn lemma_le8(v: u64, w: u64)
    ensures
        le8(v).len() == 8,
        le8(w).len() == 8,
        le8(v) == le8(w) ==> v == w,
{
    lemma_auto_spec_u64_to_from_le_bytes();
    assert(spec_u64_from_le_bytes(le8(v)) == v);
    assert(spec_u64_from_le_bytes(le8(w)) == w);
}

/// The length of an item's encoding.
pub proof fn lemma_item_len(item: (Seq<u8>, u64))
    ensures
        item_bytes(item).len() == 16 + item.0.len(),
{
    lemma_le8(item.0.len() as u64, 0);
    lemma_le8(item.1, 0);
}

proof fn lemma_items_unique(a: Seq<(Seq<u8>, u64)>, b: Seq<(Seq<u8>, u64)>, x: Seq<u8>)
    requires
        encodable(a),
        encodable(b),
        a.len() == b.len(),
        items_bytes(a).is_prefix_of(x),
        items_bytes(b).is_prefix_of(x),
    ensures
        a == b,
    decreases a.len(),
{
    if a.len() == 0 {
        assert(a =~= b);
    } else {
        let ia = a[0];
        let ib = b[0];
        let ra = items_bytes(a.drop_first());
        let rb = items_bytes(b.drop_first());
        lemma_item_len(ia);
        lemma_item_len(ib);
        lemma_le8(ia.0.len() as u64, ib.0.len() as u64);
        lemma_le8(ia.1, ib.1);
        let ea = items_bytes(a);
        let eb = items_bytes(b);
        assert(ea == item_bytes(ia) + ra);
        assert(eb == item_bytes(ib) + rb);
        assert(le8(ia.0.len() as u64) =~= ea.subrange(0, 8));
        assert(le8(ib.0.len() as u64) =~= eb.subrange(0, 8));
        assert(ea.subrange(0, 8) =~= x.subrange(0, 8));
        assert(eb.subrange(0, 8) =~= x.subrange(0, 8));
        assert(ia.0.len() == ib.0.len());
        let n = ia.0.len() as int;
        assert(ia.0 =~= ea.subrange(8, 8 + n));
        assert(ib.0 =~= eb.subrange(8, 8 + n));
        assert(ea.subrange(8, 8 + n) =~= x.subrange(8, 8 + n));
        assert(eb.subrange(8, 8 + n) =~= x.subrange(8, 8 + n));
        assert(le8(ia.1) =~= ea.subrange(8 + n, 16 + n));
        assert(le8(ib.1) =~= eb.subrange(8 + n, 16 + n));
        assert(ea.subrange(8 + n, 16 + n) =~= x.subrange(8 + n, 16 + n));
        assert(eb.subrange(8 + n, 16 + n) =~= x.subrange(8 + n, 16 + n));
        assert(ia == ib);
        let y = x.skip(16 + n);
        assert(ra =~= ea.skip(16 + n));
        assert(rb =~= eb.skip(16 + n));
        assert(ra.is_prefix_of(y));
        assert(rb.is_prefix_of(y));
        lemma_items_unique(a.drop_first(), b.drop_first(), y);
        assert(a =~= seq![ia] + a.drop_first());
        assert(b =~= seq![ib] + b.drop_first());
    }
}

/// No byte string begins with the encodings of two different entries.
pub proof fn lemma_encoding_unique(a: Seq<(Seq<u8>, u64)>, b: Seq<(Seq<u8>, u64)>, x: Seq<u8>)
    requires
        encodable(a),
        encodable(b),
        entry_bytes(a).is_prefix_of(x),
        entry_bytes(b).is_prefix_of(x),
    ensures
        a == b,
{
    lemma_le8(a.len() as u64, b.len() as u64);
    let ea = entry_bytes(a);
    let eb = entry_bytes(b);
    assert(le8(a.len() as u64) =~= ea.subrange(0, 8));
    assert(le8(b.len() as u64) =~= eb.subrange(0, 8));
    assert(ea.subrange(0, 8) =~= x.subrange(0, 8));
    assert(eb.subrange(0, 8) =~= x.subrange(0, 8));
    assert(a.len() == b.len());
    let y = x.skip(8);
    assert(items_bytes(a) =~= ea.skip(8));
    assert(items_bytes(b) =~= eb.skip(8));
    assert(items_bytes(a).is_prefix_of(y));
    assert(items_bytes(b).is_prefix_of(y));
    lemma_items_unique(a, b, y);
}

/// Decoding undoes encoding: the bytes of an entry, with anything after
/// them, decode to that entry and to no other.
pub proof fn lemma_decode_encode(entries: Seq<(Seq<u8>, u64)>, rest: Seq<u8>)
    requires
        encodable(entries),
        keys_are_text(entries),
    ensures
        decodable(entry_bytes(entries) + rest),
        decoded(entry_bytes(entries) + rest) == entries,
{
    let bytes = entry_bytes(entries) + rest;
    assert(entry_bytes(entries) =~= bytes.subrange(0, entry_bytes(entries).len() as int));
    assert(begins_with_entry(bytes, entries));
    lemma_encoding_unique(decoded(bytes), entries, bytes);
}

/// Decoding undoes encoding for maps: the encoding of the ascending listing
/// of a map, with anything after it, decodes to that map.
pub proof fn lemma_value_round_trip(m: Map<Seq<u8>, u64>, rest: Seq<u8>)
    requires
        is_listing(sorted_keys(m), m),
        encodable(listing(m)),
        keys_are_text(listing(m)),
    ensures
        decodable(entry_bytes(listing(m)) + rest),
        decoded(entry_bytes(listing(m)) + rest) == listing(m),
        fold_pairs(decoded(entry_bytes(listing(m)) + rest)) == m,
{
    lemma_decode_encode(listing(m), rest);
    lemma_listing_to_map(m);
    assert(keys_of(listing(m)) =~= sorted_keys(m));
    assert(values_of(listing(m)) =~= sorted_values(m));
    lemma_fold_ascending(listing(m));
}

/// Ascending pairs fold into the map that holds each value under its key.
pub proof fn lemma_fold_ascending(entries: Seq<(Seq<u8>, u64)>)
    requires
        ascending(keys_of(entries)),
    ensures
        fold_pairs(entries) == to_map(keys_of(entries), values_of(entries)),
    decreases entries.len(),
{
    let keys = keys_of(entries);
    let values = values_of(entries);
    if entries.len() == 0 {
        assert(to_map(keys, values) =~= Map::<Seq<u8>, u64>::empty());
    } else {
        let front = entries.drop_last();
        let n = front.len() as int;
        assert(keys_of(front) =~= keys.take(n));
        assert(values_of(front) =~= values.take(n));
        assert forall|i: int, j: int| 0 <= i < j < n implies crate::lex::lex_less(
            #[trigger] keys.take(n)[i],
            #[trigger] keys.take(n)[j],
        ) by {
            assert(crate::lex::lex_less(keys[i], keys[j]));
        }
        lemma_fold_ascending(front);
        assert forall|j: int| 0 <= j < n implies crate::lex::lex_less(
            #[trigger] keys.take(n)[j],
            keys[n],
        ) by {
            assert(crate::lex::lex_less(keys[j], keys[n]));
        }
        lemma_to_map_insert(keys.take(n), values.take(n), n, keys[n], values[n]);
        assert(keys.take(n).insert(n, keys[n]) =~= keys);
        assert(values.take(n).insert(n, values[n]) =~= values);
    }
}

proof fn lemma_text_pairs_fit(items: Seq<(String, u64)>)
    requires
        items.len() <= usize::MAX,
        forall|i: int| 0 <= i < items.len() ==> bytes_of((#[trigger] items[i]).0@).len() <= usize::MAX,
    ensures
        encodable(text_pairs(items)),
        keys_are_text(text_pairs(items)),
{
    assert forall|i: int| 0 <= i < items.len() implies valid_utf8(
        (#[trigger] text_pairs(items)[i]).0,
    ) by {
        encode_utf8_valid_utf8(items[i].0@);
    }
}

/// Encodes an entry: the pairs of the map in ascending key order.
pub fn serialize_value(value: &StrMap<u64>) -> (bytes: Vec<u8>)
    ensures
        bytes@ == entry_bytes(listing(value@)),
        encodable(listing(value@)),
        keys_are_text(listing(value@)),
        is_listing(sorted_keys(value@), value@),
{
    let items = value.as_items();
    proof {
        assert(items@.len() == items.len());
        value.lemma_listing();
        assert(text_pairs(items@) =~= pairs(value.keys(), value.values()));
        assert forall|i: int| 0 <= i < items@.len() implies valid_utf8(
            (#[trigger] text_pairs(items@)[i]).0,
        ) by {
            encode_utf8_valid_utf8(items@[i].0@);
        }
    }
    proof {
        assert forall|i: int| 0 <= i < items@.len() implies bytes_of(
            (#[trigger] items@[i]).0@,
        ).len() <= usize::MAX by {
            assert(value.keys()[i].len() <= usize::MAX);
        }
        lemma_text_pairs_fit(items@);
    }
    match serialize_pairs(items) {
        Ok(bytes) => bytes,
        Err(_) => Vec::new(),
    }
}

/// Decodes the entry that `bytes` begins with. Where a key occurs twice the
/// later pair stands.
pub fn deserialize_value(bytes: &[u8]) -> (r: Result<StrMap<u64>, CodecError>)
    ensures
        r is Ok <==> decodable(bytes@),
        r matches Ok(m) ==> m@ == fold_pairs(decoded(bytes@)),
        r matches Err(e) ==> e == CodecError::Malformed,
{
    match deserialize_pairs(bytes) {
        Err(_) => Err(CodecError::Malformed),
        Ok(items) => {
            let ghost all = text_pairs(items@);
            let mut map: StrMap<u64> = StrMap::new();
            let mut i: usize = 0;
            while i < items.len()
                invariant
                    i <= items@.len(),
                    all == text_pairs(items@),
                    map@ == fold_pairs(all.take(i as int)),
                    map.wf(),
                    forall|j: int| 0 <= j < i ==> map@.contains_key(bytes_of((#[trigger] items@[j]).0@)),
                decreases items@.len() - i,
            {
                let key = items[i].0.clone();
                let value = items[i].1;
                proof {
                    assert(all.take(i + 1).drop_last() =~= all.take(i as int));
                    assert(all.take(i + 1).last() == all[i as int]);
                }
                map.insert(key, value);
                i += 1;
            }
            proof {
                assert(all.take(items@.len() as int) =~= all);
                assert(items@.len() == items.len());
                assert forall|j: int| 0 <= j < items@.len() implies bytes_of(
                    (#[trigger] items@[j]).0@,
                ).len() <= usize::MAX by {
                    let k = bytes_of(items@[j].0@);
                    assert(map.keys().contains(k));
                    let at = map.keys().index_of(k);
                    assert(map.keys()[at].len() <= usize::MAX);
                }
                lemma_text_pairs_fit(items@);
                assert(begins_with_entry(bytes@, all));
                lemma_encoding_unique(decoded(bytes@), all, bytes@);
            }
            Ok(map)
        },
    }
}

/// What reading a value from `start` to `end` of a data file gives.
pub open spec fn value_in(file: Seq<u8>, start: u64, end: u64) -> Result<Seq<(Seq<u8>, u64)>, CodecError> {
    if start > end || end > file.len() {
        Err(CodecError::OutOfRange)
    } else if !decodable(file.subrange(start as int, end as int)) {
        Err(CodecError::Malformed)
    } else {
        Ok(decoded(file.subrange(start as int, end as int)))
    }
}

/// What reading a length from `start` to `end` of a data file gives.
pub open spec fn length_in(file: Seq<u8>, start: u64, end: u64) -> Result<u64, CodecError> {
    if start > end || end > file.len() {
        Err(CodecError::OutOfRange)
    } else if end - start < 8 {
        Err(CodecError::Malformed)
    } else {
        Ok(spec_u64_from_le_bytes(file.subrange(start as int, start + 8)))
    }
}

/// Appends a buffer to a data file and says where it came to lie.
pub fn write_buffer_to_binary_file(file: &mut Vec<u8>, serialized_value: Vec<u8>) -> (range: (u64, u64))
    ensures
        final(file)@ == old(file)@ + serialized_value@,
        range.0 == old(file)@.len(),
        range.1 == final(file)@.len(),
{
    let start = file.len() as u64;
    let mut buffer = serialized_value;
    file.append(&mut buffer);
    let end = file.len() as u64;
    (start, end)
}

/// Appends a length to a data file, as eight little-endian bytes, and says
/// where it came to lie.
pub fn write_value_to_binary_file(file: &mut Vec<u8>, value: u64) -> (range: (u64, u64))
    ensures
        final(file)@ == old(file)@ + le8(value),
        range.0 == old(file)@.len(),
        range.1 == old(file)@.len() + 8,
{
    write_buffer_to_binary_file(file, u64_to_le_bytes(value))
}

/// Reads the length that lies at `start` in a data file. The range must
/// lie within the file and hold at least the eight bytes of the length.
pub fn read_length_from_mmap(file: &[u8], start: u64, end: u64) -> (r: Result<u64, CodecError>)
    ensures
        r == length_in(file@, start, end),
{
    let n = file.len();
    if start > end || end > n as u64 {
        return Err(CodecError::OutOfRange);
    }
    if end - start < 8 {
        return Err(CodecError::Malformed);
    }
    let from = start as usize;
    Ok(u64_from_le_bytes(&file[from..from + 8]))
}

/// Reads the entry that the range from `start` to `end` of a data file
/// begins with. A later pair replaces an earlier one with the same key.
pub fn read_value_from_mmap(file: &[u8], start: u64, end: u64) -> (r: Result<StrMap<u64>, CodecError>)
    ensures
        r is Ok <==> value_in(file@, start, end) is Ok,
        r matches Ok(m) ==> m@ == fold_pairs(value_in(file@, start, end)->Ok_0),
        r matches Err(e) ==> value_in(file@, start, end) == Err::<Seq<(Seq<u8>, u64)>, CodecError>(e),
{
    let n = file.len();
    if start > end || end > n as u64 {
        return Err(CodecError::OutOfRange);
    }
    deserialize_value(&file[start as usize..end as usize])
}

/// An entry framed for a data file: the length of its encoding, then the
/// encoding.
pub open spec fn frame_bytes(entry: Seq<(Seq<u8>, u64)>) -> Seq<u8> {
    le8(entry_bytes(entry).len() as u64) + entry_bytes(entry)
}

/// A data file: the frames of the entries, one after the other.
pub open spec fn frames_bytes(entries: Seq<Seq<(Seq<u8>, u64)>>) -> Seq<u8>
    decreases entries.len(),
{
    if entries.len() == 0 {
        Seq::empty()
    } else {
        frames_bytes(entries.drop_last()) + frame_bytes(entries.last())
    }
}

/// Where each entry's frame begins in the data file.
pub open spec fn frame_offsets(entries: Seq<Seq<(Seq<u8>, u64)>>) -> Seq<u64> {
    Seq::new(entries.len(), |i: int| frames_bytes(entries.take(i)).len() as u64)
}

/// What reading the frame at `position` of a data file gives.
pub open spec fn frame_at(file: Seq<u8>, position: u64) -> Result<Seq<(Seq<u8>, u64)>, CodecError> {
    if position > u64::MAX - 8 {
        Err(CodecError::OutOfRange)
    } else {
        match length_in(file, position, (position + 8) as u64) {
            Err(e) => Err(e),
            Ok(len) => if len > u64::MAX - 8 - position {
                Err(CodecError::OutOfRange)
            } else {
                value_in(file, (position + 8) as u64, (position + 8 + len) as u64)
            },
        }
    }
}

/// Appends the frame of an entry to a data file and says where it begins.
pub fn write_frame(file: &mut Vec<u8>, entry: &StrMap<u64>) -> (position: u64)
    ensures
        final(file)@ == old(file)@ + frame_bytes(listing(entry@)),
        position == old(file)@.len(),
        encodable(listing(entry@)),
        keys_are_text(listing(entry@)),
        is_listing(sorted_keys(entry@), entry@),
{
    let payload = serialize_value(entry);
    let (start, _middle) = write_value_to_binary_file(file, payload.len() as u64);
    let (_middle, _end) = write_buffer_to_binary_file(file, payload);
    proof {
        assert(final(file)@ =~= old(file)@ + frame_bytes(listing(entry@)));
    }
    start
}

/// Reads the frame that begins at `position` of a data file.
pub fn read_frame(file: &[u8], position: u64) -> (r: Result<StrMap<u64>, CodecError>)
    ensures
        r is Ok <==> frame_at(file@, position) is Ok,
        r matches Ok(m) ==> m@ == fold_pairs(frame_at(file@, position)->Ok_0),
        r matches Err(e) ==> frame_at(file@, position) == Err::<Seq<(Seq<u8>, u64)>, CodecError>(e),
{
    if position > u64::MAX - 8 {
        return Err(CodecError::OutOfRange);
    }
    match read_length_from_mmap(file, position, position + 8) {
        Err(e) => Err(e),
        Ok(len) => {
            if len > u64::MAX - 8 - position {
                Err(CodecError::OutOfRange)
            } else {
                read_value_from_mmap(file, position + 8, position + 8 + len)
            }
        },
    }
}

/// The frames of the first entries are where the data file begins.
pub proof fn lemma_frames_take(entries: Seq<Seq<(Seq<u8>, u64)>>, i: int)
    requires
        0 <= i < entries.len(),
    ensures
        frames_bytes(entries.take(i + 1)) == frames_bytes(entries.take(i)) + frame_bytes(entries[i]),
        frames_bytes(entries.take(i + 1)).is_prefix_of(frames_bytes(entries)),
    decreases entries.len(),
{
    assert(entries.take(i + 1).drop_last() =~= entries.take(i));
    assert(entries.take(i + 1).last() == entries[i]);
    if i + 1 == entries.len() {
        assert(entries.take(i + 1) =~= entries);
    } else {
        let front = entries.drop_last();
        lemma_frames_take(front, i);
        assert(front.take(i + 1) =~= entries.take(i + 1));
    }
}

/// Every frame written to a data file reads back as the entry it was
/// written for, at the offset noted for it.
pub proof fn lemma_frame_reads_back(entries: Seq<Seq<(Seq<u8>, u64)>>, i: int)
    requires
        0 <= i < entries.len(),
        encodable(entries[i]),
        keys_are_text(entries[i]),
        frames_bytes(entries).len() <= u64::MAX,
    ensures
        frame_at(frames_bytes(entries), frame_offsets(entries)[i]) == Ok::<
            Seq<(Seq<u8>, u64)>,
            CodecError,
        >(entries[i]),
{
    let file = frames_bytes(entries);
    let before = frames_bytes(entries.take(i));
    let payload = entry_bytes(entries[i]);
    let upto = frames_bytes(entries.take(i + 1));
    lemma_frames_take(entries, i);
    lemma_le8(payload.len() as u64, 0);
    lemma_auto_spec_u64_to_from_le_bytes();
    let p = before.len() as int;
    let n = payload.len() as int;
    assert(upto.len() == p + 8 + n);
    assert(upto =~= file.subrange(0, upto.len() as int));
    assert(file.subrange(p, p + 8) =~= le8(payload.len() as u64)) by {
        assert(upto.subrange(p, p + 8) =~= le8(payload.len() as u64));
        assert(file.subrange(p, p + 8) =~= upto.subrange(p, p + 8));
    }
    assert(file.subrange(p + 8, p + 8 + n) =~= payload) by {
        assert(upto.subrange(p + 8, p + 8 + n) =~= payload);
        assert(file.subrange(p + 8, p + 8 + n) =~= upto.subrange(p + 8, p + 8 + n));
    }
    lemma_decode_encode(entries[i], Seq::empty());
    assert(payload + Seq::<u8>::empty() =~= payload);
}

} // verus!
