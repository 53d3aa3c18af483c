//! Symbol tables: immutable ordered maps from byte strings to `u64`, built
//! and read by the `fst` crate.
//!
//! A table is built in memory from strictly ascending keys and leaves the
//! builder as a byte image. The same image, opened again, answers lookups.

use vstd::prelude::*;
use crate::lex::{bytes_of, lex_less};
use crate::str_map::{ascending, sorted_keys, sorted_values, to_map, StrMap};

verus! {

/// The map builder of the `fst` crate, of which only its wrappers know
/// anything.
#[verifier::external_type_specification]
#[verifier::external_body]
#[verifier::reject_recursive_types(W)]
pub struct ExMapBuilder<W>(fst::MapBuilder<W>);

/// The map of the `fst` crate, of which only its wrappers know anything.
#[verifier::external_type_specification]
#[verifier::external_body]
#[verifier::reject_recursive_types(D)]
pub struct ExSymbolMap<D>(fst::Map<D>);

/// The error of the `fst` crate.
#[verifier::external_type_specification]
#[verifier::external_body]
pub struct ExSymbolError(fst::Error);

/// The key-value pairs that an in-memory `fst::MapBuilder` has taken so far,
/// in the order in which it took them.
pub uninterp spec fn builder_entries(b: fst::MapBuilder<Vec<u8>>) -> Seq<(Seq<u8>, u64)>;

/// The bytes that an in-memory `fst::MapBuilder` yields from `into_inner`
/// after it has taken `entries` in this order.
pub uninterp spec fn fst_image(entries: Seq<(Seq<u8>, u64)>) -> Seq<u8>;

/// The bytes that an opened `fst::Map` reads from.
pub uninterp spec fn map_data(m: fst::Map<&[u8]>) -> Seq<u8>;

/// The keys of a sequence of pairs.
pub open spec fn keys_of(entries: Seq<(Seq<u8>, u64)>) -> Seq<Seq<u8>> {
    Seq::new(entries.len(), |i: int| entries[i].0)
}

/// The values of a sequence of pairs.
pub open spec fn values_of(entries: Seq<(Seq<u8>, u64)>) -> Seq<u64> {
    Seq::new(entries.len(), |i: int| entries[i].1)
}

/// Keys and values paired up position by position.
pub open spec fn pairs(keys: Seq<Seq<u8>>, values: Seq<u64>) -> Seq<(Seq<u8>, u64)> {
    Seq::new(keys.len(), |i: int| (keys[i], values[i]))
}

/// The pairs of a map in ascending order of the keys.
pub open spec fn listing(m: Map<Seq<u8>, u64>) -> Seq<(Seq<u8>, u64)> {
    pairs(sorted_keys(m), sorted_values(m))
}

/// `bytes` is the image of a symbol table with strictly ascending keys.
pub open spec fn is_image(bytes: Seq<u8>) -> bool {
    exists|entries: Seq<(Seq<u8>, u64)>| #[trigger] is_image_of(bytes, entries)
}

/// `bytes` is the image of the table with exactly these entries.
pub open spec fn is_image_of(bytes: Seq<u8>, entries: Seq<(Seq<u8>, u64)>) -> bool {
    ascending(keys_of(entries)) && fst_image(entries) == bytes
}

/// The entries of the symbol table that `bytes` is an image of.
pub open spec fn image_entries(bytes: Seq<u8>) -> Seq<(Seq<u8>, u64)> {
    choose|entries: Seq<(Seq<u8>, u64)>| #[trigger] is_image_of(bytes, entries)
}

/// The symbol table that `bytes` is an image of, as a map.
pub open spec fn image_map(bytes: Seq<u8>) -> Map<Seq<u8>, u64> {
    to_map(keys_of(image_entries(bytes)), values_of(image_entries(bytes)))
}

/// Calls `fst::MapBuilder::memory`: a fresh in-memory builder, which has
/// taken no entry yet.
#[verifier::external_body]
fn builder_new() -> (b: fst::MapBuilder<Vec<u8>>)
    ensures
        builder_entries(b).len() == 0,
{
    fst::MapBuilder::memory()
}

/// Calls `fst::MapBuilder::insert`. The builder takes the pair if and only if
/// its key comes strictly after the last key taken; it refuses a key that is
/// equal to or before the last one and is then left as it was. Writing to
/// memory cannot fail, so there is no other error.
#[verifier::external_body]
fn builder_insert(b: &mut fst::MapBuilder<Vec<u8>>, key: &str, value: u64) -> (r: Result<
    (),
    fst::Error,
>)
    ensures
        r is Ok <==> (builder_entries(*old(b)).len() == 0 || lex_less(
            builder_entries(*old(b)).last().0,
            bytes_of(key@),
        )),
        r is Ok ==> builder_entries(*final(b)) == builder_entries(*old(b)).push(
            (bytes_of(key@), value),
        ),
        r is Err ==> builder_entries(*final(b)) == builder_entries(*old(b)),
{
    b.insert(key, value)
}

/// Calls `fst::MapBuilder::into_inner`: finishes the table and yields its
/// bytes, which depend on the entries taken alone. Writing to memory cannot
/// fail. No other ascending sequence of entries has the same image: a table
/// opened from these bytes holds exactly the entries taken.
#[verifier::external_body]
fn builder_finish(b: fst::MapBuilder<Vec<u8>>) -> (r: Result<Vec<u8>, fst::Error>)
    ensures
        r is Ok,
        r->Ok_0@ == fst_image(builder_entries(b)),
        forall|entries: Seq<(Seq<u8>, u64)>| #[trigger]
            is_image_of(r->Ok_0@, entries) ==> entries == builder_entries(b),
{
    b.into_inner()
}

/// Calls `fst::Map::new` on the image of a symbol table. On bytes that no
/// builder wrote the `fst` crate may panic here or at a later lookup, so
/// only images are admitted; on those it succeeds.
#[verifier::external_body]
pub(crate) fn map_open<'a>(bytes: &'a [u8]) -> (r: Result<fst::Map<&'a [u8]>, fst::Error>)
    requires
        is_image(bytes@),
    ensures
        r is Ok,
        map_data(r->Ok_0) == bytes@,
{
    fst::Map::new(bytes)
}

/// Calls `fst::Map::get`: the value that the table holds under the key, or
/// `None` where it does not hold the key.
#[verifier::external_body]
pub(crate) fn map_get(m: &fst::Map<&[u8]>, key: &str) -> (r: Option<u64>)
    requires
        is_image(map_data(*m)),
    ensures
        forall|entries: Seq<(Seq<u8>, u64)>| #[trigger]
            is_image_of(map_data(*m), entries) ==> r == to_map(
                keys_of(entries),
                values_of(entries),
            ).get(bytes_of(key@)),
{
    m.get(key)
}

/// Builds the symbol table of `map`: its image holds every key of the map
/// with its value, in ascending key order.
pub fn build_image(map: &StrMap<u64>) -> (bytes: Vec<u8>)
    ensures
        bytes@ == fst_image(listing(map@)),
        is_image(bytes@),
        image_entries(bytes@) == listing(map@),
        ascending(keys_of(image_entries(bytes@))),
        image_map(bytes@) == map@,
{
    let n = map.len();
    proof {
        map.lemma_listing();
    }
    let ghost all = pairs(map.keys(), map.values());
    let mut builder = builder_new();
    let mut i: usize = 0;
    proof {
        assert(builder_entries(builder) =~= all.take(0));
    }
    while i < n
        invariant
            map.wf(),
            n == map.keys().len(),
            i <= n,
            all == pairs(map.keys(), map.values()),
            builder_entries(builder) == all.take(i as int),
        decreases n - i,
    {
        let r = builder_insert(&mut builder, map.key_at(i).as_str(), *map.value_at(i));
        proof {
            if i > 0 {
                assert(all.take(i as int).last() == all[i - 1]);
                assert(lex_less(map.keys()[i - 1], map.keys()[i as int]));
            }
            assert(r is Ok);
            assert(all.take(i as int).push(all[i as int]) =~= all.take(i + 1));
        }
        i += 1;
    }
    proof {
        assert(all.take(n as int) =~= all);
        assert(keys_of(all) =~= map.keys());
        assert(values_of(all) =~= map.values());
    }
    let r = builder_finish(builder);
    match r {
        Ok(bytes) => {
            proof {
                assert(is_image_of(bytes@, all));
            }
            bytes
        },
        Err(_) => Vec::new(),
    }
}

} // verus!
