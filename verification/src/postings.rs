//! Postings of one field: for each token, the documents that hold it and how
//! often.

use vstd::prelude::*;
use crate::lex::bytes_of;
use crate::codec::{encodable, fold_pairs, frame_at, frame_offsets, frames_bytes, keys_are_text, write_frame, CodecError};
use crate::codec::{lemma_fold_ascending, lemma_frame_reads_back, lemma_frames_take};
use crate::str_map::{is_listing, lemma_canonical, lemma_listing_to_map, lemma_sorted, lemma_to_map_at, lemma_to_map_take, sorted_keys, sorted_values, to_map, StrMap};
use crate::symbols::{build_image, fst_image, image_map, is_image, keys_of, listing, pairs, values_of};

verus! {

/// How often a document holds a token: 0 where the entry does not name it.
pub open spec fn count_in(entry: Map<Seq<u8>, u64>, docid: Seq<u8>) -> u64 {
    if entry.contains_key(docid) {
        entry[docid]
    } else {
        0
    }
}

/// The entry of a token: empty where the postings do not hold the token.
pub open spec fn entry_of(postings: Map<Seq<u8>, Map<Seq<u8>, u64>>, token: Seq<u8>) -> Map<
    Seq<u8>,
    u64,
> {
    if postings.contains_key(token) {
        postings[token]
    } else {
        Map::empty()
    }
}

/// The sum of two frequencies, held at the largest `u64` where it would
/// pass it.
pub open spec fn sat_add(a: u64, b: u64) -> u64 {
    if a + b <= u64::MAX {
        (a + b) as u64
    } else {
        u64::MAX
    }
}

/// The postings after one more occurrence of `token` in `docid`.
pub open spec fn record(
    postings: Map<Seq<u8>, Map<Seq<u8>, u64>>,
    token: Seq<u8>,
    docid: Seq<u8>,
) -> Map<Seq<u8>, Map<Seq<u8>, u64>> {
    let entry = entry_of(postings, token);
    postings.insert(token, entry.insert(docid, sat_add(count_in(entry, docid), 1)))
}

/// Two entries of one token merged: every document of either, with the sum
/// of its frequencies.
pub open spec fn merge_entries(x: Map<Seq<u8>, u64>, y: Map<Seq<u8>, u64>) -> Map<Seq<u8>, u64> {
    Map::new(
        |d: Seq<u8>| x.contains_key(d) || y.contains_key(d),
        |d: Seq<u8>| sat_add(count_in(x, d), count_in(y, d)),
    )
}

/// Two postings merged: every token of either, with its entries merged.
pub open spec fn merge(
    a: Map<Seq<u8>, Map<Seq<u8>, u64>>,
    b: Map<Seq<u8>, Map<Seq<u8>, u64>>,
) -> Map<Seq<u8>, Map<Seq<u8>, u64>> {
    Map::new(
        |t: Seq<u8>| a.contains_key(t) || b.contains_key(t),
        |t: Seq<u8>| merge_entries(entry_of(a, t), entry_of(b, t)),
    )
}

/// Every frequency that the postings hold is at least 1.
pub open spec fn positive(postings: Map<Seq<u8>, Map<Seq<u8>, u64>>) -> bool {
    forall|t: Seq<u8>, d: Seq<u8>|
        postings.contains_key(t) && (#[trigger] postings[t].contains_key(d)) ==> postings[t][d] >= 1
}

/// Recording an occurrence keeps every frequency at 1 or more.
pub proof fn lemma_record_positive(postings: Map<Seq<u8>, Map<Seq<u8>, u64>>, t: Seq<u8>, d: Seq<u8>)
    requires
        positive(postings),
    ensures
        positive(record(postings, t, d)),
{
    let after = record(postings, t, d);
    assert forall|t2: Seq<u8>, d2: Seq<u8>|
        after.contains_key(t2) && (#[trigger] after[t2].contains_key(d2)) implies after[t2][d2]
        >= 1 by {
        if t2 == t {
            if d2 != d {
                assert(postings[t].contains_key(d2));
            }
        } else {
            assert(postings[t2].contains_key(d2));
        }
    }
}

/// Merging keeps every frequency at 1 or more.
pub proof fn lemma_merge_positive(a: Map<Seq<u8>, Map<Seq<u8>, u64>>, b: Map<Seq<u8>, Map<Seq<u8>, u64>>)
    requires
        positive(a),
        positive(b),
    ensures
        positive(merge(a, b)),
{
    let m = merge(a, b);
    assert forall|t: Seq<u8>, d: Seq<u8>|
        m.contains_key(t) && (#[trigger] m[t].contains_key(d)) implies m[t][d] >= 1 by {
        if entry_of(a, t).contains_key(d) {
            assert(a[t].contains_key(d));
        } else {
            assert(b[t].contains_key(d));
        }
    }
}

/// The entries of the postings in ascending order of their tokens, each as
/// its pairs in ascending order of the document identifiers.
pub open spec fn postings_entries(postings: Map<Seq<u8>, Map<Seq<u8>, u64>>) -> Seq<Seq<(Seq<u8>, u64)>> {
    Seq::new(sorted_keys(postings).len(), |i: int| listing(postings[sorted_keys(postings)[i]]))
}

/// The data file of the postings: the frames of the entries in ascending
/// order of their tokens.
pub open spec fn postings_data(postings: Map<Seq<u8>, Map<Seq<u8>, u64>>) -> Seq<u8> {
    frames_bytes(postings_entries(postings))
}

/// For each token, the offset in the data file at which its frame begins.
pub open spec fn postings_positions(postings: Map<Seq<u8>, Map<Seq<u8>, u64>>) -> Map<Seq<u8>, u64> {
    to_map(sorted_keys(postings), frame_offsets(postings_entries(postings)))
}

/// The postings can be written out: they have finitely many tokens and
/// documents, the encoding can express every length in them, every
/// document identifier is text, and the offsets in the data file fit in 64
/// bits.
pub open spec fn storable(postings: Map<Seq<u8>, Map<Seq<u8>, u64>>) -> bool {
    &&& is_listing(sorted_keys(postings), postings)
    &&& forall|i: int|
        0 <= i < sorted_keys(postings).len() ==> {
            &&& is_listing(
                sorted_keys(postings[#[trigger] sorted_keys(postings)[i]]),
                postings[sorted_keys(postings)[i]],
            )
            &&& encodable(listing(postings[sorted_keys(postings)[i]]))
            &&& keys_are_text(listing(postings[sorted_keys(postings)[i]]))
        }
    &&& postings_data(postings).len() <= u64::MAX
}

/// The contents of a map of entries.
pub open spec fn entries_model(m: Map<Seq<u8>, StrMap<u64>>) -> Map<Seq<u8>, Map<Seq<u8>, u64>> {
    m.map_values(|e: StrMap<u64>| e@)
}

/// Counts one more occurrence of a document in an entry.
fn count_document(entry: &mut StrMap<u64>, docid: &String)
    ensures
        final(entry)@ == old(entry)@.insert(
            bytes_of(docid@),
            sat_add(count_in(old(entry)@, bytes_of(docid@)), 1),
        ),
        final(entry).wf(),
{
    match entry.find(docid.as_str()) {
        Some(at) => {
            let tf = *entry.value_at(at);
            let mut next: u64 = if tf < u64::MAX {
                tf + 1
            } else {
                tf
            };
            entry.swap_at(at, &mut next);
        },
        None => {
            entry.insert(docid.clone(), 1);
        },
    }
}

/// Merges the entry `source` into `target`.
fn merge_into(target: &mut StrMap<u64>, source: &StrMap<u64>)
    ensures
        final(target)@ == merge_entries(old(target)@, source@),
        final(target).wf(),
{
    let n = source.len();
    proof {
        use_type_invariant(&*target);
    }
    let ghost start = target@;
    let ghost keys = source.keys();
    let ghost values = source.values();
    let mut j: usize = 0;
    proof {
        assert(to_map(keys.take(0), values.take(0)) =~= Map::<Seq<u8>, u64>::empty());
        assert(target@ =~= merge_entries(start, to_map(keys.take(0), values.take(0))));
    }
    while j < n
        invariant
            source.wf(),
            keys == source.keys(),
            values == source.values(),
            n == keys.len(),
            j <= n,
            target.wf(),
            target@ == merge_entries(start, to_map(keys.take(j as int), values.take(j as int))),
        decreases n - j,
    {
        let docid = source.key_at(j);
        let tf = *source.value_at(j);
        let ghost before = target@;
        let ghost done = to_map(keys.take(j as int), values.take(j as int));
        proof {
            lemma_to_map_take(keys, values, j as int);
        }
        match target.find(docid.as_str()) {
            Some(at) => {
                let held = *target.value_at(at);
                let mut next: u64 = if held <= u64::MAX - tf {
                    held + tf
                } else {
                    u64::MAX
                };
                target.swap_at(at, &mut next);
            },
            None => {
                target.insert(docid.clone(), tf);
            },
        }
        proof {
            let d = keys[j as int];
            assert(target@ == before.insert(d, sat_add(count_in(before, d), tf)));
            assert(target@ =~= merge_entries(start, done.insert(d, tf)));
        }
        j += 1;
    }
    proof {
        assert(keys.take(n as int) =~= keys);
        assert(values.take(n as int) =~= values);
    }
}

/// A map of entries that differs from another by one well-formed entry
/// holds well-formed entries only.
proof fn lemma_values_wf(before: StrMap<StrMap<u64>>, after: StrMap<StrMap<u64>>, t: Seq<u8>)
    requires
        before.wf(),
        after.wf(),
        forall|i: int| 0 <= i < before.values().len() ==> (#[trigger] before.values()[i]).wf(),
        after@.contains_key(t),
        after@[t].wf(),
        after@ == before@.insert(t, after@[t]),
    ensures
        forall|i: int| 0 <= i < after.values().len() ==> (#[trigger] after.values()[i]).wf(),
{
    assert forall|i: int| 0 <= i < after.values().len() implies (#[trigger] after.values()[i]).wf() by {
        crate::str_map::lemma_to_map_at(after.keys(), after.values(), i);
        let k = after.keys()[i];
        if k != t {
            assert(before@.contains_key(k));
            let j = before.keys().index_of(k);
            crate::str_map::lemma_to_map_at(before.keys(), before.values(), j);
        }
    }
}

/// The postings of one field, token by token.
pub struct PostingsBTree {
    postings: StrMap<StrMap<u64>>,
}

impl View for PostingsBTree {
    type V = Map<Seq<u8>, Map<Seq<u8>, u64>>;

    /// For each token, the frequency of the token in each document that
    /// holds it.
    closed spec fn view(&self) -> Map<Seq<u8>, Map<Seq<u8>, u64>> {
        entries_model(self.postings@)
    }
}

impl PostingsBTree {
    spec fn tokens(&self) -> Seq<Seq<u8>> {
        self.postings.keys()
    }

    spec fn entries(&self) -> Seq<Seq<(Seq<u8>, u64)>> {
        Seq::new(
            self.postings.values().len(),
            |i: int| pairs(self.postings.values()[i].keys(), self.postings.values()[i].values()),
        )
    }

    /// Tokens and documents are held in ascending order, each once, and
    /// every frequency is at least 1.
    pub closed spec fn wf(&self) -> bool {
        &&& self.postings.wf()
        &&& forall|i: int| 0 <= i < self.postings.values().len() ==> (#[trigger] self.postings.values()[i]).wf()
        &&& positive(self@)
    }

    #[verifier::type_invariant]
    closed spec fn inv(&self) -> bool {
        self.wf()
    }

    proof fn lemma_listing(&self)
        requires
            self.wf(),
        ensures
            self.tokens() == sorted_keys(self@),
            self.entries() == postings_entries(self@),
            is_listing(sorted_keys(self@), self@),
            forall|i: int|
                0 <= i < sorted_keys(self@).len() ==> is_listing(
                    sorted_keys(self@[#[trigger] sorted_keys(self@)[i]]),
                    self@[sorted_keys(self@)[i]],
                ),
    {
        let keys = self.postings.keys();
        let values = self.postings.values();
        let views = Seq::new(values.len(), |i: int| values[i]@);
        assert forall|k: Seq<u8>| to_map(keys, views).contains_key(k) implies to_map(keys, views)[k]
            == self@[k] by {
            let i = keys.index_of(k);
            lemma_to_map_at(keys, views, i);
            lemma_to_map_at(keys, values, i);
        }
        assert(self@ =~= to_map(keys, views));
        lemma_sorted(keys, views);
        assert forall|i: int| 0 <= i < values.len() implies self.entries()[i] == postings_entries(
            self@,
        )[i] by {
            values[i].lemma_listing();
            lemma_to_map_at(keys, views, i);
        }
        assert(self.entries() =~= postings_entries(self@));
        assert forall|i: int| 0 <= i < sorted_keys(self@).len() implies is_listing(
            sorted_keys(self@[#[trigger] sorted_keys(self@)[i]]),
            self@[sorted_keys(self@)[i]],
        ) by {
            values[i].lemma_listing();
            lemma_to_map_at(keys, views, i);
        }
    }

    /// Well-formed postings hold frequencies of 1 or more only.
    pub proof fn lemma_positive(&self)
        requires
            self.wf(),
        ensures
            positive(self@),
    {
    }

    /// Postings without a token.
    pub fn new() -> (p: Self)
        ensures
            p@ == Map::<Seq<u8>, Map<Seq<u8>, u64>>::empty(),
            p.wf(),
    {
        let p = PostingsBTree { postings: StrMap::new() };
        proof {
            assert(p@ =~= Map::<Seq<u8>, Map<Seq<u8>, u64>>::empty());
        }
        p
    }

    /// Counts one more occurrence of `token` in the document `docid`.
    pub fn add_token_to_docid(&mut self, docid: &String, token: &str)
        ensures
            final(self)@ == record(old(self)@, bytes_of(token@), bytes_of(docid@)),
            final(self).wf(),
    {
        proof {
            use_type_invariant(&*self);
        }
        let ghost model = self@;
        let ghost t = bytes_of(token@);
        let ghost d = bytes_of(docid@);
        let mut postings: StrMap<StrMap<u64>> = StrMap::new();
        core::mem::swap(&mut self.postings, &mut postings);
        let ghost held = postings;
        assert(entries_model(held@) == model);
        match postings.find(token) {
            Some(at) => {
                let mut entry: StrMap<u64> = StrMap::new();
                postings.swap_at(at, &mut entry);
                count_document(&mut entry, docid);
                let ghost counted = entry;
                postings.swap_at(at, &mut entry);
                proof {
                    assert(postings@ =~= held@.insert(t, counted));
                    assert(postings.values() =~= held.values().update(at as int, counted));
                }
            },
            None => {
                let mut entry: StrMap<u64> = StrMap::new();
                count_document(&mut entry, docid);
                let ghost counted = entry;
                postings.insert(token.to_owned(), entry);
                proof {
                    assert(postings@ =~= held@.insert(t, counted));
                }
            },
        }
        proof {
            assert(entries_model(postings@) =~= record(model, t, d));
            lemma_values_wf(held, postings, t);
            lemma_record_positive(model, t, d);
        }
        self.postings = postings;
    }

    /// Merges the postings of `postings_to_merge` into these: every token
    /// and document of either, with the sum of the frequencies.
    pub fn add_tree(&mut self, postings_to_merge: &Postings)
        ensures
            final(self)@ == merge(old(self)@, postings_to_merge@),
            final(self).wf(),
    {
        let source = &postings_to_merge.postings_tree.postings;
        proof {
            use_type_invariant(&*self);
            use_type_invariant(&postings_to_merge.postings_tree);
        }
        let ghost start = self@;
        let ghost keys = source.keys();
        let ghost values = source.values();
        let mut postings: StrMap<StrMap<u64>> = StrMap::new();
        core::mem::swap(&mut self.postings, &mut postings);
        let n = source.len();
        let mut i: usize = 0;
        proof {
            assert(to_map(keys.take(0), values.take(0)) =~= Map::<Seq<u8>, StrMap<u64>>::empty());
            assert(entries_model(postings@) =~~= merge(
                start,
                entries_model(to_map(keys.take(0), values.take(0))),
            ));
        }
        while i < n
            invariant
                source.wf(),
                keys == source.keys(),
                values == source.values(),
                n == keys.len(),
                i <= n,
                forall|k: int| 0 <= k < values.len() ==> (#[trigger] values[k]).wf(),
                postings.wf(),
                forall|k: int| 0 <= k < postings.values().len() ==> (#[trigger] postings.values()[k]).wf(),
                entries_model(postings@) == merge(
                    start,
                    entries_model(to_map(keys.take(i as int), values.take(i as int))),
                ),
            decreases n - i,
        {
            let token = source.key_at(i);
            let theirs = source.value_at(i);
            let ghost held = postings;
            let ghost t = keys[i as int];
            let ghost done = to_map(keys.take(i as int), values.take(i as int));
            proof {
                lemma_to_map_take(keys, values, i as int);
            }
            let ghost cur = entries_model(held@);
            let ghost mut merged: Map<Seq<u8>, u64> = Map::empty();
            match postings.find(token.as_str()) {
                Some(at) => {
                    let mut entry: StrMap<u64> = StrMap::new();
                    postings.swap_at(at, &mut entry);
                    proof {
                        assert(entry@ == entry_of(cur, t));
                    }
                    merge_into(&mut entry, theirs);
                    proof {
                        merged = entry@;
                    }
                    let ghost kept = entry;
                    postings.swap_at(at, &mut entry);
                    proof {
                        assert(postings@ =~= held@.insert(t, kept));
                    }
                },
                None => {
                    let mut entry: StrMap<u64> = StrMap::new();
                    proof {
                        assert(entry@ == entry_of(cur, t));
                    }
                    merge_into(&mut entry, theirs);
                    proof {
                        merged = entry@;
                    }
                    let ghost kept = entry;
                    postings.insert(token.clone(), entry);
                    proof {
                        assert(postings@ =~= held@.insert(t, kept));
                    }
                },
            }
            proof {
                lemma_values_wf(held, postings, t);
                let before = entries_model(done);
                let after = entries_model(done.insert(t, *theirs));
                assert(merged == merge_entries(entry_of(cur, t), theirs@));
                assert(entries_model(postings@) =~= cur.insert(t, merged));
                assert(after =~= before.insert(t, theirs@));
                assert(!before.contains_key(t));
                assert(entry_of(before, t) =~= Map::<Seq<u8>, u64>::empty());
                assert(entry_of(cur, t) =~= entry_of(start, t));
                assert(merged =~= merge_entries(entry_of(start, t), entry_of(after, t)));
                assert forall|x: Seq<u8>| x != t implies entry_of(before, x) == entry_of(after, x) by {}
                assert(entries_model(postings@) =~= merge(start, after));
            }
            i += 1;
        }
        proof {
            assert(keys.take(n as int) =~= keys);
            assert(values.take(n as int) =~= values);
            assert(to_map(keys, values) == source@);
            lemma_merge_positive(start, postings_to_merge@);
        }
        self.postings = postings;
    }
}

/// The postings of one field under its index key.
pub struct Postings {
    index_key: String,
    postings_tree: PostingsBTree,
}

impl View for Postings {
    type V = Map<Seq<u8>, Map<Seq<u8>, u64>>;

    /// For each token, the frequency of the token in each document that
    /// holds it.
    closed spec fn view(&self) -> Map<Seq<u8>, Map<Seq<u8>, u64>> {
        self.postings_tree@
    }
}

/// The two files that hold the postings of a field.
pub struct PostingsFiles {
    /// The data file: the framed entries in ascending order of their tokens.
    pub data: Vec<u8>,
    /// The symbol table from each token to the offset of its frame.
    pub index: Vec<u8>,
}

impl Postings {
    /// The name of the field in the index.
    pub closed spec fn index_key(&self) -> Seq<char> {
        self.index_key@
    }

    /// Tokens and documents are held in ascending order, each once, and
    /// every frequency is at least 1.
    pub closed spec fn wf(&self) -> bool {
        self.postings_tree.wf()
    }

    /// Well-formed postings hold frequencies of 1 or more only.
    pub proof fn lemma_positive(&self)
        requires
            self.wf(),
        ensures
            positive(self@),
    {
        self.postings_tree.lemma_positive();
    }

    /// Empty postings for the field `index_key`.
    pub fn new(index_key: String) -> (p: Self)
        ensures
            p@ == Map::<Seq<u8>, Map<Seq<u8>, u64>>::empty(),
            p.index_key() == index_key@,
            p.wf(),
    {
        Postings { index_key, postings_tree: PostingsBTree::new() }
    }

    /// The name of the field in the index.
    pub fn key(&self) -> (key: &String)
        ensures
            key@ == self.index_key(),
    {
        &self.index_key
    }

    /// Counts one more occurrence of `token` in the document `docid`.
    pub fn add_token_to_docid(&mut self, docid: &String, token: &str)
        ensures
            final(self)@ == record(old(self)@, bytes_of(token@), bytes_of(docid@)),
            final(self).index_key() == old(self).index_key(),
            final(self).wf(),
    {
        self.postings_tree.add_token_to_docid(docid, token);
    }

    /// Merges the postings of `postings_to_merge` into these.
    pub fn add_postings(&mut self, postings_to_merge: &Postings)
        ensures
            final(self)@ == merge(old(self)@, postings_to_merge@),
            final(self).index_key() == old(self).index_key(),
            final(self).wf(),
    {
        self.postings_tree.add_tree(postings_to_merge);
    }

    /// Drains the postings into a data file: the frame of each entry, in
    /// ascending order of the tokens. Hands back the data and, for each
    /// token, the offset at which its frame begins.
    pub fn create_postings_file(&mut self) -> (r: (Vec<u8>, StrMap<u64>))
        ensures
            r.0@ == postings_data(old(self)@),
            r.1@ == postings_positions(old(self)@),
            r.1.keys() == sorted_keys(old(self)@),
            r.1.values() == frame_offsets(postings_entries(old(self)@)),
            r.1.wf(),
            storable(old(self)@),
            final(self)@ == Map::<Seq<u8>, Map<Seq<u8>, u64>>::empty(),
            final(self).index_key() == old(self).index_key(),
            final(self).wf(),
    {
        let mut tree = PostingsBTree::new();
        core::mem::swap(&mut self.postings_tree, &mut tree);
        proof {
            use_type_invariant(&tree);
            tree.lemma_listing();
        }
        let ghost tokens = tree.tokens();
        let ghost entries = tree.entries();
        let ghost offsets = frame_offsets(entries);
        let mut data: Vec<u8> = Vec::new();
        let mut positions: StrMap<u64> = StrMap::new();
        let n = tree.postings.len();
        let mut i: usize = 0;
        proof {
            assert(positions@ =~= to_map(tokens.take(0), offsets.take(0)));
            assert(entries.take(0) =~= Seq::<Seq<(Seq<u8>, u64)>>::empty());
        }
        while i < n
            invariant
                tree.wf(),
                tokens == tree.tokens(),
                entries == tree.entries(),
                offsets == frame_offsets(entries),
                n == tokens.len(),
                n == entries.len(),
                i <= n,
                data@ == frames_bytes(entries.take(i as int)),
                positions.wf(),
                positions@ == to_map(tokens.take(i as int), offsets.take(i as int)),
                forall|k: int|
                    0 <= k < i ==> encodable(#[trigger] entries[k]) && keys_are_text(entries[k]),
            decreases n - i,
        {
            let token = tree.postings.key_at(i);
            let entry = tree.postings.value_at(i);
            proof {
                lemma_to_map_take(tokens, offsets, i as int);
                lemma_frames_take(entries, i as int);
                entry.lemma_listing();
            }
            let position = write_frame(&mut data, entry);
            positions.insert(token.clone(), position);
            i += 1;
        }
        proof {
            assert(data@.len() == data.len());
            assert(tokens.take(n as int) =~= tokens);
            assert(offsets.take(n as int) =~= offsets);
            assert(entries.take(n as int) =~= entries);
            lemma_canonical(positions.keys(), positions.values(), tokens, offsets);
            assert forall|i: int| 0 <= i < sorted_keys(tree@).len() implies encodable(
                listing(tree@[#[trigger] sorted_keys(tree@)[i]]),
            ) && keys_are_text(listing(tree@[sorted_keys(tree@)[i]])) by {
                assert(entries[i] == listing(tree@[sorted_keys(tree@)[i]]));
            }
            assert(storable(tree@));
        }
        (data, positions)
    }

    /// Builds the symbol table from each token to the offset of its frame.
    pub fn create_postings_fst_file(&self, positions: &StrMap<u64>) -> (index: Vec<u8>)
        ensures
            index@ == fst_image(listing(positions@)),
            is_image(index@),
            image_map(index@) == positions@,
    {
        build_image(positions)
    }

    /// Drains the postings into their two files.
    pub fn write_postings(&mut self) -> (files: PostingsFiles)
        ensures
            files.data@ == postings_data(old(self)@),
            files.index@ == fst_image(listing(postings_positions(old(self)@))),
            is_image(files.index@),
            image_map(files.index@) == postings_positions(old(self)@),
            storable(old(self)@),
            final(self)@ == Map::<Seq<u8>, Map<Seq<u8>, u64>>::empty(),
            final(self).index_key() == old(self).index_key(),
            final(self).wf(),
    {
        let (data, positions) = self.create_postings_file();
        let index = self.create_postings_fst_file(&positions);
        PostingsFiles { data, index }
    }
}

/// What is written for a token reads back: the symbol table gives the
/// offset of a frame in the data file, and that frame decodes to the
/// token's entry.
pub proof fn lemma_postings_read_back(postings: Map<Seq<u8>, Map<Seq<u8>, u64>>, token: Seq<u8>)
    requires
        storable(postings),
        postings.contains_key(token),
    ensures
        postings_positions(postings).contains_key(token),
        frame_at(postings_data(postings), postings_positions(postings)[token]) == Ok::<
            Seq<(Seq<u8>, u64)>,
            CodecError,
        >(listing(postings[token])),
        fold_pairs(listing(postings[token])) == postings[token],
{
    let keys = sorted_keys(postings);
    let entries = postings_entries(postings);
    let offsets = frame_offsets(entries);
    assert(keys.contains(token));
    let i = keys.index_of(token);
    lemma_to_map_at(keys, offsets, i);
    assert(entries[i] == listing(postings[token]));
    lemma_frame_reads_back(entries, i);
    let e = postings[token];
    lemma_listing_to_map(e);
    assert(keys_of(listing(e)) =~= sorted_keys(e));
    assert(values_of(listing(e)) =~= sorted_values(e));
    lemma_fold_ascending(listing(e));
}

/// A token that the postings do not hold has no offset.
pub proof fn lemma_postings_absent(postings: Map<Seq<u8>, Map<Seq<u8>, u64>>, token: Seq<u8>)
    requires
        storable(postings),
        !postings.contains_key(token),
    ensures
        !postings_positions(postings).contains_key(token),
{
}

} // verus!
