//! Document lengths of one field: for each document, the number of tokens
//! that the field holds.

use vstd::prelude::*;
use crate::lex::bytes_of;
use crate::str_map::{lemma_to_map_take, sorted_values, to_map, StrMap};
use crate::symbols::{build_image, fst_image, image_map, is_image, listing};

verus! {

/// The sum of the lengths.
pub open spec fn total(lengths: Seq<u64>) -> nat
    decreases lengths.len(),
{
    if lengths.len() == 0 {
        0
    } else {
        total(lengths.drop_last()) + lengths.last() as nat
    }
}

/// The sum is bounded by the number of lengths.
pub proof fn lemma_total_bound(lengths: Seq<u64>)
    ensures
        total(lengths) <= lengths.len() * u64::MAX,
    decreases lengths.len(),
{
    if lengths.len() > 0 {
        lemma_total_bound(lengths.drop_last());
        assert((lengths.len() - 1) * u64::MAX + u64::MAX == lengths.len() * u64::MAX) by (nonlinear_arith);
    }
}

/// The document lengths of one field under its index key.
pub struct Lengths {
    index_key: String,
    lengths: StrMap<u64>,
}

impl View for Lengths {
    type V = Map<Seq<u8>, u64>;

    /// The length of each document that the field was indexed for.
    closed spec fn view(&self) -> Map<Seq<u8>, u64> {
        self.lengths@
    }
}

/// The symbol table of the lengths of a field, with the sum and the number
/// of the lengths, from which their mean is taken.
pub struct LengthsFile {
    /// The symbol table from each document identifier to its length.
    pub index: Vec<u8>,
    /// The sum of the lengths.
    pub total_length: u128,
    /// The number of documents.
    pub documents: usize,
}

impl Lengths {
    /// The name of the field in the index.
    pub closed spec fn index_key(&self) -> Seq<char> {
        self.index_key@
    }

    /// The documents are held in ascending order, each once.
    pub closed spec fn wf(&self) -> bool {
        self.lengths.wf()
    }

    /// No lengths yet for the field `index_key`.
    pub fn new(index_key: String) -> (l: Self)
        ensures
            l@ == Map::<Seq<u8>, u64>::empty(),
            l.index_key() == index_key@,
            l.wf(),
    {
        Lengths { index_key, lengths: StrMap::new() }
    }

    /// The name of the field in the index.
    pub fn key(&self) -> (key: &String)
        ensures
            key@ == self.index_key(),
    {
        &self.index_key
    }

    /// The length noted for a document, if any.
    pub fn get(&self, docid: &str) -> (r: Option<u64>)
        ensures
            r == self@.get(bytes_of(docid@)),
    {
        match self.lengths.get(docid) {
            Some(length) => Some(*length),
            None => None,
        }
    }

    /// Sets the length of a document. The last length set for a document
    /// stands.
    pub fn add_length(&mut self, docid: String, length: u64)
        ensures
            final(self)@ == old(self)@.insert(bytes_of(docid@), length),
            final(self).index_key() == old(self).index_key(),
            final(self).wf(),
    {
        self.lengths.insert(docid, length);
    }

    /// Takes over every length of `lengths_to_add`; where both hold a
    /// document, the length from `lengths_to_add` stands.
    pub fn add_lengths(&mut self, lengths_to_add: &Lengths)
        ensures
            final(self)@ == old(self)@.union_prefer_right(lengths_to_add@),
            final(self).index_key() == old(self).index_key(),
            final(self).wf(),
    {
        let source = &lengths_to_add.lengths;
        let n = source.len();
        proof {
            use_type_invariant(&self.lengths);
        }
        let ghost start = self@;
        let ghost keys = source.keys();
        let ghost values = source.values();
        let mut i: usize = 0;
        proof {
            assert(to_map(keys.take(0), values.take(0)) =~= Map::<Seq<u8>, u64>::empty());
            assert(self@ =~= start.union_prefer_right(to_map(keys.take(0), values.take(0))));
        }
        while i < n
            invariant
                source.wf(),
                keys == source.keys(),
                values == source.values(),
                n == keys.len(),
                i <= n,
                self.wf(),
                self.index_key() == old(self).index_key(),
                self@ == start.union_prefer_right(to_map(keys.take(i as int), values.take(i as int))),
            decreases n - i,
        {
            proof {
                lemma_to_map_take(keys, values, i as int);
            }
            let ghost before = self@;
            let ghost done = to_map(keys.take(i as int), values.take(i as int));
            self.add_length(source.key_at(i).clone(), *source.value_at(i));
            proof {
                assert(self@ =~= start.union_prefer_right(done.insert(keys[i as int], values[i as int])));
            }
            i += 1;
        }
        proof {
            assert(keys.take(n as int) =~= keys);
            assert(values.take(n as int) =~= values);
        }
    }

    /// Builds the symbol table from each document identifier to its length,
    /// and sums the lengths.
    pub fn write_lengths(&self) -> (file: LengthsFile)
        ensures
            file.index@ == fst_image(listing(self@)),
            is_image(file.index@),
            image_map(file.index@) == self@,
            file.total_length == total(sorted_values(self@)),
            file.documents == self@.dom().len(),
    {
        let index = build_image(&self.lengths);
        let n = self.lengths.len();
        let ghost counts = self.lengths.values();
        let mut sum: u128 = 0;
        let mut i: usize = 0;
        proof {
            assert(counts.take(0) =~= Seq::<u64>::empty());
        }
        while i < n
            invariant
                n == counts.len(),
                counts == self.lengths.values(),
                n == self.lengths.keys().len(),
                i <= n,
                sum == total(counts.take(i as int)),
            decreases n - i,
        {
            proof {
                assert(counts.take(i + 1).drop_last() =~= counts.take(i as int));
                assert(counts.take(i + 1).last() == counts[i as int]);
                lemma_total_bound(counts.take(i as int));
                assert(i * u64::MAX + u64::MAX <= usize::MAX * u64::MAX + u64::MAX) by (nonlinear_arith)
                    requires
                        i <= usize::MAX,
                ;
            }
            sum = sum + *self.lengths.value_at(i) as u128;
            i += 1;
        }
        proof {
            assert(counts.take(n as int) =~= counts);
            self.lengths.lemma_len_is_size();
            self.lengths.lemma_listing();
        }
        LengthsFile { index, total_length: sum, documents: n }
    }
}

} // verus!
