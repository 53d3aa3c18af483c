//! Average document lengths, one per field.
//!
//! A symbol table holds `u64` values only, so an average is kept as the bit
//! pattern of its 64-bit float. The library passes the pattern through and
//! never looks into it.

use vstd::prelude::*;
use crate::lex::bytes_of;
use crate::str_map::StrMap;
use crate::symbols::{build_image, fst_image, image_map, is_image, listing};

verus! {

/// The average length of each field, as the bits of a 64-bit float.
pub struct Avglengths {
    avg_lengths: StrMap<u64>,
}

impl View for Avglengths {
    type V = Map<Seq<u8>, u64>;

    /// The bit pattern of the average length of each field.
    closed spec fn view(&self) -> Map<Seq<u8>, u64> {
        self.avg_lengths@
    }
}

impl Avglengths {
    /// The fields are held in ascending order, each once.
    pub closed spec fn wf(&self) -> bool {
        self.avg_lengths.wf()
    }

    /// No averages yet.
    pub fn new() -> (a: Self)
        ensures
            a@ == Map::<Seq<u8>, u64>::empty(),
            a.wf(),
    {
        Avglengths { avg_lengths: StrMap::new() }
    }

    /// Sets the average length of a field, given as the bits of a 64-bit
    /// float. The last average set for a field stands.
    pub fn add_avg_length(&mut self, index_key: String, avg_length: u64)
        ensures
            final(self)@ == old(self)@.insert(bytes_of(index_key@), avg_length),
            final(self).wf(),
    {
        self.avg_lengths.insert(index_key, avg_length);
    }

    /// Builds the symbol table from each field to the bits of its average
    /// length.
    pub fn write_avg_lengths(&self) -> (index: Vec<u8>)
        ensures
            index@ == fst_image(listing(self@)),
            is_image(index@),
            image_map(index@) == self@,
    {
        build_image(&self.avg_lengths)
    }
}

} // verus!
