//! The names of the files of an index.

use vstd::prelude::*;
use vstd::string::StringExecFns;

verus! {

/// The name of the postings data file of a field.
pub open spec fn postings_data_name(index_key: Seq<char>) -> Seq<char> {
    "postings_data_"@ + index_key + ".bin"@
}

/// The name of the postings symbol table of a field.
pub open spec fn postings_index_name(index_key: Seq<char>) -> Seq<char> {
    "postings_index_"@ + index_key + ".fst"@
}

/// The name of the lengths symbol table of a field.
pub open spec fn lengths_index_name(index_key: Seq<char>) -> Seq<char> {
    "lengths_index_"@ + index_key + ".fst"@
}

/// The name of the postings data file of a field.
pub fn postings_data_file(index_key: &str) -> (name: String)
    ensures
        name@ == postings_data_name(index_key@),
{
    let mut name = String::from_str("postings_data_");
    name.append(index_key);
    name.append(".bin");
    name
}

/// The name of the postings symbol table of a field.
pub fn postings_index_file(index_key: &str) -> (name: String)
    ensures
        name@ == postings_index_name(index_key@),
{
    let mut name = String::from_str("postings_index_");
    name.append(index_key);
    name.append(".fst");
    name
}

/// The name of the lengths symbol table of a field.
pub fn lengths_index_file(index_key: &str) -> (name: String)
    ensures
        name@ == lengths_index_name(index_key@),
{
    let mut name = String::from_str("lengths_index_");
    name.append(index_key);
    name.append(".fst");
    name
}

/// The name of the symbol table of the average lengths.
pub fn avg_lengths_index_file() -> (name: String)
    ensures
        name@ == "avg_lengths_index.fst"@,
{
    String::from_str("avg_lengths_index.fst")
}

/// The name of the statistics file.
pub fn index_stats_file() -> (name: String)
    ensures
        name@ == "index_stats.json"@,
{
    String::from_str("index_stats.json")
}

} // verus!
