//! A multi-field inverted index and the retrieval side of BM25F ranking.
//!
//! An index run tokenizes the text fields of documents into per-field
//! postings (token → document → term frequency) and document lengths, and
//! writes them out as a small set of byte images: per field a postings data
//! file, a symbol table from tokens to offsets in it and a symbol table of
//! document lengths; one symbol table of average lengths; and the number of
//! documents. A retriever opens these images and gathers, for a query
//! token, the integers that a BM25F score is computed from.
//!
//! Tokens, document identifiers and field names are strings ordered by
//! their UTF-8 bytes. Everything the index stores is modelled over byte
//! sequences and unsigned integers; the library reads and writes bytes and
//! leaves files, threads and floating-point arithmetic to its caller.
//!
//! The modules, from the ground up:
//!
//! - [`lex`]: lexicographic order on byte strings;
//! - [`str_map`]: a map from strings to values, kept sorted by key;
//! - [`symbols`]: symbol tables, built and read by the `fst` crate;
//! - [`codec`]: the encoding of postings entries and their framing;
//! - [`tokenizer`]: splitting and cleaning of text;
//! - [`postings`], [`lengths`], [`avg_lengths`], [`stats`]: what an index
//!   accumulates and writes;
//! - [`layout`]: the names of the files of an index;
//! - [`document_reader`]: what of a JSON document is indexed;
//! - [`indexer`]: indexing, merging and writing;
//! - [`retrieval`]: opening an index and looking tokens up;
//! - [`index_laws`], [`order_laws`]: what holds of every index.

pub mod lex;
pub mod str_map;
pub mod symbols;
pub mod codec;
pub mod tokenizer;
pub mod postings;
pub mod lengths;
pub mod avg_lengths;
pub mod stats;
pub mod layout;
pub mod document_reader;
pub mod indexer;
pub mod retrieval;
pub mod index_laws;
pub mod order_laws;
