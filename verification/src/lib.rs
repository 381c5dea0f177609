//! Dictionary-coded RDF triple datasets and the synthesis of SPARQL
//! `DELETE DATA` workloads from them.
//!
//! Terms of N-Triples statements are interned into 64-bit ids by a fixed hash;
//! a dataset is then a sequence of id triples and a dictionary from ids back
//! to the terms' lexical forms. On top of that sit the producers that pick
//! triples for queries and the builder that lays the queries out as text.
//!
//! Everything here works on values in memory. Reading and writing files is
//! left to the caller, who hands in and takes back plain bytes.

pub mod compressor;
pub mod decompressor;
pub mod endian;
pub mod error;
pub mod frozen;
pub mod generator;
pub mod laws;
pub mod ntriples;
pub mod query_opt;
pub mod sparql;
pub mod stats;
pub mod triples;
