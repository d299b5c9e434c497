//! A small full-text search engine for documents with a title and a content.
//!
//! `store` builds an index: it counts the terms of each document and writes
//! a term dictionary, which holds a posting list for each term, and a term
//! index, which maps each term to the place of its posting list. `query`
//! opens the two files, finds the posting lists of the terms of a query,
//! unites them and ranks the documents. `analyzer` turns a text into terms.
//!
//! The library works on bytes and leaves files and floating point to its
//! caller: a build gives the bytes of the two files, a query reads them, and
//! the score of a document is asked of a callback as an integer key.
pub mod analyzer;
pub mod query;
pub mod store;
