//! A local full-text search index.
//!
//! - [`text`] and [`stemmer`] hold what is taken from outside without
//!   proof: the Unicode character classes and a few string functions of the
//!   standard library, and the Snowball stemmer for English.
//! - [`scan`] decides where tokens begin and end.
//! - [`lexer`] turns a text into its terms.
//! - [`freq`] counts terms.
//! - [`model`] is the index: one record for each document, and for each
//!   term the number of documents that hold it.
//! - [`query`] gathers, for the documents that hold a term of a query, the
//!   numbers that a relevance score is made of.
//! - [`snapshot`] gives the index out in plain values and brings it back.

pub mod text;
pub mod stemmer;
pub mod scan;
pub mod lexer;
pub mod freq;
pub mod model;
mod records;
pub mod query;
pub mod snapshot;
