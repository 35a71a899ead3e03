//! A compiler for a minimalist bracket-structured stack language.  The
//! translator folds every intermediate quantity into a canonical linear
//! expression over symbolic atoms and batches stack mutations; the
//! generator lowers the batched effects into program text over two
//! growable arrays.
pub mod ast;
pub mod gen;
pub mod laws;
pub mod parser;
pub mod bigint;
pub mod value;
