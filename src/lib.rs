//! Deletion-based fuzzy spelling correction.
//!
//! Every known word is indexed under all the strings obtained from it by deleting up to a
//! fixed number of characters; a query is corrected by deleting characters from it in the
//! same way and looking the results up in that index.

pub mod variants;
pub mod word;
pub mod dictionary;
