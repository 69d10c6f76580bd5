//! Full-text search over IRC logs: message extraction, an inverted index,
//! ranked queries and bounded result collection, with machine-checked contracts.

pub mod builder;
pub mod clock;
pub mod collector;
pub mod errors;
pub mod postings;
pub mod query;
pub mod record;
pub mod score;
pub mod search;
pub mod segment;
pub mod serve;
pub mod store;
pub mod text;
pub mod tokens;
