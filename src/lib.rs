//! Fuzzy keyword lookup of tagged documents by trigram similarity, with an
//! audit of the keywords that matched nothing.

pub mod audit;
pub mod config;
pub mod keywords;
pub mod morsels;
pub mod query;
pub mod refresh;
pub mod store;
pub mod trigrams;
