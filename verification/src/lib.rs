//! Verified in-memory text indexes over a word or line corpus: a prefix
//! trie, a compressed suffix tree and an n-gram posting index, together
//! with a binary codec for persisting them and a query pipeline that
//! filters, ranks and truncates raw matches.
pub mod builder;
pub mod codec;
pub mod distance;
pub mod ngram;
pub mod query;
pub mod scan;
pub mod segment;
pub mod strutil;
pub mod suffix;
pub mod trie;
