//! A trigram index for regex search over large source trees: trigram
//! extraction, the in-memory index builder, the on-disk byte format, the
//! index reader and the query executor.

pub mod builder;
pub mod error;
pub mod format;
pub mod masks;
pub mod meta;
pub mod ondisk;
pub mod query;
pub mod reader;
pub mod roundtrip;
pub mod trigram;
pub mod types;
pub mod walker;

pub use builder::IndexBuilder;
pub use error::IndexError;
pub use meta::IndexMeta;
pub use reader::IndexReader;
pub use types::{
    bloom_hash, trigram_hash, LookupEntry, PlanModel, PostingEntry, QueryPlan, TrigramHash, TrigramQuery,
};
