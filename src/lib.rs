//! A client-side search engine over a sharded, prebuilt inverted index.
//!
//! The library decides everything a query needs: which shard holds a token
//! or a document, what each payload decodes to, how the store grows as shards
//! are ingested, which documents match and in what order they are returned.
//! Fetching the payloads, and the floating-point relevance score, are left to
//! the host, which answers the requests that a search hands out.
pub mod assoc;
pub mod error;
pub mod filters;
pub mod index;
pub mod laws;
pub mod records;
pub mod router;
pub mod search;
pub mod text;

pub use error::IndexError;
pub use filters::{analyze, lowercase_filter, punctuation_filter, stop_word_filter};
pub use index::{Category, DocumentStat, Index, Lookup, TermStat};
pub use router::calculate_shard_id;
pub use search::{
    document_frequency, find_documents, rank, score_inputs, Hit, ScoreInput, Search,
    SearchOptions, SearchResult, Step,
};
