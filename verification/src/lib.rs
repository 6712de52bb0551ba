//! Verified core of a federated search service over a content-addressed
//! object store whose objects are downloadable as BitTorrent torrents.
//!
//! The library holds the tokenizer, the in-memory inverted index, the
//! magnet-link formatter and parser, the query engine (merge, score, filter,
//! sort, paginate), the single-flight bookkeeping, the upstream file-listing
//! cache, and the ingestion event logic. I/O (HTTP, object store, queues)
//! stays outside; the library states and proves what the pure logic does.

pub mod error;
pub mod index;
pub mod ingest;
pub mod magnet;
pub mod remote;
pub mod server;
pub mod singleflight;
pub mod upstream;
pub mod text;
pub mod mime;
pub mod tokenize;
pub mod types;
pub mod urlencode;
