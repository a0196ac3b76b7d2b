//! The verified core of a web search engine.
//!
//! The larger part is the crawl frontier: the state that a crawl keeps of the
//! domains and URLs it has discovered, and the operations that take in seeds
//! and fetch results and hand out work.
//!
//! - [`model`] holds the data model, [`key`] and [`bytes`] the store keys and
//!   their order.
//! - [`table`] and [`text_table`] are the ordered tables that the stores are
//!   made of; [`stores`], [`shard`] and [`url_store`] are the stores: domain
//!   states, redirects, range indexes, and the rolling shards of URL states.
//! - [`sampler`] is the weighted reservoir sampler.
//! - [`ingest`] groups discovered URLs by domain, and [`crawl_db`] is the
//!   frontier itself; [`invariants`] states what holds of it between
//!   operations.
//!
//! The stores hold their contents as values. A driver reads them from disk,
//! calls the operations, and writes through what they changed.
//!
//! The smaller part belongs to the search side: [`query`] parses a query into
//! terms, [`positions`] matches token positions, and [`webgraph_entry`] plans
//! the jobs of webgraph construction.

pub mod bytes;
pub mod crawl_db;
pub mod ingest;
pub mod invariants;
pub mod key;
pub mod model;
pub mod positions;
pub mod query;
pub mod sampler;
pub mod shard;
pub mod stores;
pub mod table;
pub mod text_table;
pub mod url_store;
pub mod webgraph_entry;
