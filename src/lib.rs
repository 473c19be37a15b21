//! Near-duplicate detection over 64-bit perceptual video fingerprints.
//!
//! The library holds the verified core: the fingerprint codec, Hamming
//! distance, the multi-index Hamming engine, the identifier-keyed store that
//! caches a built engine, and the decisions of the query protocol.
pub mod distance;
pub mod engine;
pub mod ident;
pub mod index;
pub mod query;
pub mod videohash;

pub use index::{IndexError, VideoHashIndex};
pub use query::{ErrorResponse, SearchOutcome, SearchRequest};
pub use videohash::{CodeError, VideoHash};
