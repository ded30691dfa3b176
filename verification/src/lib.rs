//! Verified core of a log-retrieval tool for a windowed, token-paginated
//! upstream API.
//!
//! The library reconstructs a complete, ordered record set from a sequence of
//! pages (the pagination engine), enumerates collection names through a
//! similar token-driven listing API with a hard iteration ceiling (the
//! enumeration engine), caches fully merged record sets under sanitized keys
//! (the content cache), and renders bounded previews of the most recent
//! collections (the preview fan-out). All transport and storage is performed
//! by the surrounding application; the library holds the decisions, the
//! ordering, and the termination logic, each with a proved contract.

pub mod cache;
mod chars;
pub mod codec;
pub mod enumerate;
pub mod paginate;
pub mod preview;
pub mod records;
pub mod sorting;

pub use records::Record;
pub use records::Page;
