//! Dictionary (categorical) encoding for columns of optional strings.
//!
//! A stream of `Option<String>` values is turned into an array of compact
//! integer codes plus a reverse mapping from codes back to strings. Codes can
//! be purely local to one column, or assigned from a shared, epoch-versioned
//! string-interning table so that many columns agree on the code of every
//! string. A small single-flight cache lets several logical consumers of one
//! physical scan share a single read of its result.

pub mod buckets;
pub mod intern;
pub mod revmap;
pub mod builder;
pub mod file_cache;
pub mod hashing;

pub use hashing::StrHashLocal;
