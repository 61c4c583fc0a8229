//! A key/value store that persists byte-string values under string keys and
//! keeps a size-bounded in-memory cache in front of the persistent store.

pub mod cache;
pub mod diskv;
pub mod error;
pub mod laws;

pub use cache::DiskvCache;
pub use diskv::{Diskv, Options};
pub use error::{DiskvError, DiskvResult};
