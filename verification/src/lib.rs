pub mod cache;
pub mod codec;

pub use cache::Cache;
pub use cache::CacheEntry;
pub use codec::CacheError;
