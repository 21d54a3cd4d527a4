pub mod allocator;
pub mod block;
pub mod config;
pub mod dash;
pub mod digest;
pub mod eviction;
pub mod gpu;
pub mod index;
pub mod metadata;
pub mod numa;
pub mod placement;
pub mod pool;
pub mod prefix;
pub mod remote_index;
pub mod service;
pub mod transport;
