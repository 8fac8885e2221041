//! An append-only, segmented commit log held as the exact bytes of its
//! store and index files.

pub mod bytes;
pub mod config;
pub mod error;
pub mod index;
pub mod log;
pub mod naming;
pub mod segment;
pub mod store;
pub mod theorems;

pub use config::{Config, SegmentConfig};
pub use error::LogError;
pub use log::Log;
