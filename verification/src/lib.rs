//! Block-device framework: positioned reads and writes, slices, caches and streams.

pub mod aggregate_gate;
pub mod block;
pub mod cache_crowd;
pub mod cache_laws;
pub mod cache_races;
pub mod cache_service;
pub mod cache_state;
pub mod caching_device;
pub mod callback_device;
pub mod chars;
pub mod content;
pub mod counting_device;
pub mod error;
pub mod ffi;
pub mod file_device;
pub mod gate_laws;
pub mod gate_messages;
pub mod gate_rules;
pub mod guard_file;
pub mod guard_laws;
pub mod lru;
pub mod props;
pub mod readonly;
pub mod slice;
pub mod slice_laws;
pub mod stream;
pub mod test_device;
pub mod text;
pub mod yaml;

pub use aggregate_gate::{AggregateGate, Failure};
pub use block::{BlockDevice, BlockRead};
pub use caching_device::CachingDevice;
pub use callback_device::CallbackDevice;
pub use counting_device::CountingDevice;
pub use error::Error;
pub use readonly::ReadOnlyDevice;
pub use slice::{OwnedRwSlice, OwnedSlice, SliceReader};
pub use stream::BlockReadStreamer;
