//! Heap profiles of a sampling allocator: grouping, ranking, rendering and
//! encoding of sampled allocations, and the tools that join them with other
//! measurements.

pub mod allocator;
pub mod config;
pub mod flamegraph;
pub mod gzip;
pub mod hotspot;
pub mod intern;
pub mod joiner;
pub mod load_bias;
pub mod order;
pub mod output;
pub mod pprof;
pub mod profile;
pub mod rate_report;
pub mod stats_dump;
pub mod symbols;
pub mod table;
pub mod text;
pub mod wire;

pub use crate::allocator::{Frames, SnMalloc};
pub use crate::config::{ProfileConfig, ENV_PROFILE_ENABLE, ENV_PROFILE_RATE};
pub use crate::hotspot::{HotSite, HotSpotKey};
pub use crate::profile::{BtSample, HeapProfile, SampleKind, Weight};
pub use crate::symbols::{clear_symbol_cache, ResolvedFrame, SymbolCache};
