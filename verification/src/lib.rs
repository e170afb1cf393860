//! Verified core of a Network Block Device server.

pub mod admission;
pub mod block;
pub mod cache_model;
pub mod catalog;
pub mod chunk_images;
pub mod cli;
pub mod committed_read;
pub mod committed_tree;
pub mod compaction;
pub mod compaction_queue;
pub mod cow_plan;
pub mod cow_tree;
pub mod doctor;
pub mod error;
pub mod export;
pub mod export_compaction;
pub mod extent_map;
pub mod gaps;
pub mod geometry;
pub mod identity;
pub mod leaf_walk;
pub mod logging;
pub mod memory;
pub mod negotiation;
pub mod observability;
pub mod overlay;
pub mod paths;
pub mod protocol;
pub mod range;
pub mod read_cache;
pub mod read_plan;
pub mod read_view;
pub mod registry;
pub mod replies;
pub mod root;
pub mod runtime;
pub mod shared_bytes;
pub mod simple_durable;
pub mod simple_plan;
pub mod simple_tree;
pub mod snapshot_compaction;
pub mod splice;
pub mod storage;
pub mod text;
pub mod transmission;
pub mod tree_plan;
pub mod tree_records;
pub mod wal;
pub mod wal_durable;
pub mod wire;
