//! Core of a live filesystem-to-instance-tree synchronization pipeline:
//! an in-memory mirror of watched directories, a snapshot builder, an
//! identity-stable instance tree, a reconciler that computes minimal
//! patches, and an ordered multi-subscriber change log.

pub mod fs_watcher;
pub mod imfs;
pub mod instance_tree;
pub mod live_session;
pub mod message_queue;
pub mod path;
pub mod path_table;
pub mod project;
pub mod reconciler;
pub mod session_id;
pub mod snapshot;
pub mod snapshot_builder;
pub mod ui;
pub mod visualize;
