//! Cloud files on demand: the rules that keep a local directory and a remote
//! account in step without losing either side's work.

pub mod args;
pub mod cloud;
pub mod conformance;
pub mod control;
pub mod daemon_loop;
pub mod delta;
pub mod desktop;
pub mod evict_policy;
pub mod folder_creates;
pub mod folder_index;
pub mod invariants;
pub mod lineage;
pub mod local_changes;
pub mod manifest;
pub mod mount;
pub mod namespace;
pub mod namespace_laws;
pub mod namespace_order;
pub mod namespace_paths;
pub mod namespace_subtrees;
pub mod number;
pub mod offline;
pub mod pass;
pub mod pass_laws;
pub mod paths;
pub mod place;
pub mod providers;
pub mod reclaim;
pub mod reference;
pub mod removals;
pub mod resync;
pub mod selection;
pub mod serve;
pub mod sort;
pub mod store;
pub mod table;
pub mod text;
pub mod transfers;
pub mod upload;
pub mod upload_job;
pub mod watch;
pub mod wire;
