//! Inspects a set of changed-file records from a version-control diff,
//! extracts the stable per-asset identifier embedded in `.meta` sidecar
//! files, and groups the changes into two hierarchical views ("what
//! appeared" and "what disappeared") so that a rename or move of an asset
//! can be recognized even though the diff reports it as an unrelated
//! add + delete pair.

pub mod ansi;
pub mod argument_parsing;
pub mod asset_path;
pub mod classifier;
pub mod path_tree_storage;
pub mod uuid;
pub mod uuid_storage;
