//! Verified core of the `focus` sparse-checkout tool: target and label
//! parsing, sparse-profile outlining patterns, project selection and the
//! scheduling model of background maintenance.

pub mod text;
pub mod target;
pub mod labelset;
pub mod path;
pub mod outlining;
pub mod digest;
pub mod valueset;
pub mod stringset;
pub mod selection;
pub mod resolution;
pub mod keyed;
pub mod catalog;
pub mod layers;
pub mod adhoc;
pub mod maintenance;
pub mod config;
pub mod cachekeys;
pub mod resolver;
pub mod bazel;
pub mod assoc;
pub mod ttl_cache;
pub mod content_hash;
pub mod sync;
pub mod changes;
pub mod clone;
pub mod materialize;
pub mod listing;
