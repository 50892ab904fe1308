//! Manifest schema of a puzzle hunt: the behavior fields a game server reads at
//! runtime, the content graph that is built, compressed and encrypted for
//! publication, and the key / object-path derivation both sides share.

pub mod text;
pub mod crypto;
pub mod patch;
pub mod answer;
pub mod behavior;
pub mod resource_id;
pub mod content_gzip;
pub mod json;
pub mod resource;
pub mod version_registry;
pub mod scope;
pub mod collect;

