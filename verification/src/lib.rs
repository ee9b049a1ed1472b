//! Offline, bounded import policies for owned game data: item text lines,
//! owned-ID registries, schema membership refinements, observation catalogs,
//! source provenance pins and published artifact manifests.
pub mod text;
pub mod item_lines;
pub mod registry;
pub mod mapping;
pub mod membership;
pub mod refinement;
pub mod gems;
pub mod recipe;
pub mod provenance;
pub mod item_source;
pub mod observations;
pub mod observation_policy;
pub mod release;
pub mod normalize;
