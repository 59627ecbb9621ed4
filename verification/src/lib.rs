//! A near-duplicate detection library: it classifies files gathered from a
//! directory walk into size buckets, indexes their content fingerprints in a
//! metric tree, and groups files whose fingerprints lie within a configured
//! distance of one another.
pub mod metric;
pub mod pattern;
pub mod buckets;
pub mod index;
pub mod engine;
