//! Harvesting of who-starred-what interactions: the per-partition page crawl with
//! its backoff, the durable store of interactions, and the handoff of flattened
//! pairs to indicator training, with the lookup of trained indicators.

pub mod backoff;
pub mod fetch;
pub mod interactions;
pub mod partition;
pub mod reco;
pub mod store;
