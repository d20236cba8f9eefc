//! Heat descriptors: compact, versioned summaries that a primary copy of a
//! tenant's data publishes so that secondary (cache-only) copies can decide
//! which layer files to replicate.
//!
//! The crate models the entity hierarchy (tenant -> timeline -> layer), the
//! hot/cold classification of layers, aggregate statistics over the hot set,
//! an access-time normalization, and the canonical wire encoding of a tenant
//! descriptor together with its decoder.

pub mod heatmap;
pub mod codec;

pub use crate::codec::{decode, encode, DecodeError};
pub use crate::heatmap::{
    Generation, HeatMapLayer, HeatMapStats, HeatMapTenant, HeatMapTimeline, LayerFileMetadata,
    LayerName, TimelineId,
};
