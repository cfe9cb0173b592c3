//! Photomosaic assignment engine: grid sizing, brightness matching, tile
//! ranking, greedy assignment and compositing, with machine-checked contracts.

pub mod error;
pub mod ratio;
pub mod raster;
pub mod grid;
pub mod compose;
pub mod brightness;
pub mod rank;
pub mod assign;
pub mod order;
pub mod resample;
pub mod sampler;
pub mod pipeline;
pub mod duplicates;
pub mod acquire;
