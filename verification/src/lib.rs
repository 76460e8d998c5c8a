//! Verified core of the geodesic wallpaper.
pub mod color_theory;
pub mod pathfinding_art;
pub mod quilts;
pub mod raster;
pub mod text;
pub mod binary;
pub mod png;
pub mod export;
pub mod error;
pub mod recorder;
pub mod noise;
pub mod origami;
pub mod fractal_tree;
pub mod config;
pub mod multi_monitor;
pub mod scene_presets;
pub mod lod;
pub mod generative_art;
