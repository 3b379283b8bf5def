//! Sentinel-2 tile server core: tile arithmetic, mosaic index, compositing and the
//! request rules, each stated as a contract and proved.
pub mod cache;
pub mod cog;
pub mod composite;
pub mod config;
pub mod flood;
pub mod geo;
pub mod index;
pub mod locate;
pub mod number;
pub mod order;
pub mod pipeline;
pub mod prefetch;
pub mod raster;
pub mod render;
pub mod server;
pub mod stac;
pub mod text;
pub mod textmap;
