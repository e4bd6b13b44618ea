//! Web map tiles from geospatial rasters and vector layers.

pub mod archive;
pub mod bytes;
pub mod cog;
pub mod cog_layout;
pub mod compress;
pub mod encoder;
pub mod error;
pub mod geometry;
pub mod grid;
pub mod images;
pub mod inputs;
pub mod layer_json;
pub mod mercator;
pub mod output_laws;
pub mod paths;
pub mod pyramid;
pub mod ranking;
pub mod raster_laws;
pub mod raster_pyramid;
pub mod render;
pub mod source;
pub mod source_laws;
pub mod text;
pub mod tiff;
pub mod vector;
pub mod vector_laws;
pub mod vector_pyramid;
pub mod vector_tile;
pub mod window;
pub mod xyz;
