//! Tiled vector map data.

pub mod access_law;
pub mod archive;
pub mod archive_law;
pub mod bitset;
pub mod blend;
pub mod blob;
pub mod build_law;
pub mod bytes;
pub mod classifier;
pub mod classifier_law;
pub mod compress;
pub mod coord_law;
pub mod decimal;
pub mod decode;
pub mod double;
pub mod draw_law;
pub mod endpoint_grid;
pub mod extract_law;
pub mod extractor;
pub mod feature;
pub mod feature_law;
pub mod filters;
pub mod format;
pub mod grid;
pub mod hilbert;
pub mod ids;
pub mod layout_law;
pub mod mask;
pub mod meet_law;
pub mod metadata;
pub mod number_law;
pub mod osm;
pub mod pack_law;
pub mod painter;
pub mod piece_law;
pub mod pmtiles;
pub mod raster_law;
pub mod reader;
pub mod record;
pub mod relation_features;
pub mod ring_law;
pub mod rings;
pub mod scene;
pub mod scene_law;
pub mod scene_weld_law;
pub mod sink;
pub mod sort;
pub mod source_law;
pub mod spill;
pub mod store;
pub mod strokes;
pub mod tags;
pub mod text;
pub mod text_law;
pub mod tile;
pub mod tile_cache;
pub mod tile_law;
pub mod tile_model;
pub mod tileformat;
pub mod tiler;
pub mod turn;
pub mod turn_law;
pub mod varint;
pub mod view;
pub mod view_law;
pub mod walk_law;
pub mod weld;
pub mod weld_law;
pub mod weld_model;
pub mod weld_step_law;
