//! Container parsing, entropy decoding and raster processing for X3F raw
//! images (Foveon sensors), with the behaviour of the functions stated in their
//! contracts.

pub mod area;
pub mod bad_pixel_sources;
pub mod bad_pixels;
pub mod black_level;
pub mod camf;
pub mod camf_entries;
pub mod control;
pub mod denoise;
pub mod entropy;
pub mod highlight;
pub mod highlight_recovery;
pub mod histogram;
pub mod huffman;
pub mod image;
pub mod image_plan;
pub mod img3;
pub mod io;
pub mod load;
pub mod meta;
pub mod nlm;
pub mod parse;
pub mod preprocess;
pub mod preview;
pub mod print_meta;
pub mod print_sections;
pub mod properties;
pub mod quattro;
pub mod reflect;
pub mod sections;
pub mod spatial_gain;
pub mod text;
pub mod tree;
pub mod types;
pub mod white_balance;
