//! Thick-line rasterization over an integer pixel grid, and the raw-packet
//! grammar of the TGA image format.
pub mod geometry;
pub mod pixelcolor;
pub mod style;
pub mod line;
pub mod raw_packet;
