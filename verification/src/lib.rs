//! Columnar storage for geometric objects: flat coordinate buffers, nested
//! offset buffers and optional validity bitmaps, with zero-copy slicing,
//! row decoding, a binary (WKB) fallback encoding, chunked logical columns
//! and a null-preserving row-wise algorithm dispatcher.

pub mod binary;
pub mod buffer;
pub mod column;
pub mod error;
pub mod generic;
pub mod geom;
pub mod geoseries;
pub mod linestring;
pub mod multipoint;
pub mod ops;
pub mod point;
pub mod polygon;
pub mod primitive;
pub mod series;
pub mod wkb;
