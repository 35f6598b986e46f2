//! Gaussian-splat scenes: field codecs, container formats, the level-of-detail
//! tree builder and the runtime traversal, on integer data.

pub mod ordering;
pub mod splat_encode;
pub mod gzip;
pub mod endian;
pub mod decoder;
pub mod spz;
pub mod text;
pub mod ply;
pub mod gsplat;
pub mod quick_lod;
pub mod lod_tree;
pub mod antisplat;
pub mod ksplat;
