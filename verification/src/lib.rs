//! Post-decode pixel pipeline: block-edge deblocking and planar YUV 4:2:0
//! to interleaved RGBA conversion.

pub mod bt601;
pub mod chroma;
pub mod deblock;
pub mod edge;
pub mod edge_simd;
pub mod grid;
pub mod lanes;
pub mod strength;
pub mod yuv420;
