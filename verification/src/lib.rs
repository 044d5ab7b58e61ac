//! Verified core of a small software renderer for cubes: the frame and depth
//! buffers, the combinatorial skeleton of polygon clipping and scan
//! conversion, the cube topology, the editor's selection state and the
//! prototype WebAssembly renderer.

pub mod raster;
pub mod cyclic;
pub mod clip;
pub mod scanline;
pub mod cube;
pub mod editor;
pub mod motor;
