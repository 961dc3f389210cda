//! Verified core of a path-tracing renderer.
//!
//! The numerically heavy parts of a path tracer (geometry, shading, camera
//! optics) run on IEEE floating point and live outside this library. What is
//! verified here is the bookkeeping that decides whether the final image is
//! assembled correctly at all: the render configuration, the decomposition of
//! the pixel grid into work chunks, the reassembly of out-of-order chunk
//! results into a row-major pixel buffer, pixel index arithmetic, the
//! termination decisions of the light-transport recursion, and the splitting
//! plan of the bounding-volume-hierarchy builder, together with a proof that
//! the hierarchy's pruned traversal finds the same nearest hit as a
//! brute-force scan.

pub mod args;
pub mod bvh;
pub mod config;
pub mod grid;
pub mod random;
pub mod renderer;
pub mod trace;
