use vstd::prelude::*;

verus! {

/// Command-line options for a render, as plain values.
///
/// Parsing the command line happens outside the library; the parsed values
/// are handed over in this struct.
#[derive(Debug)]
pub struct Args {
    /// Output image width in pixels.
    pub width: usize,
    /// Samples per pixel.
    pub samples: i32,
    /// Maximum recursion depth of the light-transport evaluation.
    pub max_depth: usize,
    /// Where the finished image is written.
    pub output_path: String,
    /// Worker threads in the render pool.
    pub threads: usize,
    /// Number of pixel chunks the render is split into.
    pub chucks: usize,
}

} // verus!
