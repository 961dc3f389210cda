use vstd::prelude::*;

verus! {

/// Image and sampling settings for one render.
///
/// The image height is derived from the width and the aspect ratio. The
/// aspect ratio is kept as a ratio of two integers (width units to height
/// units), so the derivation is exact integer arithmetic.
#[derive(Clone, Copy)]
pub struct Config {
    /// Width-to-height ratio of the image, as a pair (width units, height units).
    pub aspect_ratio: (usize, usize),
    pub image_width: usize,
    pub image_height: usize,
    pub samples_per_pixel: i32,
    pub max_depth: usize,
}

impl Config {
    /// The height was derived from the width and the aspect ratio.
    pub open spec fn wf(self) -> bool {
        &&& self.aspect_ratio.0 > 0
        &&& self.image_height == self.image_width * self.aspect_ratio.1 / self.aspect_ratio.0 as int
    }

    pub fn new(
        aspect_ratio: (usize, usize),
        image_width: usize,
        samples_per_pixel: i32,
        max_depth: usize,
    ) -> (c: Config)
        requires
            aspect_ratio.0 > 0,
            image_width * aspect_ratio.1 <= usize::MAX,
        ensures
            c.aspect_ratio == aspect_ratio,
            c.image_width == image_width,
            c.image_height == image_width * aspect_ratio.1 / aspect_ratio.0 as int,
            c.samples_per_pixel == samples_per_pixel,
            c.max_depth == max_depth,
            c.wf(),
    {
        let image_height = image_width * aspect_ratio.1 / aspect_ratio.0;
        Config { aspect_ratio, image_width, image_height, samples_per_pixel, max_depth }
    }
}

} // verus!
