use vstd::prelude::*;

verus! {

/// What a viewport shows.
#[derive(Clone, Copy, Debug, PartialEq, Eq, Structural)]
pub enum ViewportMode {
    DisplayImage,
    DisplayNormals,
    DisplayBvhHeatmap,
}

impl ViewportMode {
    /// The number the drawing pass receives for this mode.
    pub fn serialize(&self) -> (r: u32)
        ensures
            r == (match *self {
                ViewportMode::DisplayImage => 0u32,
                ViewportMode::DisplayNormals => 1u32,
                ViewportMode::DisplayBvhHeatmap => 2u32,
            }),
    {
        match self {
            ViewportMode::DisplayImage => 0,
            ViewportMode::DisplayNormals => 1,
            ViewportMode::DisplayBvhHeatmap => 2,
        }
    }
}

impl Default for ViewportMode {
    fn default() -> (r: Self)
        ensures
            r == ViewportMode::DisplayImage,
    {
        ViewportMode::DisplayImage
    }
}

/// How a viewport renders: what it shows and how many bounces it traces.
#[derive(Clone, Debug)]
pub struct ViewportConfiguration {
    pub mode: ViewportMode,
    pub bounces: usize,
}

impl Default for ViewportConfiguration {
    fn default() -> (r: Self)
        ensures
            r.mode == ViewportMode::DisplayImage,
            r.bounces == 0,
    {
        ViewportConfiguration { mode: ViewportMode::default(), bounces: 0 }
    }
}

impl ViewportConfiguration {
    /// The bounces a viewport with this configuration traces.
    pub open spec fn traced_bounces(&self) -> nat {
        if self.mode == ViewportMode::DisplayImage {
            self.bounces as nat
        } else {
            0
        }
    }

    /// Whether a viewport with this configuration denoises its image.
    pub open spec fn denoises(&self) -> bool {
        self.mode == ViewportMode::DisplayImage && self.bounces > 0
    }

    /// Bounces to trace: the configured number when the image is displayed,
    /// none when normals or the BVH heatmap are, since those show no more
    /// detail with bounces.
    pub fn bounces(&self) -> (r: usize)
        ensures
            r == self.traced_bounces(),
    {
        if self.mode == ViewportMode::DisplayImage {
            self.bounces
        } else {
            0
        }
    }

    /// Whether the final image is denoised: only when the image is displayed
    /// and at least one bounce is traced.
    pub fn apply_denoising(&self) -> (r: bool)
        ensures
            r == self.denoises(),
    {
        self.mode == ViewportMode::DisplayImage && self.bounces > 0
    }
}

/// The final image is denoised exactly when the viewport traces bounces.
pub proof fn law_denoising_iff_bounces_traced(config: ViewportConfiguration)
    ensures
        config.denoises() <==> config.traced_bounces() > 0,
{
}

} // verus!
