//! The render parameters, and their check before any work starts.
use vstd::prelude::*;

verus! {

/// The parameters of a render.
#[derive(Clone, Copy, Debug)]
pub struct RenderConfig {
    pub width: u32,
    pub height: u32,
    pub samples_per_pixel: u32,
    pub max_depth: u32,
}

/// Why a render cannot start.
#[derive(Clone, Copy, Debug, PartialEq, Eq, Structural)]
pub enum ConfigError {
    /// The scene has no surface.
    EmptyScene,
    /// The image has no column or no row.
    EmptyImage,
    /// No sample is taken per pixel.
    NoSamples,
    /// The image has more pixels than memory can index.
    TooLarge,
}

/// The error a configuration gets, checked in this order, if any.
pub open spec fn config_error(c: RenderConfig, scene_len: nat) -> Option<ConfigError> {
    if scene_len == 0 {
        Some(ConfigError::EmptyScene)
    } else if c.width == 0 || c.height == 0 {
        Some(ConfigError::EmptyImage)
    } else if c.samples_per_pixel == 0 {
        Some(ConfigError::NoSamples)
    } else if c.width * c.height > usize::MAX {
        Some(ConfigError::TooLarge)
    } else {
        None
    }
}

impl RenderConfig {
    pub fn new(width: u32, height: u32, samples_per_pixel: u32, max_depth: u32) -> (r:
        RenderConfig)
        ensures
            r.width == width,
            r.height == height,
            r.samples_per_pixel == samples_per_pixel,
            r.max_depth == max_depth,
    {
        RenderConfig { width, height, samples_per_pixel, max_depth }
    }

    /// Checks the configuration against a scene of `scene_len` surfaces: the
    /// scene and the image must not be empty, at least one sample must be
    /// taken, and the pixel count must fit in memory.
    pub fn validate(&self, scene_len: usize) -> (r: Result<(), ConfigError>)
        ensures
            r is Ok <==> config_error(*self, scene_len as nat) is None,
            r matches Err(e) ==> config_error(*self, scene_len as nat) == Some(e),
            r is Ok ==> scene_len > 0 && self.width * self.height <= usize::MAX,
    {
        if scene_len == 0 {
            Err(ConfigError::EmptyScene)
        } else if self.width == 0 || self.height == 0 {
            Err(ConfigError::EmptyImage)
        } else if self.samples_per_pixel == 0 {
            Err(ConfigError::NoSamples)
        } else if (self.height as usize) > usize::MAX / (self.width as usize) {
            proof {
                let w = self.width as int;
                let h = self.height as int;
                let m = usize::MAX as int;
                assert(h > m / w);
                assert(h * w > m) by (nonlinear_arith)
                    requires
                        h > m / w,
                        w > 0,
                ;
                assert(w * h == h * w) by (nonlinear_arith);
            }
            Err(ConfigError::TooLarge)
        } else {
            proof {
                let w = self.width as int;
                let h = self.height as int;
                let m = usize::MAX as int;
                assert(h * w <= m) by (nonlinear_arith)
                    requires
                        h <= m / w,
                        w > 0,
                ;
                assert(w * h == h * w) by (nonlinear_arith);
            }
            Ok(())
        }
    }
}

} // verus!
