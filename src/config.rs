use vstd::prelude::*;

verus! {

/// Why a scene, kernel or entity description was refused at construction.
#[derive(Debug, Clone, Copy, PartialEq, Eq, Structural)]
pub enum ConfigError {
    /// The image has no columns or no rows.
    EmptyImage,
    /// No sample pass was asked for.
    NoSamples,
    /// A kernel was given no weights.
    EmptyKernel,
    /// A kernel's weight count is not the square of a whole number.
    KernelNotSquare,
    /// A kernel's side is even, so its window has no centre.
    EvenKernelSide,
    /// A sphere was given a radius that is not positive.
    NonPositiveRadius,
    /// A shape other than a sphere was asked for.
    UnsupportedShape,
}

/// The kinds of solid a scene may be asked to hold.
#[derive(Debug, Clone, Copy, PartialEq, Eq, Structural)]
pub enum Shape {
    Sphere,
    Cube,
}

impl Shape {
    /// Accepts the shapes that can be traced: spheres alone.
    pub fn require_supported(self) -> (r: Result<(), ConfigError>)
        ensures
            r is Ok <==> self == Shape::Sphere,
            r is Err ==> r == Err::<(), ConfigError>(ConfigError::UnsupportedShape),
    {
        match self {
            Shape::Sphere => Ok(()),
            Shape::Cube => Err(ConfigError::UnsupportedShape),
        }
    }
}

/// Why settings with this image size and pass count are refused, if they are.
pub open spec fn settings_error(width: u32, height: u32, samples: u32) -> Option<ConfigError> {
    if width == 0 || height == 0 {
        Some(ConfigError::EmptyImage)
    } else if samples == 0 {
        Some(ConfigError::NoSamples)
    } else {
        None
    }
}

/// The whole-number settings of a render: image size, focal length, the
/// number of sample passes and the bounce limit of each ray.
#[derive(Debug, Clone, Copy, PartialEq, Eq, Structural)]
pub struct RenderSettings {
    pub width: u32,
    pub height: u32,
    pub focal_length: u32,
    pub samples: u32,
    pub bounces: u32,
}

impl RenderSettings {
    /// Checks and gathers the settings: the image needs at least one row and
    /// one column, and at least one pass must be asked for.
    pub fn new(width: u32, height: u32, focal_length: u32, samples: u32, bounces: u32) -> (r:
        Result<RenderSettings, ConfigError>)
        ensures
            (width == 0 || height == 0) <==> r == Err::<RenderSettings, ConfigError>(
                ConfigError::EmptyImage,
            ),
            (width > 0 && height > 0 && samples == 0) <==> r == Err::<RenderSettings, ConfigError>(
                ConfigError::NoSamples,
            ),
            r is Ok <==> width > 0 && height > 0 && samples > 0,
            r matches Err(e) ==> settings_error(width, height, samples) == Some(e),
            r matches Ok(s) ==> s == (RenderSettings { width, height, focal_length, samples, bounces }),
    {
        if width == 0 || height == 0 {
            Err(ConfigError::EmptyImage)
        } else if samples == 0 {
            Err(ConfigError::NoSamples)
        } else {
            Ok(RenderSettings { width, height, focal_length, samples, bounces })
        }
    }
}

} // verus!
