//! What a rendering run is asked to do.

use std::path::PathBuf;
use vstd::prelude::*;

verus! {

/// `std::path::PathBuf`, carried through as it comes: nothing is said of what
/// a path holds.
#[verifier::external_type_specification]
#[verifier::external_body]
pub struct ExPathBuf(PathBuf);

/// The smallest dimension that a configuration may ask for.
pub const MIN_DIMENSION: u16 = 128;

/// The largest dimension that a configuration may ask for.
pub const MAX_DIMENSION: u16 = 4096;

/// A dimension is accepted if it lies between `MIN_DIMENSION` and
/// `MAX_DIMENSION`, both included.
pub open spec fn accepted_dimension(dimension: u16) -> bool {
    MIN_DIMENSION <= dimension <= MAX_DIMENSION
}

/// Why a configuration is refused.
#[derive(Debug, Clone, Copy, PartialEq, Eq)]
pub enum ConfigError {
    /// The dimension lies outside the accepted range.
    InvalidDimension {
        /// The dimension that was asked for.
        dimension: u16,
    },
}

/// Ulam spiral image configuration.
pub struct Config {
    /// The dimension of the Ulam spiral.
    pub dimension: u16,
    /// The path to the output image file. Its extension selects the image
    /// format.
    pub output_file: PathBuf,
}

impl Config {
    /// Creates a new `Config` instance.
    pub fn new(dimension: u16, output_file: PathBuf) -> (config: Config)
        ensures
            config.dimension == dimension,
            config.output_file == output_file,
    {
        Config { dimension, output_file }
    }

    /// Accepts the configuration if its dimension lies in the accepted range
    /// and refuses it, naming the dimension, if not.
    pub fn validate(&self) -> (result: Result<(), ConfigError>)
        ensures
            accepted_dimension(self.dimension) ==> result == Ok::<(), ConfigError>(()),
            !accepted_dimension(self.dimension) ==> result == Err::<(), ConfigError>(
                ConfigError::InvalidDimension { dimension: self.dimension },
            ),
    {
        if self.dimension < MIN_DIMENSION || self.dimension > MAX_DIMENSION {
            Err(ConfigError::InvalidDimension { dimension: self.dimension })
        } else {
            Ok(())
        }
    }
}

} // verus!
