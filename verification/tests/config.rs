use std::path::PathBuf;
use ulam_spiral::{Config, ConfigError, MAX_DIMENSION, MIN_DIMENSION};

#[test]
fn new_keeps_dimension_and_output_file() {
    let config = Config::new(256, PathBuf::from("output.png"));
    assert_eq!(config.dimension, 256);
    assert_eq!(config.output_file, PathBuf::from("output.png"));
}

#[test]
fn accepted_range_is_128_to_4096() {
    assert_eq!(MIN_DIMENSION, 128);
    assert_eq!(MAX_DIMENSION, 4096);
}

#[test]
fn dimension_just_below_the_range_is_rejected() {
    let config = Config::new(127, PathBuf::from("ulam.png"));
    assert_eq!(config.validate(), Err(ConfigError::InvalidDimension { dimension: 127 }));
}

#[test]
fn dimension_just_above_the_range_is_rejected() {
    let config = Config::new(4097, PathBuf::from("ulam.png"));
    assert_eq!(config.validate(), Err(ConfigError::InvalidDimension { dimension: 4097 }));
}

#[test]
fn smallest_dimension_is_accepted() {
    let config = Config::new(128, PathBuf::from("ulam.png"));
    assert_eq!(config.validate(), Ok(()));
}

#[test]
fn largest_dimension_is_accepted() {
    let config = Config::new(4096, PathBuf::from("ulam.png"));
    assert_eq!(config.validate(), Ok(()));
}

#[test]
fn default_dimension_is_accepted() {
    let config = Config::new(256, PathBuf::from("ulam.png"));
    assert_eq!(config.validate(), Ok(()));
}

#[test]
fn extreme_dimensions_are_rejected() {
    let none = Config::new(0, PathBuf::from("ulam.png"));
    assert_eq!(none.validate(), Err(ConfigError::InvalidDimension { dimension: 0 }));
    let most = Config::new(u16::MAX, PathBuf::from("ulam.png"));
    assert_eq!(most.validate(), Err(ConfigError::InvalidDimension { dimension: u16::MAX }));
}

#[test]
fn validation_leaves_the_configuration_as_it_was() {
    let config = Config::new(512, PathBuf::from("spiral.png"));
    assert!(config.validate().is_ok());
    assert_eq!(config.dimension, 512);
    assert_eq!(config.output_file, PathBuf::from("spiral.png"));
}
