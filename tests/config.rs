use raytracer::config::{ConfigError, RenderConfig};

#[test]
fn valid_configuration_passes() {
    assert_eq!(RenderConfig::new(600, 400, 20, 50).validate(3), Ok(()));
    assert_eq!(RenderConfig::new(1, 1, 1, 0).validate(1), Ok(()));
}

#[test]
fn empty_scene_is_rejected_first() {
    assert_eq!(RenderConfig::new(600, 400, 20, 50).validate(0), Err(ConfigError::EmptyScene));
    assert_eq!(RenderConfig::new(0, 0, 0, 50).validate(0), Err(ConfigError::EmptyScene));
}

#[test]
fn empty_image_is_rejected() {
    assert_eq!(RenderConfig::new(0, 400, 20, 50).validate(1), Err(ConfigError::EmptyImage));
    assert_eq!(RenderConfig::new(600, 0, 0, 50).validate(1), Err(ConfigError::EmptyImage));
}

#[test]
fn zero_samples_are_rejected() {
    assert_eq!(RenderConfig::new(600, 400, 0, 50).validate(1), Err(ConfigError::NoSamples));
}

#[test]
fn largest_image_fits_on_64_bit() {
    let r = RenderConfig::new(u32::MAX, u32::MAX, 1, 1).validate(1);
    if usize::BITS >= 64 {
        assert_eq!(r, Ok(()));
    } else {
        assert_eq!(r, Err(ConfigError::TooLarge));
    }
}
