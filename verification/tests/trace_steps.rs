use raytracer::trace::{next_path_step, PathEvent, PathStep};

#[test]
fn exhausted_depth_returns_background() {
    assert_eq!(next_path_step(0, PathEvent::Miss), PathStep::ReturnBackground);
    assert_eq!(next_path_step(0, PathEvent::HitScattered), PathStep::ReturnBackground);
    assert_eq!(next_path_step(0, PathEvent::HitAbsorbed), PathStep::ReturnBackground);
}

#[test]
fn miss_returns_background_at_any_depth() {
    // In a scene where nothing can be hit, every sample at every depth keeps
    // the background color.
    for depth in [1usize, 2, 10, 100] {
        assert_eq!(next_path_step(depth, PathEvent::Miss), PathStep::ReturnBackground);
    }
}

#[test]
fn scattering_hit_goes_one_level_deeper() {
    assert_eq!(
        next_path_step(50, PathEvent::HitScattered),
        PathStep::Recurse { remaining: 49 }
    );
    assert_eq!(
        next_path_step(1, PathEvent::HitScattered),
        PathStep::Recurse { remaining: 0 }
    );
}

#[test]
fn absorbing_hit_returns_emitted_radiance_only() {
    assert_eq!(next_path_step(3, PathEvent::HitAbsorbed), PathStep::ReturnEmitted);
}
