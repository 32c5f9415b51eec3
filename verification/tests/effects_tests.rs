use collage_maker::effects::{
    clamp_to_half, combine_alpha, write_alpha_mask, corner_center, edge_distance, mask_limits, noise_distance,
    EffectOptions,
};
use collage_maker::layout::Placement;
use std::path::PathBuf;

#[test]
fn none_is_inactive() {
    let o = EffectOptions::none();
    assert_eq!(o.corner_radius, 0);
    assert_eq!(o.border_noise, 0);
    assert!(!o.active());
    assert!(EffectOptions { corner_radius: 3, border_noise: 0 }.active());
    assert!(EffectOptions { corner_radius: 0, border_noise: 1 }.active());
}

#[test]
fn edge_distance_is_nearest_edge() {
    assert_eq!(edge_distance(0, 5, 10, 10), 0);
    assert_eq!(edge_distance(9, 5, 10, 10), 0);
    assert_eq!(edge_distance(4, 5, 10, 10), 4);
    assert_eq!(edge_distance(5, 2, 10, 10), 2);
    assert_eq!(edge_distance(5, 8, 10, 10), 1);
}

#[test]
fn limits_are_half_the_image() {
    assert_eq!(clamp_to_half(50, 40, 100), 20);
    assert_eq!(clamp_to_half(50, 400, 60), 30);
    assert_eq!(clamp_to_half(5, 40, 60), 5);
    assert_eq!(mask_limits(100, 200, 30, 500), (15, 15));
    assert_eq!(mask_limits(3, 4, 30, 500), (3, 4));
}

#[test]
fn corner_centers_by_quadrant() {
    assert_eq!(corner_center(1, 1, 10, 8, 3), Some((3, 3)));
    assert_eq!(corner_center(8, 1, 10, 8, 3), Some((7, 3)));
    assert_eq!(corner_center(1, 6, 10, 8, 3), Some((3, 5)));
    assert_eq!(corner_center(9, 7, 10, 8, 3), Some((7, 5)));
    assert_eq!(corner_center(5, 1, 10, 8, 3), None);
    assert_eq!(corner_center(0, 0, 10, 8, 0), None);
}

#[test]
fn noise_only_inside_band() {
    assert_eq!(noise_distance(1, 5, 20, 20, 4, 10), Some(1));
    assert_eq!(noise_distance(10, 10, 20, 20, 4, 10), None);
    assert_eq!(noise_distance(0, 0, 20, 20, 4, 0), None);
    assert_eq!(noise_distance(0, 0, 20, 20, 0, 9), None);
}

#[test]
fn full_opacity_is_neutral() {
    for a in [0u8, 1, 77, 128, 254, 255] {
        assert_eq!(combine_alpha(a, 255), a);
        assert_eq!(combine_alpha(255, a), a);
    }
    assert_eq!(combine_alpha(128, 128), 64);
    assert_eq!(combine_alpha(0, 200), 0);
}

#[test]
fn placement_area() {
    let p = Placement { path: PathBuf::from("a.jpg"), x: 0, y: 0, w: 10, h: 0 };
    assert!(!p.has_area());
    let q = Placement { path: PathBuf::from("a.jpg"), x: 3, y: 4, w: 10, h: 2 };
    assert!(q.has_area());
}

#[test]
fn alpha_mask_writes_only_alpha() {
    let mut rgba = vec![10, 20, 30, 40, 50, 60, 70, 80];
    write_alpha_mask(&mut rgba, &vec![255, 128], &vec![100, 128]);
    assert_eq!(rgba, vec![10, 20, 30, 100, 50, 60, 70, 64]);
}
