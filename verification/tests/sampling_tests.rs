use raytracer::sampling::aa_grid_side;
use raytracer::sampling::indirect_sample_count;

#[test]
fn indirect_samples_quarter_per_bounce() {
    // 64 primary GI samples: 64 >> 2 at the first bounce, 64 >> 4 at the
    // second.
    assert_eq!(indirect_sample_count(64, 0, 2), 16);
    assert_eq!(indirect_sample_count(64, 1, 2), 4);
    assert_eq!(indirect_sample_count(256, 2, 4), 4);
}

#[test]
fn indirect_samples_zero_at_bounce_limit() {
    // At the configured bounce depth no indirect rays are cast at all.
    assert_eq!(indirect_sample_count(64, 2, 2), 0);
    assert_eq!(indirect_sample_count(u32::MAX, 4, 4), 0);
    assert_eq!(indirect_sample_count(64, 7, 2), 0);
    assert_eq!(indirect_sample_count(64, 0, 0), 0);
}

#[test]
fn indirect_samples_floor_to_zero() {
    // A small budget runs out before the bounce limit: the recursion floor.
    assert_eq!(indirect_sample_count(9, 0, 4), 2);
    assert_eq!(indirect_sample_count(9, 1, 4), 0);
    assert_eq!(indirect_sample_count(0, 0, 4), 0);
}

#[test]
fn indirect_samples_never_grow_with_depth() {
    let gi = 1_000_000u32;
    let bounces = 20u32;
    let mut last = u32::MAX;
    for depth in 0..25 {
        let n = indirect_sample_count(gi, depth, bounces);
        assert!(n <= last);
        last = n;
    }
    assert_eq!(last, 0);
}

#[test]
fn aa_grid_side_of_perfect_squares() {
    assert_eq!(aa_grid_side(1), 1);
    assert_eq!(aa_grid_side(4), 2);
    assert_eq!(aa_grid_side(9), 3);
    assert_eq!(aa_grid_side(16), 4);
}

#[test]
fn aa_grid_side_rounds_down() {
    assert_eq!(aa_grid_side(0), 0);
    assert_eq!(aa_grid_side(2), 1);
    assert_eq!(aa_grid_side(10), 3);
    assert_eq!(aa_grid_side(15), 3);
}
