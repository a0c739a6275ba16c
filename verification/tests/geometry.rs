use arbor::geom::{dist2_i64, isqrt, scale_away_i64};
use arbor::angle::{square_point_i64, base_dir_i64, pow19_scaled_i64, dir_offset_i64};
use arbor::rng::Rng;

#[test]
fn squared_distances() {
    assert_eq!(dist2_i64(0, 0, 3, 4), 25);
    assert_eq!(dist2_i64(-3, -4, 0, 0), 25);
    assert_eq!(dist2_i64(7, 7, 7, 7), 0);
    assert_eq!(dist2_i64(-5, 2, 5, 2), 100);
}

#[test]
fn integer_square_roots() {
    assert_eq!(isqrt(0), 0);
    assert_eq!(isqrt(1), 1);
    assert_eq!(isqrt(3), 1);
    assert_eq!(isqrt(4), 2);
    assert_eq!(isqrt(80), 8);
    assert_eq!(isqrt(81), 9);
    assert_eq!(isqrt(2 * 8192 * 8192), 11585);
    assert_eq!(isqrt(u64::MAX), 4294967295);
}

#[test]
fn scaling_rounds_away_from_zero() {
    // 7 * 10 / 3 = 23.3..., rounded up to 24; sign carried through
    assert_eq!(scale_away_i64(3, 10, 3), 10);
    assert_eq!(scale_away_i64(-3, 10, 3), -10);
    assert_eq!(scale_away_i64(1, 10, 3), 4);
    assert_eq!(scale_away_i64(-1, 10, 3), -4);
    assert_eq!(scale_away_i64(0, 10, 3), 0);
}

#[test]
fn square_points_on_axes() {
    assert_eq!(square_point_i64(0), (8192, 0));
    assert_eq!(square_point_i64(16384), (0, 8192));
    assert_eq!(square_point_i64(32768), (-8192, 0));
    assert_eq!(square_point_i64(49152), (0, -8192));
    assert_eq!(square_point_i64(8192), (8192, 8192));
}

#[test]
fn directions_of_axis_vectors() {
    assert_eq!(base_dir_i64(1, 0), 0);
    assert_eq!(base_dir_i64(0, 1), 16384);
    assert_eq!(base_dir_i64(-1, 0), 32768);
    assert_eq!(base_dir_i64(0, -1), 49152);
    assert_eq!(base_dir_i64(1, 1), 8192);
    assert_eq!(base_dir_i64(1, -1), 57344);
    assert_eq!(base_dir_i64(0, 0), 0);
}

#[test]
fn direction_round_trip_on_axes() {
    // walking a unit in a named axis direction and asking for the
    // direction of the walk gives the same direction back
    for d in [0u64, 16384, 32768, 49152] {
        let (ox, oy) = dir_offset_i64(d, 100);
        assert_eq!(base_dir_i64(ox, oy), d);
    }
}

#[test]
fn power_law_shaping_values() {
    // the odd power law keeps the endpoints and crushes the middle
    assert_eq!(pow19_scaled_i64(32768), 32768);
    assert_eq!(pow19_scaled_i64(-32768), -32768);
    assert_eq!(pow19_scaled_i64(0), 0);
    assert_eq!(pow19_scaled_i64(16384), 0);
    assert_eq!(pow19_scaled_i64(-16384), 0);
}

#[test]
fn offsets_never_fall_short() {
    // the displacement is at least as long as asked, on every direction
    for d in 0..512u64 {
        let dir = d * 128;
        let (ox, oy) = dir_offset_i64(dir, 17);
        assert!(ox * ox + oy * oy >= 17 * 17, "direction {}", dir);
        assert!(ox.abs() <= 17 && oy.abs() <= 17);
    }
}

#[test]
fn axis_offsets_are_exact() {
    assert_eq!(dir_offset_i64(0, 2), (2, 0));
    assert_eq!(dir_offset_i64(16384, 2), (0, 2));
    assert_eq!(dir_offset_i64(32768, 9), (-9, 0));
    assert_eq!(dir_offset_i64(49152, 9), (0, -9));
    assert_eq!(dir_offset_i64(8192, 10), (8, 8));
}

#[test]
fn rng_sequence_is_the_xorshift_one() {
    let mut r = Rng::new(1);
    assert_eq!(r.next(), 1082269761);
    assert_eq!(r.next(), 1152992998833853505);
    assert_eq!(r.next(), 11177516664432764457);
}

#[test]
fn rng_zero_seed_falls_back() {
    let mut a = Rng::new(0);
    let first = a.next();
    assert_ne!(first, 0);
    assert_eq!(first, 15860402102123842989);
}

#[test]
fn rng_same_seed_same_stream() {
    let mut a = Rng::new(99);
    let mut b = Rng::new(99);
    for _ in 0..100 {
        assert_eq!(a.next(), b.next());
    }
}
