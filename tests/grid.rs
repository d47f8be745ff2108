use raytracer::{isqrt, ViewGrid};

#[test]
fn isqrt_of_squares_and_neighbours() {
    assert_eq!(isqrt(0), 0);
    assert_eq!(isqrt(1), 1);
    assert_eq!(isqrt(2), 1);
    assert_eq!(isqrt(3), 1);
    assert_eq!(isqrt(4), 2);
    assert_eq!(isqrt(48), 6);
    assert_eq!(isqrt(49), 7);
    assert_eq!(isqrt(50), 7);
    assert_eq!(isqrt(64), 8);
    assert_eq!(isqrt(u32::MAX), 65535);
}

#[test]
fn grid_accepts_square_sample_counts() {
    let g = ViewGrid::new(800, 600, 64).unwrap();
    assert_eq!(g.hres(), 800);
    assert_eq!(g.vres(), 600);
    assert_eq!(g.samples(), 64);
    assert_eq!(g.side(), 8);
    assert_eq!(ViewGrid::new(1, 1, 1).unwrap().side(), 1);
}

#[test]
fn grid_rejects_non_square_sample_counts() {
    assert!(ViewGrid::new(800, 800, 50).is_none());
    assert!(ViewGrid::new(800, 800, 2).is_none());
    assert!(ViewGrid::new(800, 800, 0).is_none());
}
