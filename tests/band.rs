use raytracer::{band_bounds, band_of_image_row};

#[test]
fn bands_of_an_evenly_divided_image() {
    assert_eq!(band_bounds(800, 8, 0), (-400, -300));
    assert_eq!(band_bounds(800, 8, 3), (-100, 0));
    assert_eq!(band_bounds(800, 8, 7), (300, 400));
}

#[test]
fn last_band_takes_the_remainder_rows() {
    assert_eq!(band_bounds(10, 3, 0), (-5, -2));
    assert_eq!(band_bounds(10, 3, 1), (-2, 1));
    assert_eq!(band_bounds(10, 3, 2), (1, 5));
}

#[test]
fn odd_height_is_covered() {
    assert_eq!(band_bounds(5, 2, 0), (-2, 0));
    assert_eq!(band_bounds(5, 2, 1), (0, 3));
    assert_eq!(band_bounds(5, 1, 0), (-2, 3));
}

#[test]
fn more_workers_than_rows() {
    assert_eq!(band_bounds(2, 4, 0), (-1, -1));
    assert_eq!(band_bounds(2, 4, 2), (-1, -1));
    assert_eq!(band_bounds(2, 4, 3), (-1, 1));
    assert_eq!(band_of_image_row(2, 4, 0), 3);
    assert_eq!(band_of_image_row(2, 4, 1), 3);
}

#[test]
fn image_rows_belong_to_the_band_that_renders_them() {
    // Image row 0 is the top of the picture, which the highest band renders.
    assert_eq!(band_of_image_row(10, 3, 0), 2);
    assert_eq!(band_of_image_row(10, 3, 3), 2);
    assert_eq!(band_of_image_row(10, 3, 4), 1);
    assert_eq!(band_of_image_row(10, 3, 6), 1);
    assert_eq!(band_of_image_row(10, 3, 7), 0);
    assert_eq!(band_of_image_row(10, 3, 9), 0);
    for vres in 1..30u32 {
        for workers in 1..8u32 {
            for row in 0..vres {
                let b = band_of_image_row(vres, workers, row);
                let (low, high) = band_bounds(vres, workers, b);
                let y = (vres - vres / 2) as i64 - 1 - row as i64;
                assert!(low <= y && y < high);
            }
        }
    }
}
