use raytracer::{channel_byte, nearest_hit};

#[test]
fn channel_bytes_saturate() {
    assert_eq!(channel_byte(0), 0);
    assert_eq!(channel_byte(128), 128);
    assert_eq!(channel_byte(255), 255);
    assert_eq!(channel_byte(256), 255);
    assert_eq!(channel_byte(300), 255);
}

#[test]
fn nearest_hit_prefers_the_first_of_equals() {
    assert_eq!(nearest_hit(&vec![None, Some(5), Some(3), Some(3)]), Some(2));
    assert_eq!(nearest_hit(&vec![Some(7), None, Some(9)]), Some(0));
    assert_eq!(nearest_hit(&vec![Some(4), Some(4)]), Some(0));
}

#[test]
fn nearest_hit_of_no_hits() {
    assert_eq!(nearest_hit(&vec![]), None);
    assert_eq!(nearest_hit(&vec![None, None]), None);
}
