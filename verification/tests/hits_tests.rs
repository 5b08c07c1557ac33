use nitroray::hits::nearest_hit;
use nitroray::texture::texel_coordinate;
use nitroray::trace::{continues_tracing, MAX_RAY_DEPTH};

#[test]
fn nearest_hit_of_misses_is_none() {
    assert_eq!(nearest_hit(&vec![]), None);
    assert_eq!(nearest_hit(&vec![None, None]), None);
}

#[test]
fn nearest_hit_takes_smallest_key() {
    assert_eq!(nearest_hit(&vec![None, Some(50), Some(7), None, Some(9)]), Some(2));
}

#[test]
fn nearest_hit_keeps_first_of_equal_keys() {
    assert_eq!(nearest_hit(&vec![Some(8), Some(3), Some(3)]), Some(1));
}

#[test]
fn texel_coordinate_clamps_to_last_texel() {
    assert_eq!(texel_coordinate(5, 10), 5);
    assert_eq!(texel_coordinate(10, 10), 9);
    assert_eq!(texel_coordinate(u32::MAX, 3), 2);
    assert_eq!(texel_coordinate(0, 1), 0);
}

#[test]
fn tracing_stops_below_maximum_depth() {
    assert!(continues_tracing(0));
    assert!(continues_tracing(MAX_RAY_DEPTH));
    assert!(!continues_tracing(MAX_RAY_DEPTH + 1));
}
