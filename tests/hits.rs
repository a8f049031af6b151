use raytracer::hits::{all_positive_intersections, is_blocked, nearest_hit};

fn key(distance: f32) -> Option<u32> {
    if distance > 0.0 && distance.is_finite() {
        Some(distance.to_bits())
    } else {
        None
    }
}

#[test]
fn nearest_hit_of_no_objects_is_none() {
    assert_eq!(nearest_hit(&vec![]), None);
}

#[test]
fn nearest_hit_when_every_object_is_missed() {
    assert_eq!(nearest_hit(&vec![None, None, None]), None);
}

#[test]
fn nearest_hit_picks_smallest_key() {
    assert_eq!(nearest_hit(&vec![Some(9), None, Some(4), Some(6)]), Some(2));
}

#[test]
fn nearest_hit_of_two_in_either_order() {
    let near = key(2.5);
    let far = key(7.0);
    assert_eq!(nearest_hit(&vec![near, far]), Some(0));
    assert_eq!(nearest_hit(&vec![far, near]), Some(1));
}

#[test]
fn nearest_hit_breaks_ties_by_first_object() {
    assert_eq!(nearest_hit(&vec![None, Some(5), Some(3), Some(3)]), Some(2));
}

#[test]
fn nearest_hit_ignores_misses_behind_or_parallel() {
    let keys = vec![key(-1.0), key(f32::INFINITY), key(0.0), key(3.0)];
    assert_eq!(nearest_hit(&keys), Some(3));
}

#[test]
fn float_keys_order_as_distances() {
    let distances = [0.001f32, 0.5, 1.0, 1.5, 1000.0, 3.4e38];
    for pair in distances.windows(2) {
        assert!(key(pair[0]).unwrap() < key(pair[1]).unwrap());
    }
}

#[test]
fn intersections_come_sorted_without_misses() {
    let keys = vec![Some(7), None, Some(2), Some(7), Some(1), None];
    assert_eq!(all_positive_intersections(&keys), vec![1, 2, 7, 7]);
}

#[test]
fn intersections_of_all_misses_are_empty() {
    assert_eq!(all_positive_intersections(&vec![None, None]), Vec::<u32>::new());
}

#[test]
fn occluder_before_light_blocks_it() {
    let keys = vec![key(10.0), key(1.5)];
    assert!(is_blocked(&keys, 4.0f32.to_bits()));
}

#[test]
fn objects_beyond_light_do_not_block() {
    let keys = vec![key(10.0), None, key(4.0)];
    assert!(!is_blocked(&keys, 4.0f32.to_bits()));
}

#[test]
fn nothing_blocks_an_empty_scene() {
    assert!(!is_blocked(&vec![], u32::MAX));
}
