use raytracer::bounce::Bounces;

fn traced_rays(max_depth: u32, hits: &[bool]) -> u32 {
    let mut bounces = Bounces::new(max_depth);
    let mut traced: u32 = 0;
    while bounces.should_trace(true) {
        let hit = hits.get(traced as usize).copied().unwrap_or(true);
        traced += 1;
        bounces.record(hit);
    }
    traced
}

#[test]
fn new_pixel_starts_at_depth_zero() {
    let b = Bounces::new(12);
    assert_eq!(b.depth, 0);
    assert_eq!(b.max_depth, 12);
    assert!(!b.missed);
}

#[test]
fn zero_max_depth_traces_no_ray() {
    let b = Bounces::new(0);
    assert!(!b.should_trace(true));
    assert_eq!(traced_rays(0, &[true, true]), 0);
}

#[test]
fn every_hit_is_followed_up_to_max_depth() {
    assert_eq!(traced_rays(3, &[true, true, true, true, true]), 3);
}

#[test]
fn a_miss_ends_the_pixel() {
    assert_eq!(traced_rays(12, &[true, false, true]), 2);
    let mut b = Bounces::new(5);
    b.record(false);
    assert_eq!(b.depth, 0);
    assert!(b.missed);
    assert!(!b.should_trace(true));
}

#[test]
fn zero_reflection_weight_stops_tracing() {
    let mut b = Bounces::new(5);
    b.record(true);
    assert_eq!(b.depth, 1);
    assert!(b.should_trace(true));
    assert!(!b.should_trace(false));
}
