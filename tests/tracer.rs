use raytrace::tracer::{resolve, trace};

fn hits_below(limit: i64) -> impl Fn(i64) -> Option<i64> {
    move |r: i64| if r < limit { Some(r) } else { None }
}

#[test]
fn trace_without_bounces_is_background() {
    for ray in [-3i64, 0, 5, 100] {
        let c = trace(ray, 0, 7i64, hits_below(1000), |r: i64| r * 2, |r: i64, _h: i64| r + 1, |h: i64, c: i64| h + c);
        assert_eq!(c, 7);
    }
}

#[test]
fn trace_miss_sees_sky() {
    let c = trace(4i64, 3, 7i64, hits_below(0), |r: i64| 1000 + r, |r: i64, _h: i64| r + 1, |h: i64, c: i64| h + c);
    assert_eq!(c, 1004);
}

#[test]
fn trace_shades_back_along_path() {
    let shade = |h: i64, c: i64| h * 10 + c;
    let next = |r: i64, _h: i64| r + 1;
    // Hits at 0, 1, 2, then the ray at 3 strikes nothing and sees the sky.
    let c = trace(0i64, 5, -1i64, hits_below(3), |_r: i64| 1000, next, shade);
    assert_eq!(c, 1000 + 20 + 10);
    // Two bounces run out before the miss: the path ends in the background.
    let c = trace(0i64, 2, 500i64, hits_below(3), |_r: i64| 1000, next, shade);
    assert_eq!(c, 500 + 10);
}

#[test]
fn trace_halving_reflectivity_decays() {
    // A surface that emits nothing and reflects half of what it receives.
    let shade = |_h: i64, c: i64| c / 2;
    let mut last = i64::MAX;
    for bounces in 1..6u32 {
        let c = trace(0i64, bounces, 1024i64, hits_below(i64::MAX), |_r: i64| 0, |r: i64, _h: i64| r, shade);
        assert_eq!(c, 1024 >> bounces);
        assert!(c < last);
        last = c;
    }
}

#[test]
fn resolve_picks_strictly_nearer_hit() {
    // Entities are (distance along the ray, id); a negative distance misses.
    let entities = vec![(9i64, 1u32), (4, 2), (-1, 3), (6, 4)];
    let hit = |e: (i64, u32), _ray: u8| if e.0 >= 0 { Some(e) } else { None };
    let closer = |a: (i64, u32), b: (i64, u32)| a.0 < b.0;
    assert_eq!(resolve(0u8, &entities, hit, closer), Some((4, 2)));
    let two = vec![(5i64, 7u32), (3, 8)];
    assert_eq!(resolve(0u8, &two, hit, closer), Some((3, 8)));
    let two_rev = vec![(3i64, 8u32), (5, 7)];
    assert_eq!(resolve(0u8, &two_rev, hit, closer), Some((3, 8)));
}

#[test]
fn resolve_none_when_nothing_hit() {
    let hit = |e: (i64, u32), _ray: u8| if e.0 >= 0 { Some(e) } else { None };
    let closer = |a: (i64, u32), b: (i64, u32)| a.0 < b.0;
    assert_eq!(resolve(0u8, &vec![(-2i64, 1u32), (-5, 2)], hit, closer), None);
    assert_eq!(resolve(0u8, &Vec::new(), hit, closer), None);
}

#[test]
fn resolve_keeps_first_of_equal_hits() {
    let hit = |e: (i64, u32), _ray: u8| Some(e);
    let closer = |a: (i64, u32), b: (i64, u32)| a.0 < b.0;
    assert_eq!(resolve(0u8, &vec![(2i64, 1u32), (2, 2)], hit, closer), Some((2, 1)));
}

#[test]
fn empty_scene_sees_only_sky() {
    let nothing: Vec<(i64, u32)> = Vec::new();
    let hit = |r: i64| resolve(r, &nothing, |e: (i64, u32), _r: i64| Some(e), |a: (i64, u32), b: (i64, u32)| a.0 < b.0);
    for ray in [-4i64, 0, 9] {
        for bounces in 1..4u32 {
            let c = trace(ray, bounces, -1i64, hit, |r: i64| 300 + r, |r: i64, _h: (i64, u32)| r, |_h: (i64, u32), c: i64| c);
            assert_eq!(c, 300 + ray);
        }
    }
}
