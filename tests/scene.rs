use raytrace::config::ConfigError;
use raytrace::kernel::ImageFilter;
use raytrace::scene::Scene;

fn weighted(acc: i64, p: i64, w: i16, d: i128) -> i64 {
    acc + p * (w as i64) / (d as i64)
}

#[test]
fn scene_checks_its_settings() {
    let s: Scene<u8, i64> = Scene::new(4, 3, 10, 2, 5, 99).unwrap();
    let st = s.settings();
    assert_eq!((st.width, st.height, st.focal_length, st.samples, st.bounces), (4, 3, 10, 2, 5));
    assert_eq!(s.background(), 99);
    assert!(s.entities().is_empty());
    assert_eq!(Scene::<u8, i64>::new(0, 3, 10, 2, 5, 0).err(), Some(ConfigError::EmptyImage));
    assert_eq!(Scene::<u8, i64>::new(4, 3, 10, 0, 5, 0).err(), Some(ConfigError::NoSamples));
}

#[test]
fn scene_keeps_entities_in_order() {
    let mut s: Scene<u8, i64> = Scene::new(1, 1, 1, 1, 1, 0).unwrap();
    s.add_entity(3);
    s.add_entity(1);
    s.add_entity(2);
    assert_eq!(s.entities(), &vec![3, 1, 2]);
}

#[test]
fn trace_pass_samples_every_pixel_by_direction() {
    let s: Scene<u8, (i64, i64, i64)> = Scene::new(3, 2, 7, 1, 1, (0, 0, 0)).unwrap();
    let pass = s.trace_pass(|x: i64, y: i64, z: i64| (x, y, z));
    assert_eq!(
        pass,
        vec![
            vec![(-1, -1, 7), (0, -1, 7), (1, -1, 7)],
            vec![(-1, 0, 7), (0, 0, 7), (1, 0, 7)],
        ]
    );
}

#[test]
fn post_process_applies_filters_in_order() {
    let mut s: Scene<u8, i64> = Scene::new(3, 3, 1, 1, 1, 0).unwrap();
    let g = vec![vec![1, 2, 3], vec![4, 5, 6], vec![7, 8, 9]];
    assert_eq!(s.post_process(g.clone(), 0, &weighted), g);
    // Doubles the centre, then takes the sum of the window.
    s.add_filter(ImageFilter::new(vec![0, 0, 0, 0, 2, 0, 0, 0, 0], false).unwrap());
    s.add_filter(ImageFilter::new(vec![1; 9], false).unwrap());
    let out = s.post_process(g.clone(), 0, &weighted);
    assert_eq!(out[1][1], 1 + 2 + 3 + 4 + 10 + 6 + 7 + 8 + 9);
    assert_eq!(out[0], g[0]);
    // The other order sums first, then doubles.
    let mut t: Scene<u8, i64> = Scene::new(3, 3, 1, 1, 1, 0).unwrap();
    t.add_filter(ImageFilter::new(vec![1; 9], false).unwrap());
    t.add_filter(ImageFilter::new(vec![0, 0, 0, 0, 2, 0, 0, 0, 0], false).unwrap());
    assert_eq!(t.post_process(g.clone(), 0, &weighted)[1][1], 2 * 45);
}
