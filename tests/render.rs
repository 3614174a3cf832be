use raytrace::camera::pixel_direction;
use raytrace::config::{ConfigError, RenderSettings, Shape};
use raytrace::pixels::to_pixel_map;
use raytrace::progress::{FrameAction, FrameEvent, Progress};
use raytrace::samples::SampleBuffer;

#[test]
fn sample_buffer_starts_empty() {
    let b: SampleBuffer<i32> = SampleBuffer::new(3, 2);
    assert_eq!(b.width(), 3);
    assert_eq!(b.height(), 2);
    assert_eq!(b.passes(), 0);
    assert!(b.samples(1, 2).is_empty());
}

#[test]
fn sample_buffer_grows_one_per_pass() {
    let mut b: SampleBuffer<i32> = SampleBuffer::new(2, 2);
    b.push_pass(&vec![vec![1, 2], vec![3, 4]]);
    b.push_pass(&vec![vec![5, 6], vec![7, 8]]);
    assert_eq!(b.passes(), 2);
    assert_eq!(b.samples(0, 0), &vec![1, 5]);
    assert_eq!(b.samples(0, 1), &vec![2, 6]);
    assert_eq!(b.samples(1, 0), &vec![3, 7]);
    assert_eq!(b.samples(1, 1), &vec![4, 8]);
}

#[test]
fn average_of_identical_samples_is_the_sample() {
    let mut b: SampleBuffer<i64> = SampleBuffer::new(1, 1);
    for _ in 0..3 {
        b.push_pass(&vec![vec![42]]);
    }
    let s = b.samples(0, 0);
    assert_eq!(s.iter().sum::<i64>() / s.len() as i64, 42);
}

#[test]
fn pixel_map_packs_rgba_rows() {
    let colors = vec![vec![(1, 2, 3), (4, 5, 6)], vec![(7, 8, 9), (10, 11, 12)]];
    assert_eq!(
        to_pixel_map(&colors),
        vec![1, 2, 3, 255, 4, 5, 6, 255, 7, 8, 9, 255, 10, 11, 12, 255]
    );
    assert_eq!(to_pixel_map(&vec![]), Vec::<u8>::new());
    assert_eq!(to_pixel_map(&vec![vec![(0, 0, 0)]]).len(), 4);
}

#[test]
fn camera_directions_from_centre() {
    assert_eq!(pixel_direction(0, 0, 4, 3, 10), (-2, -1, 10));
    assert_eq!(pixel_direction(2, 1, 4, 3, 10), (0, 0, 10));
    assert_eq!(pixel_direction(3, 2, 4, 3, 7), (1, 1, 7));
    assert_eq!(pixel_direction(0, 0, 1, 1, 5), (0, 0, 5));
    assert_eq!(pixel_direction(u32::MAX - 1, 0, u32::MAX, 1, 1), ((u32::MAX / 2) as i64, 0, 1));
}

#[test]
fn settings_checked_at_construction() {
    let s = RenderSettings::new(4, 3, 10, 2, 5).unwrap();
    assert_eq!((s.width, s.height, s.focal_length, s.samples, s.bounces), (4, 3, 10, 2, 5));
    assert_eq!(RenderSettings::new(0, 3, 10, 2, 5).err(), Some(ConfigError::EmptyImage));
    assert_eq!(RenderSettings::new(4, 0, 10, 2, 5).err(), Some(ConfigError::EmptyImage));
    assert_eq!(RenderSettings::new(4, 3, 10, 0, 5).err(), Some(ConfigError::NoSamples));
    assert_eq!(RenderSettings::new(0, 0, 10, 0, 5).err(), Some(ConfigError::EmptyImage));
    assert!(RenderSettings::new(1, 1, 0, 1, 0).is_ok());
}

#[test]
fn only_spheres_are_supported() {
    assert_eq!(Shape::Sphere.require_supported(), Ok(()));
    assert_eq!(Shape::Cube.require_supported(), Err(ConfigError::UnsupportedShape));
}

#[test]
fn progress_makes_exactly_the_asked_passes() {
    let mut p = Progress::new(2);
    assert_eq!(p.on_event(FrameEvent::Frame), FrameAction::TracePass(0));
    assert_eq!(p.on_event(FrameEvent::Frame), FrameAction::TracePass(1));
    assert_eq!(p.passes(), 2);
    assert!(!p.is_stopped());
    assert_eq!(p.on_event(FrameEvent::Frame), FrameAction::Stop);
    assert!(p.is_stopped());
    assert_eq!(p.on_event(FrameEvent::Frame), FrameAction::Stop);
    assert_eq!(p.passes(), 2);
}

#[test]
fn progress_stops_on_cancel() {
    let mut p = Progress::new(5);
    assert_eq!(p.on_event(FrameEvent::Frame), FrameAction::TracePass(0));
    assert_eq!(p.on_event(FrameEvent::Cancel), FrameAction::Stop);
    assert!(p.is_stopped());
    assert_eq!(p.on_event(FrameEvent::Frame), FrameAction::Stop);
    assert_eq!(p.passes(), 1);
    let mut none = Progress::new(0);
    assert_eq!(none.on_event(FrameEvent::Frame), FrameAction::Stop);
}
