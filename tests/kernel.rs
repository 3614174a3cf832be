use raytrace::config::ConfigError;
use raytrace::kernel::{ImageFilter, Kernel};

fn weighted(acc: i64, p: i64, w: i16, d: i128) -> i64 {
    acc + p * (w as i64) / (d as i64)
}

fn grid(rows: usize, cols: usize) -> Vec<Vec<i64>> {
    (0..rows)
        .map(|y| (0..cols).map(|x| (y * 10 + x) as i64 * 9).collect())
        .collect()
}

#[test]
fn kernel_sides_from_weight_count() {
    let k = Kernel::new(vec![0; 9], false).unwrap();
    assert_eq!(k.shape(), 3);
    assert_eq!(*k.range().start(), -1);
    assert_eq!(*k.range().end(), 1);
    let one = Kernel::new(vec![5], true).unwrap();
    assert_eq!(one.shape(), 1);
    assert_eq!(*one.range().start(), 0);
    assert!(one.normalize());
    let big = Kernel::new(vec![1; 25], false).unwrap();
    assert_eq!(big.shape(), 5);
    assert_eq!(*big.range().end(), 2);
}

#[test]
fn kernel_refuses_bad_weights() {
    assert_eq!(Kernel::new(vec![], false).err(), Some(ConfigError::EmptyKernel));
    assert_eq!(Kernel::new(vec![0; 8], false).err(), Some(ConfigError::KernelNotSquare));
    assert_eq!(Kernel::new(vec![0; 2], false).err(), Some(ConfigError::KernelNotSquare));
    assert_eq!(Kernel::new(vec![0; 4], false).err(), Some(ConfigError::EvenKernelSide));
    assert_eq!(Kernel::new(vec![0; 16], true).err(), Some(ConfigError::EvenKernelSide));
}

#[test]
fn kernel_get_data_offsets() {
    let k = Kernel::new((0..9).collect(), false).unwrap();
    assert_eq!(k.get_data(-1, -1), 0);
    assert_eq!(k.get_data(1, -1), 2);
    assert_eq!(k.get_data(-1, 1), 6);
    assert_eq!(k.get_data(0, 0), 4);
    assert_eq!(k.get_data(1, 1), 8);
    assert_eq!(k.get_data(0, 1), 7);
}

#[test]
fn kernel_sum_of_weights() {
    assert_eq!(Kernel::new(vec![1; 9], true).unwrap().sum(), 9);
    assert_eq!(Kernel::new(vec![-1, -1, -1, -1, 8, -1, -1, -1, -1], false).unwrap().sum(), 0);
    assert_eq!(Kernel::new(vec![i16::MAX; 9], false).unwrap().sum(), 9 * i16::MAX as i128);
    assert_eq!(Kernel::new(vec![i16::MIN; 1], false).unwrap().sum(), i16::MIN as i128);
}

#[test]
fn kernel_vec_range_inner_positions() {
    let k = Kernel::new(vec![0; 9], false).unwrap();
    assert_eq!(k.vec_range(5), 1..4);
    assert_eq!(k.vec_range(3), 1..2);
    assert_eq!(k.vec_range(2), 1..1);
    assert_eq!(k.vec_range(1), 1..1);
    assert_eq!(k.vec_range(0), 1..1);
    let wide = Kernel::new(vec![0; 25], false).unwrap();
    assert_eq!(wide.vec_range(3), 2..2);
    assert_eq!(wide.vec_range(7), 2..5);
}

#[test]
fn identity_kernel_keeps_grid() {
    let k = Kernel::new(vec![0, 0, 0, 0, 1, 0, 0, 0, 0], false).unwrap();
    for (rows, cols) in [(1, 1), (2, 2), (3, 3), (4, 5), (6, 3)] {
        let g = grid(rows, cols);
        assert_eq!(k.apply(&g, 0, &weighted), g);
    }
}

#[test]
fn box_blur_normalises_by_weight_sum() {
    let k = Kernel::new(vec![1; 9], true).unwrap();
    let g = vec![
        vec![9, 9, 9, 9],
        vec![9, 18, 27, 9],
        vec![9, 9, 9, 9],
    ];
    let out = k.apply(&g, 0, &weighted);
    // Each step divides its own product by the sum, as the filter does.
    assert_eq!(out[1][1], (9 * 7 + 18 + 27) / 9);
    assert_eq!(out[1][2], (9 * 7 + 18 + 27) / 9);
    assert_eq!(out[0], g[0]);
    assert_eq!(out[2], g[2]);
    assert_eq!(out[1][0], 9);
    assert_eq!(out[1][3], 9);
}

#[test]
fn unnormalised_kernel_divides_by_one() {
    let k = Kernel::new(vec![2; 9], false).unwrap();
    let g = vec![vec![1; 3]; 3];
    let out = k.apply(&g, 0, &|acc: i64, p: i64, w: i16, d: i128| {
        assert_eq!(d, 1);
        acc + p * w as i64
    });
    assert_eq!(out[1][1], 18);
    assert_eq!(out[0][0], 1);
}

#[test]
fn apply_reads_window_row_offset_outermost() {
    let k = Kernel::new((1..=9).collect(), false).unwrap();
    let g = vec![vec![1, 2, 3], vec![4, 5, 6], vec![7, 8, 9]];
    let seen = std::cell::RefCell::new(Vec::new());
    let out = k.apply(&g, 0, &|acc: i64, p: i64, w: i16, _d: i128| {
        seen.borrow_mut().push((p, w));
        acc + p * w as i64
    });
    let seen = seen.into_inner();
    // Row offset u, column offset v; weight index (u + 1) + (v + 1) * 3.
    assert_eq!(
        seen,
        vec![(1, 1), (2, 4), (3, 7), (4, 2), (5, 5), (6, 8), (7, 3), (8, 6), (9, 9)]
    );
    assert_eq!(out[1][1], 1 + 8 + 21 + 8 + 25 + 48 + 21 + 48 + 81);
}

#[test]
fn kernel_on_small_grid_changes_nothing() {
    let k = Kernel::new(vec![1; 9], true).unwrap();
    let g = vec![vec![3, 4], vec![5, 6]];
    assert_eq!(k.apply(&g, 0, &weighted), g);
    let empty: Vec<Vec<i64>> = vec![];
    assert_eq!(k.apply(&empty, 0, &weighted), empty);
}

#[test]
fn image_filter_holds_its_kernel() {
    let f = ImageFilter::new(vec![0, 1, 0, 1, -4, 1, 0, 1, 0], true).unwrap();
    assert_eq!(f.get_kernel().shape(), 3);
    assert_eq!(f.get_kernel().get_data(0, 0), -4);
    assert_eq!(f.get_kernel().sum(), 0);
    assert!(f.get_kernel().normalize());
    assert_eq!(ImageFilter::new(vec![1, 2], false).err(), Some(ConfigError::KernelNotSquare));
    assert_eq!(ImageFilter::new(vec![], false).err(), Some(ConfigError::EmptyKernel));
}
