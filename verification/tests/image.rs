use signal_filters::image::Image;
use signal_filters::kernel::Kernel;

fn ramp() -> Image {
    Image::new(vec![10, 20, 30, 40, 50, 60, 70, 80, 90], 3).unwrap()
}

#[test]
fn new_accepts_whole_rows() {
    let image = Image::new(vec![1, 2, 3, 4, 5, 6], 3).unwrap();
    assert_eq!(image.width(), 3);
    assert_eq!(image.height(), 2);
    assert_eq!(image.pixels(), &vec![1, 2, 3, 4, 5, 6]);
}

#[test]
fn new_accepts_no_samples() {
    let image = Image::new(Vec::new(), 4).unwrap();
    assert_eq!(image.width(), 4);
    assert_eq!(image.height(), 0);
}

#[test]
fn new_rejects_zero_width() {
    assert!(Image::new(vec![1, 2, 3], 0).is_none());
    assert!(Image::new(Vec::new(), 0).is_none());
}

#[test]
fn new_rejects_broken_row() {
    assert!(Image::new(vec![1, 2, 3, 4, 5], 3).is_none());
}

#[test]
fn clone_is_equal() {
    let image = ramp();
    assert_eq!(image.clone(), image);
}

#[test]
fn get_pixel_inside() {
    let image = ramp();
    assert_eq!(image.get_pixel(4, -1, -1), Some(10));
    assert_eq!(image.get_pixel(4, -1, 0), Some(20));
    assert_eq!(image.get_pixel(4, -1, 1), Some(30));
    assert_eq!(image.get_pixel(4, 0, -1), Some(40));
    assert_eq!(image.get_pixel(4, 0, 0), Some(50));
    assert_eq!(image.get_pixel(4, 0, 1), Some(60));
    assert_eq!(image.get_pixel(4, 1, -1), Some(70));
    assert_eq!(image.get_pixel(4, 1, 0), Some(80));
    assert_eq!(image.get_pixel(4, 1, 1), Some(90));
}

#[test]
fn get_pixel_outside_buffer() {
    let image = ramp();
    assert_eq!(image.get_pixel(1, -1, 0), None);
    assert_eq!(image.get_pixel(1, -1, -1), None);
    assert_eq!(image.get_pixel(7, 1, 0), None);
    assert_eq!(image.get_pixel(8, 0, 1), None);
    assert_eq!(image.get_pixel(8, 1, 1), None);
}

#[test]
fn get_pixel_leftmost_column() {
    let image = ramp();
    assert_eq!(image.get_pixel(3, 0, -1), None);
    assert_eq!(image.get_pixel(3, 0, 1), None);
    assert_eq!(image.get_pixel(3, -1, 1), None);
    assert_eq!(image.get_pixel(3, 1, -1), None);
    assert_eq!(image.get_pixel(3, -1, 0), Some(10));
    assert_eq!(image.get_pixel(3, 1, 0), Some(70));
    assert_eq!(image.get_pixel(0, 1, 0), Some(40));
    assert_eq!(image.get_pixel(0, -1, 0), None);
}

#[test]
fn get_pixel_reads_across_row_end() {
    let image = ramp();
    assert_eq!(image.get_pixel(2, 0, 1), Some(40));
    assert_eq!(image.get_pixel(2, -1, 1), Some(10));
    assert_eq!(image.get_pixel(5, 1, 1), None);
    assert_eq!(image.get_pixel(5, 0, 1), Some(70));
}

#[test]
fn get_pixel_far_offsets() {
    let image = ramp();
    assert_eq!(image.get_pixel(usize::MAX, isize::MAX, isize::MAX), None);
    assert_eq!(image.get_pixel(0, isize::MIN, isize::MIN), None);
    assert_eq!(image.get_pixel(usize::MAX, isize::MIN, 0), None);
    assert_eq!(image.get_pixel(4, 0, 4), Some(90));
    assert_eq!(image.get_pixel(8, -2, -2), Some(10));
    assert_eq!(image.get_pixel(10, -1, 0), Some(80));
}

#[test]
fn convolve_with_laplacian_keeps_sign() {
    let image = ramp();
    assert_eq!(
        image.convolve(&Kernel::laplacian()),
        vec![0, -10, 0, 80, 0, 0, 240, 110, 220]
    );
}

#[test]
fn convolve_with_mean_divides_by_nine() {
    let image = ramp();
    assert_eq!(
        image.convolve(&Kernel::mean()),
        vec![5, 23, 31, 13, 50, 48, 12, 43, 38]
    );
}

#[test]
fn convolve_mirrors_the_kernel() {
    let image = ramp();
    let upper_left = Kernel::new([[1, 0, 0], [0, 0, 0], [0, 0, 0]], 1).unwrap();
    assert_eq!(
        image.convolve(&upper_left),
        vec![0, 60, 70, 0, 90, 0, 0, 0, 0]
    );
    let lower_right = Kernel::new([[0, 0, 0], [0, 0, 0], [0, 0, 1]], 1).unwrap();
    assert_eq!(
        image.convolve(&lower_right),
        vec![0, 0, 0, 0, 10, 20, 0, 40, 50]
    );
}

#[test]
fn convolve_rounds_toward_zero() {
    let image = Image::new(vec![7], 1).unwrap();
    let halves = Kernel::new([[0, 0, 0], [0, -1, 0], [0, 0, 0]], 2).unwrap();
    assert_eq!(image.convolve(&halves), vec![-3]);
    let thirds = Kernel::new([[0, 0, 0], [0, 1, 0], [0, 0, 0]], 3).unwrap();
    assert_eq!(image.convolve(&thirds), vec![2]);
}

#[test]
fn convolve_saturates() {
    let image = Image::new(vec![255], 1).unwrap();
    let large = Kernel::new([[0, 0, 0], [0, i32::MAX, 0], [0, 0, 0]], 1).unwrap();
    assert_eq!(image.convolve(&large), vec![i16::MAX]);
    let small = Kernel::new([[0, 0, 0], [0, i32::MIN, 0], [0, 0, 0]], 1).unwrap();
    assert_eq!(image.convolve(&small), vec![i16::MIN]);
}

#[test]
fn convolve_of_nothing() {
    let image = Image::new(Vec::new(), 2).unwrap();
    assert_eq!(image.convolve(&Kernel::mean()), Vec::<i16>::new());
}

#[test]
fn kernel_needs_a_divisor() {
    assert!(Kernel::new([[1, 1, 1], [1, 1, 1], [1, 1, 1]], 0).is_none());
    assert_eq!(
        Kernel::new([[1, 1, 1], [1, 1, 1], [1, 1, 1]], 9),
        Some(Kernel::mean())
    );
}

#[test]
fn kernel_cells() {
    let kernel = Kernel::laplacian();
    assert_eq!(kernel.divisor(), 1);
    assert_eq!(kernel.weight(1, 1), 4);
    assert_eq!(kernel.weight(0, 1), -1);
    assert_eq!(kernel.weight(1, 0), -1);
    assert_eq!(kernel.weight(1, 2), -1);
    assert_eq!(kernel.weight(2, 1), -1);
    assert_eq!(kernel.weight(0, 0), 0);
    assert_eq!(kernel.weight(2, 2), 0);
    let numbered = Kernel::new([[1, 2, 3], [4, 5, 6], [7, 8, 9]], 2).unwrap();
    assert_eq!(numbered.weight(0, 2), 3);
    assert_eq!(numbered.weight(2, 0), 7);
    assert_eq!(numbered.divisor(), 2);
    assert_eq!(Kernel::mean().divisor(), 9);
}

#[test]
fn mean_filter_on_ramp() {
    let smooth = ramp().mean_filter();
    assert_eq!(smooth.width(), 3);
    assert_eq!(smooth.pixels(), &vec![5, 23, 31, 13, 50, 48, 12, 43, 38]);
}

#[test]
fn mean_filter_keeps_constant_inside() {
    for value in [0u8, 1, 9, 100, 254, 255] {
        let image = Image::new(vec![value; 25], 5).unwrap();
        let smooth = image.mean_filter();
        assert_eq!(smooth.width(), 5);
        assert_eq!(smooth.height(), 5);
        for row in 1..4 {
            for column in 1..4 {
                assert_eq!(smooth.pixels()[row * 5 + column], value);
            }
        }
        assert_eq!(smooth.pixels()[9], value);
        assert_eq!(smooth.pixels()[14], value);
    }
}

#[test]
fn mean_filter_at_the_border_of_constant() {
    let image = Image::new(vec![90; 9], 3).unwrap();
    let smooth = image.mean_filter();
    assert_eq!(smooth.pixels(), &vec![20, 60, 70, 30, 90, 80, 20, 60, 50]);
}

#[test]
fn laplacian_filter_on_ramp() {
    let edges = ramp().laplacian_filter();
    assert_eq!(edges.width(), 3);
    assert_eq!(edges.pixels(), &vec![0, 0, 0, 80, 0, 0, 240, 110, 220]);
}

#[test]
fn laplacian_filter_saturates_at_255() {
    let image = Image::new(vec![200], 1).unwrap();
    assert_eq!(image.convolve(&Kernel::laplacian()), vec![800]);
    assert_eq!(image.laplacian_filter().pixels(), &vec![255]);
}

#[test]
fn laplacian_filter_of_constant_is_zero_inside() {
    for value in [0u8, 1, 77, 255] {
        let image = Image::new(vec![value; 20], 4).unwrap();
        let edges = image.laplacian_filter();
        assert_eq!(edges.width(), 4);
        for row in 1..4 {
            for column in 1..4 {
                assert_eq!(edges.pixels()[row * 4 + column], 0);
            }
        }
    }
}

#[test]
fn treshold_splits_at_cutoff() {
    let binary = ramp().treshold(50);
    assert_eq!(binary.width(), 3);
    assert_eq!(binary.pixels(), &vec![0, 0, 0, 0, 255, 255, 255, 255, 255]);
}

#[test]
fn treshold_at_zero_is_all_white() {
    let binary = Image::new(vec![0, 1, 128, 255], 2).unwrap().treshold(0);
    assert_eq!(binary.pixels(), &vec![255, 255, 255, 255]);
}

#[test]
fn treshold_at_255() {
    let binary = Image::new(vec![0, 254, 255, 255], 2).unwrap().treshold(255);
    assert_eq!(binary.pixels(), &vec![0, 0, 255, 255]);
}

#[test]
fn treshold_twice_is_treshold_once() {
    let image = Image::new(vec![0, 1, 2, 100, 127, 128, 200, 254, 255], 3).unwrap();
    for cutoff in [0u8, 1, 2, 127, 128, 255] {
        let once = image.treshold(cutoff);
        let twice = once.treshold(cutoff);
        assert_eq!(twice, once);
        assert!(once.pixels().iter().all(|pixel| *pixel == 0 || *pixel == 255));
    }
}

#[test]
fn normalize_on_ramp() {
    let stretched = ramp().normalize();
    assert_eq!(stretched.width(), 3);
    assert_eq!(
        stretched.pixels(),
        &vec![0, 32, 64, 96, 128, 159, 191, 223, 255]
    );
}

#[test]
fn normalize_reaches_both_ends() {
    let image = Image::new(vec![100, 101, 100, 101], 2).unwrap();
    assert_eq!(image.normalize().pixels(), &vec![0, 255, 0, 255]);
    let image = Image::new(vec![3, 200, 17, 90, 4, 5], 3).unwrap();
    let stretched = image.normalize();
    assert_eq!(stretched.pixels().iter().min(), Some(&0));
    assert_eq!(stretched.pixels().iter().max(), Some(&255));
}

#[test]
fn normalize_rounds_half_up() {
    let image = Image::new(vec![0, 1, 2], 3).unwrap();
    assert_eq!(image.normalize().pixels(), &vec![0, 128, 255]);
}

#[test]
fn normalize_of_constant_is_zero() {
    let image = Image::new(vec![42; 6], 2).unwrap();
    let stretched = image.normalize();
    assert_eq!(stretched.width(), 2);
    assert_eq!(stretched.pixels(), &vec![0; 6]);
}

#[test]
fn normalize_of_nothing() {
    let image = Image::new(Vec::new(), 3).unwrap();
    let stretched = image.normalize();
    assert_eq!(stretched.width(), 3);
    assert_eq!(stretched.height(), 0);
}

#[test]
fn filters_keep_the_shape() {
    let image = Image::new(vec![9, 8, 7, 6, 5, 4, 3, 2], 4).unwrap();
    for filtered in [
        image.mean_filter(),
        image.laplacian_filter(),
        image.treshold(5),
        image.normalize(),
    ] {
        assert_eq!(filtered.width(), 4);
        assert_eq!(filtered.height(), 2);
        assert_eq!(filtered.pixels().len(), 8);
    }
    assert_eq!(image.pixels(), &vec![9, 8, 7, 6, 5, 4, 3, 2]);
}
