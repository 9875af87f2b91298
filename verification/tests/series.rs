use signal_filters::series::{
    join_samples, split_samples, taps, trim, DegenerateInput, ECGData, Taps, MEAN_KERNEL_SIZE,
};

#[test]
fn convolve() {
    let data = ECGData::new(vec![1, 2, 3]);

    let convolution = data.convolve(&[4, 5, 6]).unwrap();

    assert_eq!(convolution, vec![4, 13, 28, 27, 18]);
}

#[test]
fn mean_filter() {
    // Samples in tenths: 1, 2.5, 4, 2.5, 5 give 1.5, 2, 3, 2.8, 2.3.
    let data = ECGData::new(vec![10, 25, 40, 25, 50]);

    let mean = data.mean_filter().unwrap();

    assert_eq!(mean.samples(), &vec![15, 20, 30, 28, 23]);
}

#[test]
fn mean_kernel_has_five_weights() {
    assert_eq!(MEAN_KERNEL_SIZE, 5);
}

#[test]
fn convolve_with_mean_weights_in_full() {
    let data = ECGData::new(vec![10, 25, 40, 25, 50]);
    assert_eq!(
        data.convolve(&[1, 1, 1, 1, 1]).unwrap(),
        vec![10, 35, 75, 100, 150, 140, 115, 75, 50]
    );
}

#[test]
fn convolve_with_short_kernel() {
    let data = ECGData::new(vec![1, 2, 3, 4, 5]);
    assert_eq!(
        data.convolve(&[10, 1]).unwrap(),
        vec![10, 21, 32, 43, 54, 5]
    );
}

#[test]
fn convolve_with_one_weight() {
    let data = ECGData::new(vec![3, -4, 5]);
    assert_eq!(data.convolve(&[-2]).unwrap(), vec![-6, 8, -10]);
}

#[test]
fn convolve_with_no_weight() {
    let data = ECGData::new(vec![3, -4, 5]);
    assert_eq!(data.convolve(&[]).unwrap(), vec![0, 0]);
}

#[test]
fn convolve_one_sample() {
    let data = ECGData::new(vec![7]);
    assert_eq!(data.convolve(&[3]).unwrap(), vec![21]);
    assert_eq!(data.convolve(&[]).unwrap(), Vec::<i128>::new());
}

#[test]
fn convolve_extreme_samples() {
    let data = ECGData::new(vec![i32::MIN, i32::MIN, i32::MIN]);
    let square = (i32::MIN as i128) * (i32::MIN as i128);
    assert_eq!(
        data.convolve(&[i32::MIN, i32::MIN, i32::MIN]).unwrap(),
        vec![square, 2 * square, 3 * square, 2 * square, square]
    );
}

#[test]
fn convolve_rejects_empty_series() {
    let data = ECGData::new(Vec::new());
    assert_eq!(data.convolve(&[1]), Err(DegenerateInput));
    assert_eq!(data.convolve(&[]), Err(DegenerateInput));
}

#[test]
fn convolve_rejects_long_kernel() {
    let data = ECGData::new(vec![1, 2]);
    assert_eq!(data.convolve(&[1, 2, 3]), Err(DegenerateInput));
    assert!(data.convolve(&[1, 2]).is_ok());
}

#[test]
fn mean_filter_rejects_short_series() {
    assert_eq!(ECGData::new(Vec::new()).mean_filter(), Err(DegenerateInput));
    assert_eq!(
        ECGData::new(vec![1, 2, 3, 4]).mean_filter(),
        Err(DegenerateInput)
    );
}

#[test]
fn mean_filter_keeps_length() {
    let data = ECGData::new(vec![5, 5, 5, 5, 5, 5, 5, 5]);
    let mean = data.mean_filter().unwrap();
    assert_eq!(mean.samples(), &vec![3, 4, 5, 5, 5, 5, 4, 3]);
}

#[test]
fn mean_filter_rounds_toward_zero() {
    let data = ECGData::new(vec![-1, -1, -1, -1, -3, -1, -1]);
    let mean = data.mean_filter().unwrap();
    assert_eq!(mean.samples(), &vec![0, 0, -1, -1, -1, -1, -1]);
}

#[test]
fn mean_filter_of_extremes() {
    let data = ECGData::new(vec![i32::MIN; 6]);
    let mean = data.mean_filter().unwrap();
    assert_eq!(mean.samples()[2], i32::MIN);
    let data = ECGData::new(vec![i32::MAX; 6]);
    let mean = data.mean_filter().unwrap();
    assert_eq!(mean.samples()[2], i32::MAX);
}

#[test]
fn taps_of_scan_and_tail() {
    assert_eq!(taps(3, 3, 0), Some(Taps { sample: 0, weight: 0, count: 1 }));
    assert_eq!(taps(3, 3, 1), Some(Taps { sample: 1, weight: 0, count: 2 }));
    assert_eq!(taps(3, 3, 2), Some(Taps { sample: 2, weight: 0, count: 3 }));
    assert_eq!(taps(3, 3, 3), Some(Taps { sample: 2, weight: 1, count: 2 }));
    assert_eq!(taps(3, 3, 4), Some(Taps { sample: 2, weight: 2, count: 1 }));
    assert_eq!(taps(3, 3, 5), None);
}

#[test]
fn taps_of_long_series() {
    assert_eq!(taps(10, 2, 0), Some(Taps { sample: 0, weight: 0, count: 1 }));
    assert_eq!(taps(10, 2, 5), Some(Taps { sample: 5, weight: 0, count: 2 }));
    assert_eq!(taps(10, 2, 8), Some(Taps { sample: 8, weight: 0, count: 2 }));
    assert_eq!(taps(10, 2, 9), Some(Taps { sample: 9, weight: 0, count: 2 }));
    assert_eq!(taps(10, 2, 10), Some(Taps { sample: 9, weight: 1, count: 1 }));
    assert_eq!(taps(10, 2, 11), None);
    assert_eq!(taps(10, 2, usize::MAX), None);
}

#[test]
fn taps_of_degenerate_input() {
    assert_eq!(taps(0, 0, 0), None);
    assert_eq!(taps(0, 1, 0), None);
    assert_eq!(taps(2, 3, 0), None);
    assert_eq!(taps(usize::MAX, usize::MAX, usize::MAX), Some(Taps {
        sample: usize::MAX - 1,
        weight: 1,
        count: usize::MAX - 1,
    }));
}

#[test]
fn clone_and_default() {
    let data = ECGData::new(vec![1, -2, 3]);
    assert_eq!(data.clone(), data);
    assert_eq!(data.clone().samples(), &vec![1, -2, 3]);
    assert_eq!(ECGData::default(), ECGData::new(Vec::new()));
}

#[test]
fn split_samples_skips_heading() {
    assert_eq!(
        split_samples(b"3\n0.5\n-1\n2e3"),
        vec![b"0.5".to_vec(), b"-1".to_vec(), b"2e3".to_vec()]
    );
    assert_eq!(split_samples(b"anything at all\nx"), vec![b"x".to_vec()]);
}

#[test]
fn split_samples_keeps_empty_lines() {
    assert_eq!(
        split_samples(b"2\n1\n\n2\n"),
        vec![b"1".to_vec(), Vec::new(), b"2".to_vec(), Vec::new()]
    );
    assert_eq!(split_samples(b"\n"), vec![Vec::<u8>::new()]);
    assert_eq!(split_samples(b"\n\n"), vec![Vec::<u8>::new(), Vec::new()]);
    assert_eq!(
        split_samples(b"1\r\n2\r\n3"),
        vec![b"2\r".to_vec(), b"3".to_vec()]
    );
}

#[test]
fn split_samples_of_heading_alone() {
    assert_eq!(split_samples(b""), Vec::<Vec<u8>>::new());
    assert_eq!(split_samples(b"12"), Vec::<Vec<u8>>::new());
}

#[test]
fn join_samples_counts_and_lists() {
    assert_eq!(
        join_samples(&vec![b"1.5".to_vec(), b"2".to_vec(), b"-3".to_vec()]),
        b"3\n1.5\n2\n-3\n".to_vec()
    );
    assert_eq!(join_samples(&Vec::new()), b"0\n".to_vec());
    let twelve = vec![b"7".to_vec(); 12];
    assert_eq!(
        join_samples(&twelve),
        b"12\n7\n7\n7\n7\n7\n7\n7\n7\n7\n7\n7\n7\n".to_vec()
    );
}

#[test]
fn split_inverts_join() {
    let fields = vec![b"0.25".to_vec(), Vec::new(), b"x y".to_vec()];
    let mut expected = fields.clone();
    expected.push(Vec::new());
    assert_eq!(split_samples(&join_samples(&fields)), expected);
    assert_eq!(
        split_samples(&join_samples(&Vec::new())),
        vec![Vec::<u8>::new()]
    );
}

#[test]
fn trim_drops_front_and_cuts() {
    let outputs = vec![10, 35, 75, 100, 150, 140, 115, 75, 50];
    assert_eq!(trim(&outputs, 5, 5), vec![75, 100, 150, 140, 115]);
    assert_eq!(trim(&outputs, 4, 3), vec![75, 100, 150]);
    assert_eq!(trim(&outputs, 1, 9), outputs);
    assert_eq!(trim(&outputs, 0, 2), vec![10, 35]);
    assert_eq!(trim(&outputs, 3, 0), Vec::<i32>::new());
}

#[test]
fn trim_of_short_outputs() {
    let outputs = vec![1.5, 2.5, 3.5];
    assert_eq!(trim(&outputs, 2, 10), vec![2.5, 3.5]);
    assert_eq!(trim(&outputs, 6, 10), Vec::<f64>::new());
    assert_eq!(trim(&outputs, 7, 1), Vec::<f64>::new());
    assert_eq!(trim(&outputs, usize::MAX, usize::MAX), Vec::<f64>::new());
    assert_eq!(trim(&Vec::<f64>::new(), 5, 5), Vec::<f64>::new());
}

#[test]
fn mean_filter_in_double_precision_steps() {
    // The sums of 1, 2.5, 4, 2.5, 5 under five weights of one fifth, laid
    // out by the library and added in double precision.
    let samples = [1., 2.5, 4., 2.5, 5.];
    let kernel = [1. / 5.; MEAN_KERNEL_SIZE];
    let mut sums = Vec::new();
    while let Some(run) = taps(samples.len(), kernel.len(), sums.len()) {
        let mut sum = 0.;
        for step in 0..run.count {
            sum += samples[run.sample - step] * kernel[run.weight + step];
        }
        sums.push(sum);
    }
    assert_eq!(sums.len(), 9);
    assert_eq!(
        trim(&sums, MEAN_KERNEL_SIZE, samples.len()),
        vec![1.5, 2., 3., 2.8, 2.3]
    );
}
