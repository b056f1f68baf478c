use prime::buffers::{padded_buffer, pointwise, truncated};
use prime::plan::{plan_convolution, ConvPlan, ConvolveError};
use rustfft::num_complex::Complex32;
use rustfft::FftPlanner;

const TOLERANCE: f32 = 1e-4;

fn convolve(signal: &[f32], kernel: &[f32]) -> Vec<f32> {
    let plan = match plan_convolution(signal.len(), kernel.len()).unwrap() {
        Some(plan) => plan,
        None => return Vec::new(),
    };
    let zero = Complex32::new(0.0, 0.0);
    let embed = |v: f32| Complex32::new(v, 0.0);
    let mut s = padded_buffer(&signal.to_vec(), plan.fft_size, embed, zero);
    let mut k = padded_buffer(&kernel.to_vec(), plan.fft_size, embed, zero);
    assert_eq!(s.len(), plan.fft_size);
    let mut planner = FftPlanner::<f32>::new();
    let forward = planner.plan_fft_forward(plan.fft_size);
    let inverse = planner.plan_fft_inverse(plan.fft_size);
    forward.process(&mut s);
    forward.process(&mut k);
    let mut product = pointwise(&s, &k, |a: Complex32, b: Complex32| {
        Complex32::new(a.re * b.re - a.im * b.im, a.re * b.im + a.im * b.re)
    });
    inverse.process(&mut product);
    let scale = plan.fft_size as f32;
    truncated(&product, plan.conv_length, |c: Complex32| c.re / scale)
}

fn assert_close(actual: &[f32], expected: &[f32]) {
    assert_eq!(actual.len(), expected.len());
    for (a, e) in actual.iter().zip(expected.iter()) {
        assert!((a - e).abs() <= TOLERANCE * (1.0 + e.abs()), "{} vs {}", a, e);
    }
}

#[test]
fn plan_for_two_pulses() {
    assert_eq!(plan_convolution(2, 2), Ok(Some(ConvPlan { conv_length: 3, fft_size: 4 })));
}

#[test]
fn plan_at_power_of_two_is_not_padded() {
    assert_eq!(plan_convolution(3, 2), Ok(Some(ConvPlan { conv_length: 4, fft_size: 4 })));
    assert_eq!(plan_convolution(5, 4), Ok(Some(ConvPlan { conv_length: 8, fft_size: 8 })));
    assert_eq!(plan_convolution(1, 1), Ok(Some(ConvPlan { conv_length: 1, fft_size: 1 })));
}

#[test]
fn plan_just_above_power_of_two_doubles() {
    assert_eq!(plan_convolution(5, 5), Ok(Some(ConvPlan { conv_length: 9, fft_size: 16 })));
    assert_eq!(plan_convolution(2, 1), Ok(Some(ConvPlan { conv_length: 2, fft_size: 2 })));
}

#[test]
fn plan_with_empty_operand() {
    assert_eq!(plan_convolution(0, 5), Ok(None));
    assert_eq!(plan_convolution(4, 0), Ok(None));
    assert_eq!(plan_convolution(0, 0), Ok(None));
}

#[test]
fn plan_largest_power_of_two() {
    let half = usize::MAX / 2 + 1;
    assert_eq!(plan_convolution(half, 1), Ok(Some(ConvPlan { conv_length: half, fft_size: half })));
}

#[test]
fn plan_too_large_fails() {
    let half = usize::MAX / 2 + 1;
    assert_eq!(plan_convolution(half, 2), Err(ConvolveError::AllocationFailure));
    assert_eq!(plan_convolution(usize::MAX, usize::MAX), Err(ConvolveError::AllocationFailure));
}

#[test]
fn padded_buffer_layout() {
    let r = padded_buffer(&vec![3u32, 4, 5], 8, |v: u32| v * 10, 0u32);
    assert_eq!(r, vec![30, 40, 50, 0, 0, 0, 0, 0]);
    let empty: Vec<u32> = Vec::new();
    assert_eq!(padded_buffer(&empty, 2, |v: u32| v, 7u32), vec![7, 7]);
}

#[test]
fn pointwise_combines_entries() {
    let r = pointwise(&vec![1i64, 2, 3], &vec![4i64, 5, 6], |a: i64, b: i64| a * b - 1);
    assert_eq!(r, vec![3, 9, 17]);
}

#[test]
fn truncated_drops_tail() {
    let r = truncated(&vec![2i64, 4, 6, 8], 3, |v: i64| v / 2);
    assert_eq!(r, vec![1, 2, 3]);
    assert_eq!(truncated(&vec![1i64], 0, |v: i64| v), Vec::<i64>::new());
}

#[test]
fn length_law() {
    assert_eq!(convolve(&[1.0, 2.0, 3.0], &[1.0, 1.0]).len(), 4);
    assert_eq!(convolve(&[1.0; 7], &[0.5; 6]).len(), 12);
    assert_eq!(convolve(&[2.0], &[3.0]).len(), 1);
}

#[test]
fn identity_kernel() {
    let a = [0.5, -1.25, 3.0, 7.5, 2.0];
    assert_close(&convolve(&a, &[1.0]), &a);
}

#[test]
fn convolution_commutes() {
    let a = [1.0, -2.0, 0.5, 4.0];
    let b = [3.0, 0.25, -1.0];
    assert_close(&convolve(&a, &b), &convolve(&b, &a));
}

#[test]
fn pulse_pair_gives_triangle() {
    assert_close(&convolve(&[1.0, 1.0], &[1.0, 1.0]), &[1.0, 2.0, 1.0]);
}

#[test]
fn exact_sums_of_products() {
    assert_close(&convolve(&[1.0, 2.0, 3.0], &[0.0, 1.0, 0.5]), &[0.0, 1.0, 2.5, 4.0, 1.5]);
}

#[test]
fn power_of_two_length_convolution() {
    assert_close(&convolve(&[1.0, 2.0, 3.0], &[1.0, -1.0]), &[1.0, 1.0, 1.0, -3.0]);
}

#[test]
fn scaling_is_linear() {
    let a = [1.0, 3.0, -2.0];
    let b = [0.5, 2.0];
    let k = 2.5;
    let scaled: Vec<f32> = a.iter().map(|v| k * v).collect();
    let expected: Vec<f32> = convolve(&a, &b).iter().map(|v| k * v).collect();
    assert_close(&convolve(&scaled, &b), &expected);
}

#[test]
fn empty_input_gives_empty_output() {
    assert_eq!(convolve(&[], &[1.0, 2.0]), Vec::<f32>::new());
    assert_eq!(convolve(&[1.0, 2.0], &[]), Vec::<f32>::new());
    assert_eq!(convolve(&[], &[]), Vec::<f32>::new());
}
