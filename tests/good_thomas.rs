use good_thomas_fft::algorithm::FFTAlgorithm;
use good_thomas_fft::array_utils::transpose;
use good_thomas_fft::good_thomas_algorithm::GoodThomasAlgorithm;
use good_thomas_fft::math_utils::extended_euclidean_algorithm;
use num::Complex;

/// A direct O(n^2) discrete Fourier transform, forward or inverse (unscaled).
struct NaiveDft {
    len: usize,
    inverse: bool,
}

impl NaiveDft {
    fn forward(len: usize) -> Self {
        NaiveDft { len, inverse: false }
    }

    fn inverse(len: usize) -> Self {
        NaiveDft { len, inverse: true }
    }
}

impl FFTAlgorithm<Complex<f64>> for NaiveDft {
    fn process(&mut self, signal: &[Complex<f64>], spectrum: &mut [Complex<f64>]) {
        assert_eq!(signal.len(), self.len);
        assert_eq!(spectrum.len(), self.len);
        let sign = if self.inverse { 1.0 } else { -1.0 };
        for k in 0..self.len {
            let mut sum = Complex::new(0.0, 0.0);
            for (j, x) in signal.iter().enumerate() {
                let angle = sign * 2.0 * std::f64::consts::PI * ((j * k) % self.len) as f64 / self.len as f64;
                sum = sum + x * Complex::new(angle.cos(), angle.sin());
            }
            spectrum[k] = sum;
        }
    }
}

fn naive_dft(signal: &[Complex<f64>]) -> Vec<Complex<f64>> {
    let mut out = vec![Complex::new(0.0, 0.0); signal.len()];
    NaiveDft::forward(signal.len()).process(signal, &mut out);
    out
}

fn sample_signal(len: usize, seed: u64) -> Vec<Complex<f64>> {
    let mut state = seed.wrapping_mul(6364136223846793005).wrapping_add(1442695040888963407);
    let mut next = move || {
        state = state.wrapping_mul(6364136223846793005).wrapping_add(1442695040888963407);
        ((state >> 11) as f64 / (1u64 << 53) as f64) * 2.0 - 1.0
    };
    (0..len).map(|_| Complex::new(next(), next())).collect()
}

fn good_thomas(width: usize, height: usize) -> GoodThomasAlgorithm<Complex<f64>, NaiveDft, NaiveDft> {
    GoodThomasAlgorithm::new(width, NaiveDft::forward(width), height, NaiveDft::forward(height))
}

fn run<W: FFTAlgorithm<Complex<f64>>>(fft: &mut W, signal: &[Complex<f64>]) -> Vec<Complex<f64>> {
    let mut out = vec![Complex::new(0.0, 0.0); signal.len()];
    fft.process(signal, &mut out);
    out
}

fn assert_close(actual: &[Complex<f64>], expected: &[Complex<f64>]) {
    assert_eq!(actual.len(), expected.len());
    let tolerance = 1e-9 * (1.0 + expected.len() as f64);
    for (i, (a, e)) in actual.iter().zip(expected.iter()).enumerate() {
        assert!((a - e).norm() <= tolerance, "index {}: got {}, expected {}", i, a, e);
    }
}

fn gcd(a: usize, b: usize) -> usize {
    if b == 0 { a } else { gcd(b, a % b) }
}

#[test]
fn matches_naive_dft_for_coprime_sizes() {
    for &(w, h) in &[(1, 1), (1, 5), (2, 3), (3, 2), (3, 4), (4, 3), (5, 7), (4, 9), (8, 3), (7, 10)] {
        let signal = sample_signal(w * h, (w * 31 + h) as u64);
        let mut fft = good_thomas(w, h);
        assert_close(&run(&mut fft, &signal), &naive_dft(&signal));
    }
}

#[test]
fn maps_are_permutations() {
    for &(w, h) in &[(1, 1), (2, 3), (3, 4), (5, 7), (2, 9), (16, 15)] {
        let fft = good_thomas(w, h);
        for map in [fft.input_map(), fft.output_map()] {
            let n = w * h;
            assert_eq!(map.len(), n);
            let mut seen = vec![false; n];
            for &k in map {
                assert!(k < n);
                assert!(!seen[k], "index {} appears twice", k);
                seen[k] = true;
            }
            assert!(seen.iter().all(|&s| s));
        }
    }
}

#[test]
fn process_is_linear() {
    let (w, h) = (5, 7);
    let x = sample_signal(w * h, 1);
    let y = sample_signal(w * h, 2);
    let a = Complex::new(2.0, -1.0);
    let b = Complex::new(0.5, 3.0);
    let combined: Vec<Complex<f64>> = x.iter().zip(y.iter()).map(|(p, q)| a * p + b * q).collect();
    let mut fft = good_thomas(w, h);
    let fx = run(&mut fft, &x);
    let fy = run(&mut fft, &y);
    let expected: Vec<Complex<f64>> = fx.iter().zip(fy.iter()).map(|(p, q)| a * p + b * q).collect();
    assert_close(&run(&mut fft, &combined), &expected);
}

#[test]
fn non_coprime_construction_fails() {
    for &(w, h) in &[(4, 6), (6, 9), (2, 2), (10, 15)] {
        let built: Option<GoodThomasAlgorithm<Complex<f64>, NaiveDft, NaiveDft>> =
            GoodThomasAlgorithm::try_new(w, NaiveDft::forward(w), h, NaiveDft::forward(h));
        assert!(built.is_none());
    }
    let built: Option<GoodThomasAlgorithm<Complex<f64>, NaiveDft, NaiveDft>> =
        GoodThomasAlgorithm::try_new(3, NaiveDft::forward(3), 4, NaiveDft::forward(4));
    assert!(built.is_some());
}

#[test]
fn three_by_four_maps() {
    let fft = good_thomas(3, 4);
    let input_map = fft.input_map();
    for i in 0..12 {
        assert_eq!(input_map[i], ((i % 3) * 4 + (i / 3) * 3) % 12);
    }
    assert_eq!(input_map, &[0, 4, 8, 3, 7, 11, 6, 10, 2, 9, 1, 5]);
    // the inverse of 3 modulo 4 is 3, and the inverse of 4 modulo 3 is 1
    let output_map = fft.output_map();
    for i in 0..12 {
        let y = i % 4;
        let x = i / 4;
        assert_eq!(output_map[i], (x * 4 * 1 + y * 3 * 3) % 12);
    }
    assert_eq!(output_map, &[0, 9, 6, 3, 4, 1, 10, 7, 8, 5, 2, 11]);
}

#[test]
fn impulse_gives_all_ones() {
    for &(w, h) in &[(3, 4), (5, 7), (2, 9)] {
        let mut signal = vec![Complex::new(0.0, 0.0); w * h];
        signal[0] = Complex::new(1.0, 0.0);
        let mut fft = good_thomas(w, h);
        assert_close(&run(&mut fft, &signal), &vec![Complex::new(1.0, 0.0); w * h]);
    }
}

#[test]
fn zero_gives_zero() {
    for &(w, h) in &[(3, 4), (5, 7), (1, 1)] {
        let signal = vec![Complex::new(0.0, 0.0); w * h];
        let mut fft = good_thomas(w, h);
        let out = run(&mut fft, &signal);
        assert!(out.iter().all(|c| c.re == 0.0 && c.im == 0.0));
    }
}

#[test]
fn forward_then_inverse_round_trips() {
    for &(w, h) in &[(3, 4), (5, 7), (2, 5), (9, 4)] {
        let n = w * h;
        let signal = sample_signal(n, (w + 7 * h) as u64);
        let mut forward = good_thomas(w, h);
        let mut inverse = GoodThomasAlgorithm::new(w, NaiveDft::inverse(w), h, NaiveDft::inverse(h));
        let spectrum = run(&mut forward, &signal);
        let back: Vec<Complex<f64>> = run(&mut inverse, &spectrum).iter().map(|c| c / n as f64).collect();
        assert_close(&back, &signal);
    }
}

#[test]
fn repeated_calls_reuse_scratch() {
    let mut fft = good_thomas(4, 9);
    let first = sample_signal(36, 5);
    let second = sample_signal(36, 6);
    let a = run(&mut fft, &first);
    let b = run(&mut fft, &second);
    let c = run(&mut fft, &first);
    assert_eq!(a, c);
    assert_close(&b, &naive_dft(&second));
}

#[test]
fn nested_decomposition_matches_naive_dft() {
    let inner = good_thomas(3, 4);
    let mut outer = GoodThomasAlgorithm::new(12, inner, 5, NaiveDft::forward(5));
    let signal = sample_signal(60, 9);
    assert_close(&run(&mut outer, &signal), &naive_dft(&signal));
}

#[test]
fn extended_euclid_gives_bezout_coefficients() {
    assert_eq!(extended_euclidean_algorithm(3, 4), (1, -1, 1));
    assert_eq!(extended_euclidean_algorithm(4, 6).0, 2);
    assert_eq!(extended_euclidean_algorithm(0, 5), (5, 0, 1));
    assert_eq!(extended_euclidean_algorithm(7, 0), (7, 1, 0));
    for a in 0..40i128 {
        for b in 0..40i128 {
            let (g, x, y) = extended_euclidean_algorithm(a, b);
            assert_eq!(g as usize, gcd(a as usize, b as usize));
            assert_eq!(a * x + b * y, g);
        }
    }
}

#[test]
fn transpose_swaps_rows_and_columns() {
    // two rows of three
    let input = [1, 2, 3, 4, 5, 6];
    let mut output = [0; 6];
    transpose(3, 2, &input, &mut output);
    assert_eq!(output, [1, 4, 2, 5, 3, 6]);
}
