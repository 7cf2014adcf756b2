use std::f32::consts::TAU;
use std::io::Cursor;

use chirpy_core::arith::{filled, sum_of_squares};
use chirpy_core::bpsk::{demodulate, modulate, slice_symbol};
use chirpy_core::carrier::{downconvert, upconvert};
use chirpy_core::chirp::{detect_chirp, make_chirp};
use chirpy_core::equalizer::{
    default_mu, estimate_channel, Dfe, DEFAULT_FBF_LEN, DEFAULT_FFF_LEN,
};
use chirpy_core::frame::{bytes_to_bits, encode, training_symbols, TRAINING_SEQUENCE};
use chirpy_core::pulse::{convolve, rrc_taps, upsample_and_filter};
use chirpy_core::rx::{decode_bits, locate_data, lock_on};
use chirpy_core::tx::{normalize_peak, peak_target, POST_CHIRP_GAP_SYMBOLS};
use chirpy_core::wav::{from_pcm, from_reals, to_pcm};
use chirpy_core::{
    decode_samples, decode_samples_traced, encode_samples, stft, Arithmetic, Config, DecodeError,
    FrameError, Fourier, Modulation,
};
use hound::{SampleFormat, WavReader, WavSpec, WavWriter};
use num_complex::Complex;
use rustfft::FftPlanner;

/// Single-precision floats.
struct Float;

impl Arithmetic for Float {
    type Real = f32;
    type Symbol = Complex<f32>;

    const ZERO: f32 = 0.0;
    const ONE: f32 = 1.0;
    const LOWEST: f32 = f32::MIN;
    const PI: f32 = std::f32::consts::PI;
    const TAU: f32 = std::f32::consts::TAU;
    const ROOT_TWO: f32 = std::f32::consts::SQRT_2;
    const ORIGIN: Complex<f32> = Complex { re: 0.0, im: 0.0 };
    const SPACE: Complex<f32> = Complex { re: 1.0, im: 0.0 };
    const MARK: Complex<f32> = Complex { re: -1.0, im: 0.0 };

    fn fraction(num: u64, den: u64) -> f32 {
        if den == 1 {
            num as f32
        } else {
            (num as f64 / den as f64) as f32
        }
    }

    fn count(n: usize) -> f32 {
        n as f32
    }

    fn offset(n: i32) -> f32 {
        n as f32
    }

    fn plus(a: f32, b: f32) -> f32 {
        a + b
    }

    fn minus(a: f32, b: f32) -> f32 {
        a - b
    }

    fn times(a: f32, b: f32) -> f32 {
        a * b
    }

    fn over(a: f32, b: f32) -> f32 {
        a / b
    }

    fn negated(a: f32) -> f32 {
        -a
    }

    fn square(a: f32) -> f32 {
        a.powi(2)
    }

    fn sine(a: f32) -> f32 {
        a.sin()
    }

    fn cosine(a: f32) -> f32 {
        a.cos()
    }

    fn logarithm(a: f32) -> f32 {
        a.log10()
    }

    fn rounded(a: f32) -> f32 {
        a.round()
    }

    fn magnitude(a: f32) -> f32 {
        a.abs()
    }

    fn root(a: f32) -> f32 {
        a.sqrt()
    }

    fn larger(a: f32, b: f32) -> f32 {
        a.max(b)
    }

    fn exceeds(a: f32, b: f32) -> bool {
        a > b
    }

    fn reaches(a: f32, b: f32) -> bool {
        a >= b
    }

    fn below(a: f32, b: f32) -> bool {
        a < b
    }

    fn floor(a: f32) -> usize {
        a.floor() as usize
    }

    fn nearest(a: f32) -> usize {
        a.round() as usize
    }

    fn sample(a: f32) -> i16 {
        a as i16
    }

    fn symbol(re: f32, im: f32) -> Complex<f32> {
        Complex::new(re, im)
    }

    fn real_part(s: Complex<f32>) -> f32 {
        s.re
    }

    fn imaginary_part(s: Complex<f32>) -> f32 {
        s.im
    }

    fn modulus(s: Complex<f32>) -> f32 {
        s.norm()
    }

    fn sum(a: Complex<f32>, b: Complex<f32>) -> Complex<f32> {
        a + b
    }

    fn difference(a: Complex<f32>, b: Complex<f32>) -> Complex<f32> {
        a - b
    }

    fn quotient(a: Complex<f32>, b: Complex<f32>) -> Complex<f32> {
        a / b
    }

    fn scaled(s: Complex<f32>, a: f32) -> Complex<f32> {
        s * a
    }

    fn share(s: Complex<f32>, a: f32) -> Complex<f32> {
        s / a
    }

    fn energy(s: Complex<f32>) -> f32 {
        s.norm_sqr()
    }

    fn product(a: Complex<f32>, b: Complex<f32>) -> Complex<f32> {
        a * b
    }

    fn conjugate_product(a: Complex<f32>, b: Complex<f32>) -> Complex<f32> {
        a * b.conj()
    }
}

impl Fourier for Float {
    fn spectrum(mut frame: Vec<Complex<f32>>) -> Vec<Complex<f32>> {
        let fft = FftPlanner::<f32>::new().plan_fft_forward(frame.len());
        fft.process(&mut frame);
        frame
    }
}

// ---------------------------------------------------------------------------------------------
// bpsk
// ---------------------------------------------------------------------------------------------

#[test]
fn roundtrip_recovers_bits() {
    let bits = vec![0, 1, 1, 0, 1, 0, 0, 1, 1, 1, 0];
    let syms = modulate::<Float>(&bits);
    let out = demodulate::<Float>(&syms);
    assert_eq!(bits, out);
}

#[test]
fn maps_to_expected_symbols() {
    let syms = modulate::<Float>(&[0, 1, 0]);
    assert_eq!(syms[0].re, 1.0);
    assert_eq!(syms[1].re, -1.0);
    assert_eq!(syms[2].re, 1.0);
}

#[test]
fn slicer_decides_on_the_axis() {
    assert_eq!(slice_symbol::<Float>(Complex::new(0.001, -7.0)), 0);
    assert_eq!(slice_symbol::<Float>(Complex::new(0.0, 1.0)), 1);
    assert_eq!(slice_symbol::<Float>(Complex::new(-0.001, 3.0)), 1);
}

#[test]
fn gain_changes_no_bit() {
    let bits = vec![0, 1, 1, 0, 1, 0, 0, 1, 1, 1, 0];
    for gain in [1e-30_f32, 0.5, 3.0, 1e30] {
        let louder: Vec<Complex<f32>> =
            modulate::<Float>(&bits).iter().map(|s| s * gain).collect();
        assert_eq!(demodulate::<Float>(&louder), bits);
    }
}

// ---------------------------------------------------------------------------------------------
// carrier
// ---------------------------------------------------------------------------------------------

#[test]
fn roundtrip_recovers_baseband_after_lowpass() {
    let fs = 48_000.0;
    let fc = 6_000.0;
    let n = 4_096;
    // A constant-amplitude baseband tone at +500 Hz (slow rotation).
    let baseband: Vec<Complex<f32>> = (0..n)
        .map(|k| {
            let p = TAU * 500.0 * k as f32 / fs;
            Complex::new(p.cos(), p.sin())
        })
        .collect();

    let passband = upconvert::<Float>(&baseband, fc, fs);
    let down = downconvert::<Float>(&passband, fc, fs);

    // Average a long stretch with explicit phase de-rotation so the residual
    // 2·fc image cancels and the baseband DC term survives. The expected
    // magnitude is 0.5 (downconverting a real cosine yields half-amplitude
    // baseband).
    let omega_b = TAU * 500.0 / fs;
    let mut acc = Complex::new(0.0, 0.0);
    let start = n / 4;
    let end = 3 * n / 4;
    for k in start..end {
        let p = omega_b * k as f32;
        let rot = Complex::new(p.cos(), -p.sin());
        acc += down[k] * rot;
    }
    acc /= (end - start) as f32;
    let mag = acc.norm();
    assert!((mag - 0.5).abs() < 0.02, "expected ~0.5, got {mag}");
}

#[test]
fn carrier_starts_at_phase_zero() {
    let up = upconvert::<Float>(&[Complex::new(0.25, 9.0), Complex::new(1.0, 0.0)], 12_000.0, 48_000.0);
    assert_eq!(up[0], 0.25);
    assert!(up[1].abs() < 1e-6);
    let down = downconvert::<Float>(&[0.5, 2.0], 12_000.0, 48_000.0);
    assert_eq!(down[0], Complex::new(0.5, 0.0));
    assert!((down[1] - Complex::new(0.0, -2.0)).norm() < 1e-6);
}

// ---------------------------------------------------------------------------------------------
// chirp
// ---------------------------------------------------------------------------------------------

#[test]
fn detects_chirp_in_padded_signal() {
    let cfg = Config::<Float>::default();
    let chirp = make_chirp(&cfg);
    let pre = vec![0.0_f32; 1234];
    let post = vec![0.0_f32; 567];
    let mut signal = Vec::new();
    signal.extend_from_slice(&pre);
    signal.extend_from_slice(&chirp);
    signal.extend_from_slice(&post);

    let hit = detect_chirp::<Float>(&signal, &chirp, 0.5).expect("chirp not detected");
    assert_eq!(hit.start, pre.len());
}

#[test]
fn chirp_rejects_pure_noise() {
    let cfg = Config::<Float>::default();
    let chirp = make_chirp(&cfg);
    // Deterministic pseudo-noise.
    let signal: Vec<f32> = (0..(chirp.len() * 4))
        .map(|i| {
            let x = ((i as u32).wrapping_mul(2654435761) ^ 0xdeadbeef) as f32;
            (x / u32::MAX as f32) - 0.5
        })
        .collect();
    // Energy of this noise is << chirp self-energy, so a high threshold rejects.
    assert!(detect_chirp::<Float>(&signal, &chirp, 0.8).is_none());
}

#[test]
fn chirp_has_the_configured_length() {
    let cfg = Config::<Float>::default();
    assert_eq!(cfg.chirp_len_samples(), 2_400);
    let chirp = make_chirp(&cfg);
    assert_eq!(chirp.len(), 2_400);
    assert_eq!(chirp[0], 0.0);
}

#[test]
fn chirp_follows_its_formula() {
    let cfg = Config::<Float> {
        sample_rate: 8_000,
        chirp_dur_ms: 2.0,
        chirp_f0_hz: 500.0,
        chirp_f1_hz: 1_500.0,
        ..Config::default()
    };
    let chirp = make_chirp(&cfg);
    assert_eq!(chirp.len(), 16);
    for (i, &x) in chirp.iter().enumerate() {
        let t = i as f64 / 8_000.0;
        let phase = std::f64::consts::TAU * (500.0 * t + 0.5 * (1_000.0 / 0.002) * t * t);
        let window = 0.5 * (1.0 - (std::f64::consts::TAU * i as f64 / 15.0).cos());
        assert!((x as f64 - phase.sin() * window).abs() < 1e-5);
    }
}

#[test]
fn hit_reports_peak_energy_and_refinement() {
    let chirp = [1.0_f32, 2.0];
    let hit = detect_chirp::<Float>(&[0.0, 1.0, 2.0, 0.0], &chirp, 0.99).unwrap();
    assert_eq!(hit.start, 1);
    assert_eq!(hit.peak_correlation, 5.0);
    assert_eq!(hit.self_energy, 5.0);
    // The neighbours correlate with 2 on both sides.
    assert_eq!(hit.sub_sample, 0.0);
    // A peak at the edge of the signal has only one neighbour.
    let edge = detect_chirp::<Float>(&[1.0, 2.0, 0.0], &chirp, 0.0).unwrap();
    assert_eq!((edge.start, edge.sub_sample), (0, 0.0));
    // A peak between two samples is pulled to the higher neighbour.
    let skewed = detect_chirp::<Float>(&[0.0, 2.0, 4.0, 1.0, 0.0], &chirp, 0.0).unwrap();
    assert_eq!(skewed.start, 1);
    // The scores 4, 10 and 6 lie on a parabola with its vertex a tenth of a sample later.
    assert_eq!(skewed.sub_sample, 0.1);
    // Two equal scores have their peak half way between them.
    let even = detect_chirp::<Float>(&[0.0, 0.0, 1.0, 1.0, 0.0], &[1.0], 0.0).unwrap();
    assert_eq!((even.start, even.sub_sample), (2, 0.5));
}

#[test]
fn chirp_search_finds_inverted_and_first_of_equals() {
    let chirp = [1.0_f32, 2.0];
    let hit = detect_chirp::<Float>(&[0.0, -1.0, -2.0, 0.0, 1.0, 2.0], &chirp, 0.3).unwrap();
    assert_eq!((hit.start, hit.peak_correlation), (1, 5.0));
    assert!(detect_chirp::<Float>(&[1.0], &chirp, 0.0).is_none());
    assert!(detect_chirp::<Float>(&[0.5, 1.0], &chirp, 0.51).is_none());
    assert!(detect_chirp::<Float>(&[0.5, 1.0], &chirp, 0.49).is_some());
}

#[test]
fn chirp_peak_must_exceed_the_threshold() {
    assert!(detect_chirp::<Float>(&[1.0, 0.0], &[1.0], 1.0).is_none());
    assert!(detect_chirp::<Float>(&[1.0, 0.0], &[1.0], 0.999).is_some());
    assert!(detect_chirp::<Float>(&[0.5, 1.0], &[1.0, 2.0], 0.5).is_none());
    assert!(detect_chirp::<Float>(&[0.0, 0.0, 0.0], &[1.0, 2.0], 0.0).is_none());
}

#[test]
fn chirp_of_one_sample_is_silent() {
    let cfg = Config::<Float> { sample_rate: 1_000, chirp_dur_ms: 1.0, ..Config::default() };
    assert_eq!(make_chirp(&cfg), vec![0.0]);
}

// ---------------------------------------------------------------------------------------------
// equalizer
// ---------------------------------------------------------------------------------------------

fn bpsk_targets(bits: &[u8]) -> Vec<Complex<f32>> {
    bits.iter()
        .map(|&b| Complex::new(if b == 0 { 1.0 } else { -1.0 }, 0.0))
        .collect()
}

#[test]
fn estimate_recovers_known_channel() {
    let bits = [0u8, 1, 1, 0, 1, 0, 0, 1, 0, 1, 1, 1, 0, 0, 1, 0];
    let targets = bpsk_targets(&bits);
    let h_ch = Complex::from_polar(2.3, 0.7);
    let received: Vec<Complex<f32>> = targets.iter().map(|t| t * h_ch).collect();
    let est = estimate_channel::<Float>(&received, &targets);
    assert!(
        (est - h_ch).norm() < 1e-4,
        "estimate {:?} vs channel {:?}",
        est,
        h_ch
    );
}

#[test]
fn estimate_uses_the_common_head_or_is_one() {
    let one = Complex::new(1.0, 0.0);
    assert_eq!(estimate_channel::<Float>(&[], &[one]), one);
    assert_eq!(estimate_channel::<Float>(&[Complex::new(5.0, 5.0)], &[]), one);
    let est = estimate_channel::<Float>(
        &[Complex::new(2.0, 1.0), Complex::new(-4.0, -1.0), Complex::new(99.0, 0.0)],
        &[one, -one],
    );
    assert_eq!(est, Complex::new(3.0, 1.0));
}

#[test]
fn dfe_passthrough_when_channel_is_clean() {
    let bits: Vec<u8> = (0..200).map(|i| ((i * 37 + 5) as u8) & 1).collect();
    let targets = bpsk_targets(&bits);
    let mut dfe = Dfe::<Float>::new(DEFAULT_FFF_LEN, DEFAULT_FBF_LEN, default_mu::<Float>());
    let eq = dfe.process(&targets, &targets, 100);
    let recovered: Vec<u8> = eq
        .iter()
        .map(|s| if s.re > 0.0 { 0 } else { 1 })
        .collect();
    assert_eq!(recovered, bits);
}

#[test]
fn dfe_recovers_through_two_tap_isi() {
    // Channel: received[k] = symbol[k] + 0.4 * symbol[k-2]
    let bits: Vec<u8> = (0..400).map(|i| ((i * 109 + 3) as u8) & 1).collect();
    let targets = bpsk_targets(&bits);
    let mut received = vec![Complex::new(0.0, 0.0); targets.len()];
    for k in 0..targets.len() {
        received[k] = targets[k];
        if k >= 2 {
            received[k] += Complex::new(0.4, 0.0) * targets[k - 2];
        }
    }
    let mut dfe = Dfe::<Float>::new(DEFAULT_FFF_LEN, DEFAULT_FBF_LEN, default_mu::<Float>());
    let eq = dfe.process(&received, &targets, 128);
    let recovered: Vec<u8> = eq
        .iter()
        .map(|s| if s.re > 0.0 { 0 } else { 1 })
        .collect();
    // Allow a few errors in the very first symbols before LMS converges;
    // after the training portion everything should be clean.
    let payload_errors = recovered[128..]
        .iter()
        .zip(bits[128..].iter())
        .filter(|(a, b)| a != b)
        .count();
    assert_eq!(payload_errors, 0, "{} bit errors after training", payload_errors);
}

#[test]
fn clean_channel_leaves_equalizer_and_symbols_unchanged() {
    let targets = bpsk_targets(&[0, 1, 1, 0, 1, 0, 0, 0, 1, 1, 1]);
    let mut dfe = Dfe::<Float>::new(4, 3, 0.02);
    let eq = dfe.process(&targets, &targets, 5);
    assert_eq!(eq, targets);
    let fresh = Dfe::<Float>::new(4, 3, 0.02);
    assert_eq!(dfe.h_ff, fresh.h_ff);
    assert_eq!(dfe.h_fb, fresh.h_fb);
    assert_eq!(fresh.h_ff[2], Complex::new(1.0, 0.0));
}

#[test]
fn equalizer_learns_from_its_error() {
    let mut dfe = Dfe::<Float>::new(1, 1, 0.5);
    let target = [Complex::new(1.0, 0.0), Complex::new(-1.0, 0.0)];
    let eq = dfe.process(&[Complex::new(0.5, 0.0), Complex::new(-1.0, 0.0)], &target, 9);
    // First symbol: y = 0.5, error = 0.5, h_ff = 1 + 0.5 * 0.5 * 0.5.
    assert_eq!(eq[0], Complex::new(0.5, 0.0));
    // Second symbol: y = -1.125, error = 0.125.
    assert_eq!(eq[1], Complex::new(-1.125, 0.0));
    assert_eq!(dfe.h_ff, vec![Complex::new(1.125 - 0.0625, 0.0)]);
    assert_eq!(dfe.h_fb, vec![Complex::new(-0.0625, 0.0)]);
    assert_eq!((dfe.h_ff.len(), dfe.h_fb.len(), eq.len()), (1, 1, 2));
}

#[test]
fn unused_targets_have_no_effect() {
    let input: Vec<Complex<f32>> =
        (0..6).map(|i| Complex::new(0.3 * i as f32 - 0.7, 0.1)).collect();
    let targets = bpsk_targets(&[0, 1, 1, 0, 1, 0, 0, 1]);
    // The training is limited by what is asked for, by the targets, or by the input.
    for (n_training, given, usable) in [(3, 8, 3), (99, 4, 4), (99, 8, 6)] {
        let mut one = Dfe::<Float>::new(3, 2, 0.1);
        let mut other = Dfe::<Float>::new(3, 2, 0.1);
        let a = one.process(&input, &targets[..given], n_training);
        let b = other.process(&input, &targets[..usable], usable);
        assert_eq!(a, b);
        assert_eq!(one.h_ff, other.h_ff);
        assert_eq!(one.h_fb, other.h_fb);
    }
}

#[test]
fn equalizer_follows_its_decisions_after_training() {
    let mut dfe = Dfe::<Float>::new(1, 1, 0.5);
    let eq = dfe.process(&[Complex::new(0.5, 0.0)], &[Complex::new(-1.0, 0.0)], 0);
    assert_eq!(eq[0], Complex::new(0.5, 0.0));
    // The decision is +1, not the target -1.
    assert_eq!(dfe.h_ff[0], Complex::new(1.125, 0.0));
}

// ---------------------------------------------------------------------------------------------
// frame, in symbols
// ---------------------------------------------------------------------------------------------

#[test]
fn training_symbols_are_balanced() {
    let syms = training_symbols::<Float>();
    assert_eq!(syms.len(), TRAINING_SEQUENCE.len() * 8);
    let sum: f32 = syms.iter().map(|s| s.re).sum();
    // Picked-by-eye balance; tolerate ±16 imbalance.
    assert!(sum.abs() <= 16.0, "imbalanced sum {sum}");
}

#[test]
fn training_symbols_start_with_the_first_byte() {
    let syms = training_symbols::<Float>();
    let head: Vec<f32> = syms[..8].iter().map(|s| s.re).collect();
    assert_eq!(head, vec![-1.0, 1.0, -1.0, -1.0, -1.0, 1.0, 1.0, 1.0]);
}

// ---------------------------------------------------------------------------------------------
// pulse
// ---------------------------------------------------------------------------------------------

#[test]
fn rrc_is_symmetric() {
    let taps = rrc_taps::<Float>(8, 6, 0.35);
    let n = taps.len();
    for i in 0..n / 2 {
        assert!((taps[i] - taps[n - 1 - i]).abs() < 1e-5);
    }
}

#[test]
fn rrc_peaks_at_center() {
    let taps = rrc_taps::<Float>(8, 6, 0.35);
    let center = taps.len() / 2;
    for (i, &t) in taps.iter().enumerate() {
        if i != center {
            assert!(t.abs() <= taps[center].abs() + 1e-6);
        }
    }
}

#[test]
fn rrc_has_unit_energy() {
    let taps = rrc_taps::<Float>(8, 6, 0.35);
    assert_eq!(taps.len(), 49);
    assert!((sum_of_squares::<Float>(&taps) - 1.0).abs() < 1e-5);
}

#[test]
fn rrc_has_its_values_at_the_special_places() {
    // With this roll-off the taps half a symbol from the peak are where the general formula
    // divides by zero.
    let taps = rrc_taps::<Float>(2, 2, 0.5);
    let expected = [-0.075328, 0.410796, 0.806935, 0.410796, -0.075328];
    assert_eq!(taps.len(), expected.len());
    for (tap, e) in taps.iter().zip(expected) {
        assert!((tap - e).abs() < 1e-5, "{tap} vs {e}");
    }
}

#[test]
fn upsampling_places_a_pulse_at_every_symbol() {
    let symbols = [Complex::new(1.0, 0.0), Complex::new(-2.0, 1.0)];
    let out = upsample_and_filter::<Float>(&symbols, 2, &[1.0, 10.0, 100.0]);
    let expected = vec![
        Complex::new(1.0, 0.0),
        Complex::new(10.0, 0.0),
        Complex::new(98.0, 1.0),
        Complex::new(-20.0, 10.0),
        Complex::new(-200.0, 100.0),
        Complex::new(0.0, 0.0),
    ];
    assert_eq!(out, expected);
}

#[test]
fn convolution_has_exact_values() {
    let x = [Complex::new(1.0, 2.0), Complex::new(3.0, 0.0)];
    let y = convolve::<Float>(&x, &[1.0, -1.0, 2.0]);
    let expected = vec![
        Complex::new(1.0, 2.0),
        Complex::new(2.0, -2.0),
        Complex::new(-1.0, 4.0),
        Complex::new(6.0, 0.0),
    ];
    assert_eq!(y, expected);
}

#[test]
fn convolving_is_upsampling_by_one() {
    let x = [Complex::new(1.0, 2.0), Complex::new(3.0, 0.0), Complex::new(-0.5, 0.25)];
    let h = [1.0, -1.0, 2.0, 0.125];
    assert_eq!(convolve::<Float>(&x, &h), upsample_and_filter::<Float>(&x, 1, &h));
    let taps: Vec<Complex<f32>> = h.iter().map(|&t| Complex::new(t, 0.0)).collect();
    assert_eq!(convolve::<Float>(&[Complex::new(1.0, 0.0)], &h), taps);
}

// ---------------------------------------------------------------------------------------------
// rx
// ---------------------------------------------------------------------------------------------

fn roundtrip(payload: &[u8]) {
    let cfg = Config::<Float>::default();
    let samples = encode_samples(payload, &cfg).unwrap();
    let out = decode_samples(&samples, &cfg).expect("decode failed");
    assert_eq!(out.as_slice(), payload);
}

#[test]
fn roundtrip_tiny() {
    roundtrip(b"hi");
}

#[test]
fn roundtrip_medium() {
    let payload: Vec<u8> = (0..200).map(|i| (i as u8).wrapping_mul(37)).collect();
    roundtrip(&payload);
}

#[test]
fn rx_roundtrip_empty() {
    roundtrip(b"");
}

#[test]
fn roundtrip_with_leading_silence() {
    let cfg = Config::<Float>::default();
    let payload = b"hello chirpy".to_vec();
    let modulated = encode_samples(&payload, &cfg).unwrap();
    let mut padded = vec![0.0_f32; 12_345];
    padded.extend_from_slice(&modulated);
    let out = decode_samples(&padded, &cfg).expect("decode failed");
    assert_eq!(out, payload);
}

#[test]
fn traced_decode_matches_plain_on_success() {
    let cfg = Config::<Float>::default();
    let payload = b"trace consistency".to_vec();
    let samples = encode_samples(&payload, &cfg).unwrap();
    let plain = decode_samples(&samples, &cfg).unwrap();
    let (traced, trace) = decode_samples_traced(&samples, &cfg);
    assert_eq!(traced.unwrap(), plain);
    assert!(trace.chirp_peak_ratio >= cfg.chirp_detect_threshold);
    assert!(!trace.symbols.is_empty());
    assert_eq!(trace.symbols.len(), trace.pre_eq_symbols.len());
}

#[test]
fn trace_populated_on_noise() {
    let cfg = Config::<Float>::default();
    let noise: Vec<f32> = (0..96_000)
        .map(|i| {
            let x = ((i as u32).wrapping_mul(2654435761) ^ 0xfeedface) as f32;
            (x / u32::MAX as f32) - 0.5
        })
        .collect();
    let (result, trace) = decode_samples_traced(&noise, &cfg);
    assert!(matches!(result, Err(DecodeError::ChirpNotFound)));
    assert!(trace.chirp_peak_ratio < cfg.chirp_detect_threshold);
    assert!(trace.symbols.is_empty());
}

#[test]
fn receiver_without_a_signal_finds_no_chirp() {
    let cfg = Config::<Float>::default();
    let (result, trace) = decode_samples_traced(&[0.5; 100], &cfg);
    assert_eq!(result, Err(DecodeError::ChirpNotFound));
    assert_eq!(trace.chirp_peak_ratio, 0.0);
    assert_eq!(trace.best_phase_offset, 0);
    assert!(trace.symbols.is_empty() && trace.pre_eq_symbols.is_empty());
}

#[test]
fn receiver_without_a_lock_does_not_need_a_symbol_rate() {
    let cfg = Config::<Float> { baud: 0, ..Config::default() };
    let silence = vec![0.0; 3_000];
    let (lock, trace) = lock_on(&silence, &cfg);
    assert!(lock.is_none());
    assert_eq!(trace.chirp_peak_ratio, 0.0);
    assert_eq!(decode_samples(&silence, &cfg), Err(DecodeError::ChirpNotFound));
}

#[test]
fn lock_tells_where_the_chirp_is() {
    let cfg = Config::<Float>::default();
    let mut samples = vec![0.0; 100];
    samples.extend(encode_samples(b"x", &cfg).unwrap());
    let (lock, trace) = lock_on(&samples, &cfg);
    let (hit, chirp_len) = lock.unwrap();
    assert_eq!((hit.start, chirp_len), (100, 2_400));
    assert_eq!(trace.chirp_sub_sample, hit.sub_sample);
    let (result, full) = decode_samples_traced(&samples, &cfg);
    assert_eq!(result, decode_samples(&samples, &cfg));
    assert_eq!(full.chirp_peak_ratio, trace.chirp_peak_ratio);
    assert!(full.best_phase_offset.abs() <= 24);
}

#[test]
fn receiver_reports_a_signal_that_ends_after_the_chirp() {
    let cfg = Config::<Float>::default();
    let mut samples = vec![0.0; 10];
    samples.extend(make_chirp(&cfg));
    assert_eq!(decode_samples(&samples, &cfg), Err(DecodeError::Truncated));
}

#[test]
fn receiver_of_a_bare_chirp_does_not_need_samples_in_a_symbol() {
    // More symbols than samples a second: a symbol has no sample, and there is no gap.
    let cfg = Config::<Float> { baud: 96_000, ..Config::default() };
    assert_eq!(cfg.sps(), 0);
    let mut samples = vec![0.0; 10];
    samples.extend(make_chirp(&cfg));
    assert_eq!(decode_samples(&samples, &cfg), Err(DecodeError::Truncated));
    // A single sample of data holds no symbol.
    samples.push(0.0);
    let (lock, _) = lock_on(&samples, &cfg);
    let (hit, chirp_len) = lock.unwrap();
    let start = Float::floor(locate_data(&hit, chirp_len, &cfg));
    assert_eq!(start, samples.len() - 1);
    assert_eq!(
        decode_samples(&samples, &cfg),
        Err(DecodeError::Frame(FrameError::TooShort))
    );
}

#[test]
fn two_runs_agree() {
    let cfg = Config::<Float>::default();
    let samples = encode_samples(b"twice", &cfg).unwrap();
    assert_eq!(samples, encode_samples(b"twice", &cfg).unwrap());
    let (r, t) = decode_samples_traced(&samples, &cfg);
    let (q, u) = decode_samples_traced(&samples, &cfg);
    assert_eq!(r, q);
    assert_eq!(decode_samples(&samples, &cfg), r);
    assert_eq!(t.symbols, u.symbols);
    assert_eq!(t.pre_eq_symbols, u.pre_eq_symbols);
    assert_eq!(t.best_phase_offset, u.best_phase_offset);
    assert_eq!(stft::<Float>(&samples, 64, 32), stft::<Float>(&samples, 64, 32));
}

#[test]
fn receiver_reports_a_frame_that_is_cut_short() {
    let cfg = Config::<Float>::default();
    let samples = encode_samples(b"cut me short", &cfg).unwrap();
    let few = &samples[..2_400 + 96 + 48 * 40];
    assert_eq!(
        decode_samples(few, &cfg),
        Err(DecodeError::Frame(FrameError::TooShort))
    );
}

#[test]
fn restored_symbols_deliver_the_payload() {
    let cfg = Config::<Float>::default();
    let payload = b"read me".to_vec();
    let samples = encode_samples(&payload, &cfg).unwrap();
    let (result, trace) = decode_samples_traced(&samples, &cfg);
    let sent = bytes_to_bits(&encode(&payload, Modulation::Bpsk).unwrap());
    let read = demodulate::<Float>(&trace.symbols);
    assert_eq!(read[..sent.len()], sent[..]);
    assert_eq!(result, Ok(payload));
}

#[test]
fn one_tap_channel_delivers_the_payload() {
    // A channel that doubles every symbol and turns it by a quarter.
    let channel = Complex::new(0.0, 2.0);
    let mut bits = bytes_to_bits(&encode(b"turned", Modulation::Bpsk).unwrap());
    bits.extend_from_slice(&[1, 0, 1]);
    let sent = modulate::<Float>(&bits);
    let raw: Vec<Complex<f32>> = sent.iter().map(|s| s * channel).collect();
    let targets = training_symbols::<Float>();
    let c = estimate_channel::<Float>(&raw[..16], &targets[..16]);
    assert_eq!(c, channel);
    let straight: Vec<Complex<f32>> = raw.iter().map(|s| s / c).collect();
    let mut dfe = Dfe::<Float>::new(DEFAULT_FFF_LEN, DEFAULT_FBF_LEN, default_mu::<Float>());
    let equalized = dfe.process(&straight, &targets, targets.len());
    assert_eq!(equalized, sent);
    assert_eq!(decode_bits(&demodulate::<Float>(&equalized)), Ok(b"turned".to_vec()));
}

#[test]
fn frame_bits_deliver_the_payload_whatever_follows() {
    let mut bits = bytes_to_bits(&encode(b"tail", Modulation::Bpsk).unwrap());
    bits.extend_from_slice(&[1, 1, 0, 1, 0, 1, 1, 1, 1, 0, 1]);
    assert_eq!(decode_bits(&bits), Ok(b"tail".to_vec()));
    bits[8 * 23] ^= 1;
    assert!(matches!(
        decode_bits(&bits),
        Err(DecodeError::Frame(FrameError::BadCrc { .. }))
    ));
}

// ---------------------------------------------------------------------------------------------
// spectrogram
// ---------------------------------------------------------------------------------------------

#[test]
fn stft_locates_known_tone() {
    let fs = 48_000.0_f32;
    let f0 = 1_000.0_f32;
    let n = 4096;
    let samples: Vec<f32> = (0..n).map(|i| (TAU * f0 * i as f32 / fs).sin()).collect();

    let window_size = 1024;
    let hop = 256;
    let spec = stft::<Float>(&samples, window_size, hop);
    assert!(!spec.is_empty());

    // Bin frequency = k * fs / window_size. For f0 = 1000 at fs = 48000,
    // window 1024, expected bin = 1000 / (48000/1024) ≈ 21.33.
    let bin_hz = fs / window_size as f32;
    let expected_bin = (f0 / bin_hz).round() as usize;

    // Take a middle frame; the tone fills the whole signal.
    let column = &spec[spec.len() / 2];
    let (peak_bin, _) = column
        .iter()
        .enumerate()
        .max_by(|a, b| a.1.partial_cmp(b.1).unwrap())
        .unwrap();
    assert!(
        peak_bin.abs_diff(expected_bin) <= 1,
        "peak at bin {peak_bin}, expected ~{expected_bin}"
    );
}

#[test]
fn stft_handles_short_input() {
    let spec = stft::<Float>(&[0.0; 10], 64, 16);
    assert!(spec.is_empty());
}

#[test]
fn stft_counts_frames_and_bins() {
    let spec = stft::<Float>(&[0.0; 100], 64, 16);
    assert_eq!(spec.len(), 3);
    for column in &spec {
        assert_eq!(column.len(), 33);
        for level in column {
            assert!((level + 9.0).abs() < 1e-4);
        }
    }
    assert_eq!(stft::<Float>(&[1.0; 64], 64, 1000).len(), 1);
}

#[test]
fn silence_is_finite_in_every_window() {
    for size in 1..=5 {
        let spec = stft::<Float>(&[0.0; 7], size, 1);
        assert_eq!(spec.len(), 8 - size);
        for column in &spec {
            assert_eq!(column.len(), size / 2 + 1);
            for level in column {
                assert!((level + 9.0).abs() < 1e-4);
            }
        }
    }
    assert_eq!(stft::<Float>(&[100.0], 1, 1), vec![vec![2.0]]);
}

#[test]
fn column_depends_on_its_own_frame() {
    let samples: Vec<f32> = (0..40).map(|i| (i as f32 * 0.7).sin()).collect();
    let spec = stft::<Float>(&samples, 16, 5);
    assert_eq!(spec.len(), 5);
    for (f, column) in spec.iter().enumerate() {
        let alone = stft::<Float>(&samples[f * 5..f * 5 + 16], 16, 5);
        assert_eq!(alone, vec![column.clone()]);
    }
}

// ---------------------------------------------------------------------------------------------
// tx
// ---------------------------------------------------------------------------------------------

#[test]
fn produces_nonempty_normalized_waveform() {
    let cfg = Config::<Float>::default();
    let samples = encode_samples(b"hi", &cfg).unwrap();
    assert!(!samples.is_empty());
    let peak = samples.iter().map(|x| x.abs()).fold(0.0, f32::max);
    assert!((peak - peak_target::<Float>()).abs() < 1e-4, "peak was {peak}");
}

#[test]
fn transmission_has_the_length_of_its_parts() {
    let cfg = Config::<Float>::default();
    assert_eq!(cfg.sps(), 48);
    assert_eq!(peak_target::<Float>(), 0.9);
    let samples = encode_samples(b"hi", &cfg).unwrap();
    assert_eq!(samples.len(), 2_400 + (POST_CHIRP_GAP_SYMBOLS + 8 * (27 + 2) + 8) * 48);
}

#[test]
fn transmitter_refuses_an_oversized_payload() {
    let cfg = Config::<Float>::default();
    let payload = vec![0u8; 65_536];
    assert_eq!(
        encode_samples(&payload, &cfg),
        Err(FrameError::PayloadTooLarge(65_536))
    );
}

#[test]
fn normalizing_scales_the_loudest_sample_to_the_target() {
    let mut samples = vec![0.25_f32, -0.5, 0.125];
    normalize_peak::<Float>(&mut samples, 0.75);
    assert_eq!(samples, vec![0.375, -0.75, 0.1875]);
    let mut silent = vec![0.0_f32; 3];
    normalize_peak::<Float>(&mut silent, 0.75);
    assert_eq!(silent, vec![0.0; 3]);
}

// ---------------------------------------------------------------------------------------------
// wav
// ---------------------------------------------------------------------------------------------

fn write_wav(samples: &[f32], sample_rate: u32) -> Vec<u8> {
    let spec = WavSpec {
        channels: 1,
        sample_rate,
        bits_per_sample: 16,
        sample_format: SampleFormat::Int,
    };
    let mut file = Cursor::new(Vec::new());
    let mut writer = WavWriter::new(&mut file, spec).unwrap();
    for v in to_pcm::<Float>(samples) {
        writer.write_sample(v).unwrap();
    }
    writer.finalize().unwrap();
    file.into_inner()
}

fn read_wav(file: Vec<u8>) -> (Vec<f32>, u32) {
    let mut reader = WavReader::new(Cursor::new(file)).unwrap();
    let spec = reader.spec();
    let interleaved: Vec<i32> = reader.samples::<i32>().map(|v| v.unwrap()).collect();
    let samples = from_pcm::<Float>(&interleaved, spec.channels as usize, spec.bits_per_sample);
    (samples, spec.sample_rate)
}

#[test]
fn roundtrip_through_wav() {
    let original: Vec<f32> = (0..1024)
        .map(|i| (i as f32 * 0.01).sin() * 0.5)
        .collect();
    let (back, sr) = read_wav(write_wav(&original, 48_000));
    assert_eq!(sr, 48_000);
    assert_eq!(back.len(), original.len());
    // Quantization tolerance for 16-bit.
    let q = 1.0 / i16::MAX as f32;
    for (a, b) in original.iter().zip(back.iter()) {
        assert!((a - b).abs() <= q * 2.0, "{} vs {}", a, b);
    }
}

#[test]
fn quantization_clamps() {
    assert_eq!(
        to_pcm::<Float>(&[0.0, 1.0, -1.0, 1.5, -1.5]),
        vec![0, 32_767, -32_767, 32_767, -32_768]
    );
}

#[test]
fn only_the_first_channel_is_read() {
    assert_eq!(from_pcm::<Float>(&[127, 5, -127, 6, 127], 2, 8), vec![1.0, -1.0, 1.0]);
}

#[test]
fn samples_stay_between_minus_one_and_one() {
    let y = from_pcm::<Float>(&[32_767, 0, -32_768, 0], 2, 16);
    assert_eq!(y, vec![1.0, -1.0]);
    assert_eq!(from_pcm::<Float>(&[-128, 127, 1], 1, 8), vec![-1.0, 1.0, 1.0 / 127.0]);
    assert_eq!(
        from_reals::<Float>(&[0.25, 9.0, 1.5, 9.0, -7.0], 2),
        vec![0.25, 1.0, -1.0]
    );
}

#[test]
fn wav_roundtrip() {
    let cfg = Config::<Float>::default();
    let payload = b"the quick brown fox jumps over the lazy dog 12345".to_vec();

    let samples = encode_samples(&payload, &cfg).unwrap();
    let (read_back, sr) = read_wav(write_wav(&samples, cfg.sample_rate));
    assert_eq!(sr, cfg.sample_rate);
    let decoded = decode_samples(&read_back, &cfg).expect("decode failed");
    assert_eq!(decoded, payload);
}

// ---------------------------------------------------------------------------------------------
// loopback
// ---------------------------------------------------------------------------------------------

#[test]
fn survives_moderate_awgn() {
    // 15 dB Es/N0 — comfortably above the ~9 dB BER=1e-3 threshold for DBPSK,
    // so a successful CRC pass is the expected outcome.
    let cfg = Config::<Float>::default();
    let payload: Vec<u8> = (0..128).map(|i| (i as u8).wrapping_mul(31) ^ 0x5a).collect();

    let clean = encode_samples(&payload, &cfg).unwrap();
    let signal_power: f32 = clean.iter().map(|s| s * s).sum::<f32>() / clean.len() as f32;
    let snr_db = 15.0_f32;
    let noise_power = signal_power / 10f32.powf(snr_db / 10.0);
    let sigma = noise_power.sqrt();

    let mut rng = LcgGauss::new(0xC0FFEE);
    let noisy: Vec<f32> = clean.iter().map(|s| s + sigma * rng.next()).collect();
    let decoded = decode_samples(&noisy, &cfg).expect("decode failed at 15 dB SNR");
    assert_eq!(decoded, payload);
}

#[test]
fn survives_fractional_timing_offset() {
    // Real acoustic channels never align to integer samples. Shift the entire
    // modulated waveform by a non-integer number of samples (linear interp on
    // the signal itself) and verify the decoder still recovers the payload.
    let cfg = Config::<Float>::default();
    let payload = b"fractional timing offsets must not break us".to_vec();
    let clean = encode_samples(&payload, &cfg).unwrap();

    for &frac in &[0.13_f32, 0.37, 0.5, 0.71, 0.89] {
        let pre_int = 800usize;
        let mut shifted = vec![0.0_f32; pre_int + clean.len() + 8];
        for i in 0..clean.len() {
            let target = pre_int as f32 + i as f32 + frac;
            let lo = target.floor() as usize;
            let f = target - lo as f32;
            shifted[lo] += clean[i] * (1.0 - f);
            shifted[lo + 1] += clean[i] * f;
        }
        let decoded = decode_samples(&shifted, &cfg)
            .unwrap_or_else(|e| panic!("decode failed at frac={frac}: {}", e.message()));
        assert_eq!(decoded, payload, "payload mismatch at frac={frac}");
    }
}

#[test]
fn loopback_rejects_pure_noise() {
    let cfg = Config::<Float>::default();
    let mut rng = LcgGauss::new(0xDEAD_BEEF);
    let n = 96_000; // 2 seconds at 48 kHz
    let noise: Vec<f32> = (0..n).map(|_| 0.3 * rng.next()).collect();
    assert!(decode_samples(&noise, &cfg).is_err());
}

/// LCG + Box-Muller for deterministic Gaussian samples without pulling in `rand`.
struct LcgGauss {
    state: u64,
    cached: Option<f32>,
}

impl LcgGauss {
    fn new(seed: u64) -> Self {
        Self {
            state: seed.wrapping_mul(6364136223846793005).wrapping_add(1442695040888963407),
            cached: None,
        }
    }

    fn uniform(&mut self) -> f32 {
        // Numerical Recipes LCG constants. 53-bit-ish output via the top 24 bits.
        self.state = self
            .state
            .wrapping_mul(6364136223846793005)
            .wrapping_add(1442695040888963407);
        let bits = (self.state >> 40) as u32; // 24 bits
        (bits as f32 + 0.5) / (1u32 << 24) as f32
    }

    fn next(&mut self) -> f32 {
        if let Some(v) = self.cached.take() {
            return v;
        }
        // Box-Muller, clamped away from 0 to keep ln() finite.
        let u1 = self.uniform().max(1e-9);
        let u2 = self.uniform();
        let r = (-2.0 * u1.ln()).sqrt();
        let theta = TAU * u2;
        self.cached = Some(r * theta.sin());
        r * theta.cos()
    }
}

// ---------------------------------------------------------------------------------------------
// config, in numbers
// ---------------------------------------------------------------------------------------------

#[test]
fn default_config_has_the_documented_values() {
    let cfg = Config::<Float>::default();
    assert_eq!(cfg.sample_rate, 48_000);
    assert_eq!(cfg.carrier_hz, 6_000.0);
    assert_eq!(cfg.baud, 1_000);
    assert_eq!(cfg.rrc_beta, 0.35);
    assert_eq!(cfg.rrc_span_symbols, 8);
    assert_eq!(cfg.chirp_dur_ms, 50.0);
    assert_eq!((cfg.chirp_f0_hz, cfg.chirp_f1_hz), (4_000.0, 8_000.0));
    assert_eq!(cfg.chirp_detect_threshold, 0.3);
    assert_eq!(cfg.modulation, Modulation::Bpsk);
    let copy = Config { baud: 9_600, ..cfg.clone() };
    assert_eq!(copy.sps(), 5);
    assert_eq!(copy.carrier_hz, cfg.carrier_hz);
}

#[test]
fn filling_repeats_a_value() {
    assert_eq!(filled(7u8, 3), vec![7, 7, 7]);
    assert!(filled(7u8, 0).is_empty());
}
