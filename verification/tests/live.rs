use std::collections::VecDeque;

use chirpy_core::arith::Arithmetic;
use chirpy_core::capture::{
    after_attempt, buffer_limit, check_input, check_output, receive_mode, roll_in, time_is_up,
    trim_capture, wake, DeviceFault, Listening, ReceiveMode, BUFFER_CAPACITY_SECONDS,
};
use chirpy_core::frame::FrameError;
use chirpy_core::monitor::{
    build_status, constellation_scale, constellation_title, decay, decibels, draw_spectrogram,
    goes_on, heat_color, lock_state, magnitude_window, percentile_window, quits, recent_points,
    render_spectrogram, spectrogram_title, DecoderLog, Heat, Key, Lock, Readings, Tone, CONSTELLATION_POINTS, SPECTROGRAM_SECONDS,
};
use chirpy_core::order::sort;
use chirpy_core::playback::fill_output;
use chirpy_core::rx::DecodeError;
use chirpy_core::wav::{first_channel, full_scale};
use num_complex::Complex;

/// Single-precision floats.
struct Float;

impl Arithmetic for Float {
    type Real = f32;
    type Symbol = Complex<f32>;

    const ZERO: f32 = 0.0;
    const ONE: f32 = 1.0;
    const LOWEST: f32 = f32::MIN;
    const PI: f32 = std::f32::consts::PI;
    const TAU: f32 = std::f32::consts::TAU;
    const ROOT_TWO: f32 = std::f32::consts::SQRT_2;
    const ORIGIN: Complex<f32> = Complex { re: 0.0, im: 0.0 };
    const SPACE: Complex<f32> = Complex { re: 1.0, im: 0.0 };
    const MARK: Complex<f32> = Complex { re: -1.0, im: 0.0 };

    fn fraction(num: u64, den: u64) -> f32 {
        if den == 1 {
            num as f32
        } else {
            (num as f64 / den as f64) as f32
        }
    }

    fn count(n: usize) -> f32 {
        n as f32
    }

    fn offset(n: i32) -> f32 {
        n as f32
    }

    fn plus(a: f32, b: f32) -> f32 {
        a + b
    }

    fn minus(a: f32, b: f32) -> f32 {
        a - b
    }

    fn times(a: f32, b: f32) -> f32 {
        a * b
    }

    fn over(a: f32, b: f32) -> f32 {
        a / b
    }

    fn negated(a: f32) -> f32 {
        -a
    }

    fn square(a: f32) -> f32 {
        a.powi(2)
    }

    fn sine(a: f32) -> f32 {
        a.sin()
    }

    fn cosine(a: f32) -> f32 {
        a.cos()
    }

    fn logarithm(a: f32) -> f32 {
        a.log10()
    }

    fn rounded(a: f32) -> f32 {
        a.round()
    }

    fn magnitude(a: f32) -> f32 {
        a.abs()
    }

    fn root(a: f32) -> f32 {
        a.sqrt()
    }

    fn larger(a: f32, b: f32) -> f32 {
        a.max(b)
    }

    fn exceeds(a: f32, b: f32) -> bool {
        a > b
    }

    fn reaches(a: f32, b: f32) -> bool {
        a >= b
    }

    fn below(a: f32, b: f32) -> bool {
        a < b
    }

    fn floor(a: f32) -> usize {
        a.floor() as usize
    }

    fn nearest(a: f32) -> usize {
        a.round() as usize
    }

    fn sample(a: f32) -> i16 {
        a as i16
    }

    fn symbol(re: f32, im: f32) -> Complex<f32> {
        Complex::new(re, im)
    }

    fn real_part(s: Complex<f32>) -> f32 {
        s.re
    }

    fn imaginary_part(s: Complex<f32>) -> f32 {
        s.im
    }

    fn modulus(s: Complex<f32>) -> f32 {
        s.norm()
    }

    fn sum(a: Complex<f32>, b: Complex<f32>) -> Complex<f32> {
        a + b
    }

    fn difference(a: Complex<f32>, b: Complex<f32>) -> Complex<f32> {
        a - b
    }

    fn quotient(a: Complex<f32>, b: Complex<f32>) -> Complex<f32> {
        a / b
    }

    fn scaled(s: Complex<f32>, a: f32) -> Complex<f32> {
        s * a
    }

    fn share(s: Complex<f32>, a: f32) -> Complex<f32> {
        s / a
    }

    fn energy(s: Complex<f32>) -> f32 {
        s.norm_sqr()
    }

    fn product(a: Complex<f32>, b: Complex<f32>) -> Complex<f32> {
        a * b
    }

    fn conjugate_product(a: Complex<f32>, b: Complex<f32>) -> Complex<f32> {
        a * b.conj()
    }
}

// ---------------------------------------------------------------------------------------------
// capture
// ---------------------------------------------------------------------------------------------

#[test]
fn input_device_must_match() {
    assert_eq!(check_input(48_000, 48_000, true), Ok(()));
    let rate = check_input(44_100, 48_000, false).unwrap_err();
    assert_eq!(rate, DeviceFault::SampleRate { device: 44_100, requested: 48_000 });
    assert_eq!(
        rate.input_message("I16"),
        "input device sample rate 44100 != requested 48000 — pass --sample-rate 44100"
    );
    assert_eq!(
        rate.display_message("I16"),
        "input device sample rate 44100 != requested 48000"
    );
    let format = check_input(48_000, 48_000, false).unwrap_err();
    assert_eq!(
        format.input_message("I16"),
        "input device sample format is I16; only f32 is supported in v1"
    );
    assert_eq!(
        format.display_message("I16"),
        "input device format is I16; only f32 is supported"
    );
}

#[test]
fn output_device_must_match() {
    assert_eq!(check_output(48_000, 48_000), Ok(()));
    assert_eq!(
        check_output(44_100, 48_000),
        Err("output device sample rate 44100 != requested 48000 — \
             pass --sample-rate 44100 to match, or use --wav for offline encode"
            .to_string())
    );
}

#[test]
fn capture_is_trimmed_to_half_its_limit() {
    let mut buf = vec![1, 2, 3, 4, 5, 6];
    trim_capture(&mut buf, 6);
    assert_eq!(buf, vec![1, 2, 3, 4, 5, 6]);
    trim_capture(&mut buf, 5);
    assert_eq!(buf, vec![5, 6]);
    trim_capture(&mut buf, 0);
    assert!(buf.is_empty());
}

#[test]
fn capture_limits_are_counted_in_samples() {
    assert_eq!(buffer_limit::<Float>(BUFFER_CAPACITY_SECONDS, 48_000), 288_000);
    assert_eq!(buffer_limit::<Float>(SPECTROGRAM_SECONDS, 44_100), 132_300);
}

#[test]
fn ring_keeps_the_newest_samples() {
    let mut ring: VecDeque<f32> = VecDeque::new();
    let peak = roll_in::<Float>(&mut ring, &[0.5, 9.0, -0.75, 9.0, 0.25], 2, 4);
    assert_eq!(peak, 0.75);
    assert_eq!(ring, vec![0.5, -0.75, 0.25]);
    let peak = roll_in::<Float>(&mut ring, &[1.0, 2.0], 1, 4);
    assert_eq!(peak, 2.0);
    assert_eq!(ring, vec![-0.75, 0.25, 1.0, 2.0]);
    assert_eq!(roll_in::<Float>(&mut ring, &[], 2, 4), 0.0);
    assert_eq!(ring.len(), 4);
}

#[test]
fn ring_does_not_see_block_borders() {
    let data: Vec<f32> = (0..13).map(|i| i as f32).collect();
    let mut once: VecDeque<f32> = VecDeque::new();
    roll_in::<Float>(&mut once, &data, 1, 5);
    let mut twice: VecDeque<f32> = VecDeque::new();
    roll_in::<Float>(&mut twice, &data[..7], 1, 5);
    roll_in::<Float>(&mut twice, &data[7..], 1, 5);
    assert_eq!(once, twice);
    assert_eq!(once, vec![8.0, 9.0, 10.0, 11.0, 12.0]);
}

#[test]
fn receiver_wakes_until_time_is_up() {
    assert!(!time_is_up(30, 30));
    assert!(time_is_up(31, 30));
    let mut buf = vec![1, 2, 3, 4, 5];
    assert_eq!(wake(30, 30, &mut buf, 4), Some(vec![4, 5]));
    assert_eq!(buf, vec![4, 5]);
    assert_eq!(wake(31, 30, &mut buf, 1), None);
    assert_eq!(buf, vec![4, 5]);
}

#[test]
fn receiver_goes_on_after_a_failed_attempt() {
    assert!(matches!(after_attempt(Ok(vec![7])), Listening::Done(p) if p == [7]));
    assert!(matches!(after_attempt(Err(DecodeError::ChirpNotFound)), Listening::Quiet));
    assert!(matches!(
        after_attempt(Err(DecodeError::Truncated)),
        Listening::Unreadable(DecodeError::Truncated)
    ));
    assert!(matches!(
        after_attempt(Err(DecodeError::Frame(FrameError::BadSync))),
        Listening::Unreadable(DecodeError::Frame(FrameError::BadSync))
    ));
}

#[test]
fn display_is_for_live_audio() {
    assert_eq!(receive_mode(false, false), Some(ReceiveMode::Live));
    assert_eq!(receive_mode(false, true), Some(ReceiveMode::File));
    assert_eq!(receive_mode(true, false), Some(ReceiveMode::Display));
    assert_eq!(receive_mode(true, true), None);
}

#[test]
fn first_channel_of_frames() {
    assert_eq!(first_channel(&[1, 2, 3, 4, 5], 1), vec![1, 2, 3, 4, 5]);
    assert_eq!(first_channel(&[1, 2, 3, 4, 5], 2), vec![1, 3, 5]);
    assert_eq!(first_channel(&[1, 2, 3, 4, 5], 9), vec![1]);
    assert_eq!(first_channel::<u8>(&[], 3), Vec::<u8>::new());
}

#[test]
fn full_scale_of_integer_samples() {
    assert_eq!(full_scale(1), 0);
    assert_eq!(full_scale(8), 127);
    assert_eq!(full_scale(16), 32_767);
    assert_eq!(full_scale(32), 2_147_483_647);
    assert_eq!(full_scale(64), i64::MAX as u64);
}

// ---------------------------------------------------------------------------------------------
// playback
// ---------------------------------------------------------------------------------------------

#[test]
fn playback_fills_every_channel_and_ends_in_silence() {
    let samples = [1, 2, 3];
    let mut data = [9; 5];
    assert_eq!(fill_output(&samples, 0, &mut data, 2, 0), (2, false));
    assert_eq!(data, [1, 1, 2, 2, 9]);
    let mut data = [9; 4];
    assert_eq!(fill_output(&samples, 2, &mut data, 2, 0), (4, true));
    assert_eq!(data, [3, 3, 0, 0]);
    assert_eq!(fill_output(&samples, 4, &mut data, 2, 0), (6, true));
    assert_eq!(data, [0; 4]);
}

#[test]
fn playback_is_seamless() {
    let samples = [1, 2, 3, 4, 5];
    let mut whole = [0; 8];
    fill_output(&samples, 1, &mut whole, 2, 0);
    let mut first = [0; 4];
    let (next, _) = fill_output(&samples, 1, &mut first, 2, 0);
    let mut second = [0; 4];
    fill_output(&samples, next, &mut second, 2, 0);
    assert_eq!(whole[..4], first);
    assert_eq!(whole[4..], second);
}

// ---------------------------------------------------------------------------------------------
// monitor
// ---------------------------------------------------------------------------------------------

#[test]
fn decoder_log_hands_out_news_only() {
    let mut log = DecoderLog::new();
    let r = log.record(Err(DecodeError::ChirpNotFound));
    assert!(r.write.is_none() && !r.clear);
    let r = log.record(Ok(vec![1, 2]));
    assert_eq!((r.write, r.clear), (Some(vec![1, 2]), true));
    let r = log.record(Ok(vec![1, 2]));
    assert_eq!((r.write, r.clear), (None, true));
    let r = log.record(Ok(vec![1, 3]));
    assert_eq!((r.write, r.clear), (Some(vec![1, 3]), true));
    let r = log.record(Ok(vec![]));
    assert_eq!((r.write, r.clear), (Some(vec![]), true));
    assert_eq!((log.attempts, log.successes, log.last_payload_len), (5, 4, Some(0)));
}

#[test]
fn keys_that_quit() {
    assert!(quits(Key::Char('q'), false) && quits(Key::Char('q'), true));
    assert!(quits(Key::Esc, false));
    assert!(quits(Key::Char('c'), true) && !quits(Key::Char('c'), false));
    assert!(!quits(Key::Char('Q'), false) && !quits(Key::Other, true));
}

#[test]
fn display_runs_until_shut_down_or_time_is_up() {
    assert!(goes_on(false, 1_000, None));
    assert!(goes_on(false, 30, Some(30)));
    assert!(!goes_on(false, 31, Some(30)));
    assert!(!goes_on(true, 0, None));
}

#[test]
fn meter_decays() {
    assert_eq!(decay::<Float>(0.5), 0.5 * 0.80);
}

#[test]
fn level_is_shown_in_decibels() {
    assert_eq!(decibels::<Float>(1.0), 0.0);
    assert_eq!(decibels::<Float>(0.1), -20.0);
    assert_eq!(decibels::<Float>(1e-6), -120.0);
    assert_eq!(decibels::<Float>(0.0), -120.0);
}

#[test]
fn percentiles_of_sorted_values() {
    let sorted: Vec<i32> = (0..100).collect();
    assert_eq!(percentile_window(&sorted), (5, 95));
    assert_eq!(percentile_window(&[7]), (7, 7));
}

#[test]
fn heat_runs_from_black_to_red() {
    assert_eq!(heat_color::<Float>(0.0), Heat::Black);
    assert_eq!(heat_color::<Float>(0.1), Heat::Navy);
    assert_eq!(heat_color::<Float>(0.33), Heat::Blue);
    assert_eq!(heat_color::<Float>(0.5), Heat::Cyan);
    assert_eq!(heat_color::<Float>(0.67), Heat::Green);
    assert_eq!(heat_color::<Float>(0.83), Heat::Yellow);
    assert_eq!(heat_color::<Float>(1.0), Heat::Red);
    assert_eq!(heat_color::<Float>(5.0), Heat::Red);
}

#[test]
fn spectrogram_fills_from_the_right_and_rises_to_the_top() {
    // Two columns of three bins in an area of three by three cells.
    let columns = vec![vec![0.0_f32, 0.5, 1.0], vec![-3.0, 9.0, 0.5]];
    let cells = draw_spectrogram::<Float>(&columns, 3, 3, 0.0, 1.0);
    let expected = vec![
        None, Some(Heat::Red), Some(Heat::Cyan),
        None, Some(Heat::Cyan), Some(Heat::Red),
        None, Some(Heat::Black), Some(Heat::Black),
    ];
    assert_eq!(cells, expected);
}

#[test]
fn spectrogram_shows_the_newest_columns() {
    let columns = vec![vec![0.0_f32, 1.0], vec![1.0, 0.0], vec![0.0, 0.0]];
    let cells = draw_spectrogram::<Float>(&columns, 2, 1, 0.0, 1.0);
    // A single row shows the lowest bin.
    assert_eq!(cells, vec![Some(Heat::Red), Some(Heat::Black)]);
    assert!(draw_spectrogram::<Float>(&columns, 0, 4, 0.0, 1.0).is_empty());
    assert_eq!(draw_spectrogram::<Float>(&[], 2, 1, 0.0, 1.0), vec![None, None]);
}

#[test]
fn sorting_puts_values_in_order() {
    let values = [3.0_f32, -1.0, 2.0, 2.0, 0.5, -7.25, 3.0];
    assert_eq!(sort::<Float>(&values), vec![-7.25, -1.0, 0.5, 2.0, 2.0, 3.0, 3.0]);
    assert!(sort::<Float>(&[]).is_empty());
}

#[test]
fn magnitude_window_is_taken_over_all_columns() {
    // The values from 0 to 99, ten a column, not in order.
    let columns: Vec<Vec<f32>> =
        (0..10).map(|c| (0..10).map(|k| ((c * 37 + k * 10) % 100) as f32 + 0.0).collect()).collect();
    let mut all: Vec<f32> = columns.concat();
    all.sort_by(|a, b| a.partial_cmp(b).unwrap());
    assert_eq!(magnitude_window::<Float>(&columns), (all[5], all[95]));
    assert_eq!(magnitude_window::<Float>(&[vec![4.0]]), (4.0, 4.0));
}

#[test]
fn rendering_scales_to_the_magnitudes() {
    let columns = vec![vec![0.0_f32, 0.5, 1.0], vec![-3.0, 9.0, 0.5]];
    let (lo, hi) = magnitude_window::<Float>(&columns);
    assert_eq!((lo, hi), (-3.0, 9.0));
    assert_eq!(
        render_spectrogram::<Float>(&columns, 3, 3),
        draw_spectrogram::<Float>(&columns, 3, 3, lo, hi)
    );
    assert_eq!(render_spectrogram::<Float>(&[], 2, 1), vec![None, None]);
    assert!(render_spectrogram::<Float>(&columns, 0, 1).is_empty());
    // Columns may be longer than the first; what is beyond it is not shown.
    let ragged = vec![vec![0.0_f32, 1.0], vec![1.0, 0.0, 9.0]];
    assert_eq!(
        draw_spectrogram::<Float>(&ragged, 2, 2, 0.0, 1.0),
        vec![Some(Heat::Red), Some(Heat::Black), Some(Heat::Black), Some(Heat::Red)]
    );
}

#[test]
fn flat_window_is_not_divided_by_zero() {
    let columns = vec![vec![2.0_f32, 2.0]];
    assert_eq!(
        draw_spectrogram::<Float>(&columns, 1, 2, 2.0, 2.0),
        vec![Some(Heat::Black), Some(Heat::Black)]
    );
}

#[test]
fn constellation_shows_the_latest_points() {
    assert_eq!(recent_points(&[1, 2, 3]), vec![3, 2, 1]);
    let many: Vec<usize> = (0..1_000).collect();
    let points = recent_points(&many);
    assert_eq!(points.len(), CONSTELLATION_POINTS);
    assert_eq!((points[0], points[511]), (999, 488));
}

#[test]
fn constellation_axes_follow_the_points() {
    assert_eq!(constellation_scale::<Float>(&[]), 2.5);
    let points = [Complex::new(3.0, 4.0), Complex::new(-3.0, 4.0)];
    assert_eq!(constellation_scale::<Float>(&points), 12.5);
    assert_eq!(constellation_scale::<Float>(&[Complex::new(0.0, 0.0)]), 2.5e-6);
}

#[test]
fn titles_give_ranges() {
    assert_eq!(spectrogram_title(48_000), " Spectrogram  ·  0–24000 Hz  ·  last 3.0s ");
    assert_eq!(constellation_title(7), " Constellation  ·  7 pts ");
    assert_eq!(constellation_title(70_000), " Constellation  ·  512 pts ");
}

#[test]
fn lock_depends_on_the_threshold() {
    assert_eq!(lock_state::<Float>(0.5, 0.5), Lock::Locked);
    assert_eq!(lock_state::<Float>(0.25, 0.5), Lock::Near);
    assert_eq!(lock_state::<Float>(0.2, 0.5), Lock::Absent);
}

fn readings(lock: Lock) -> Readings {
    Readings {
        carrier: "6000".to_string(),
        baud: 1_000,
        sample_rate: 48_000,
        input: " -12.3".to_string(),
        chirp_ratio: " 0.72".to_string(),
        lock,
        sub_sample: "+0.25".to_string(),
        best_phase_offset: -3,
        attempts: 12,
        successes: 2,
        last_payload_len: Some(5),
        last_attempt: Some("0.1".to_string()),
    }
}

#[test]
fn status_tells_what_was_seen() {
    let lines = build_status(&readings(Lock::Locked));
    let text: Vec<String> = lines.iter().map(|l| format!("{}{}", l.label, l.value)).collect();
    let expected = vec![
        "Carrier   6000 Hz",
        "Baud      1000",
        "Sample rt 48000 Hz",
        "",
        "Input     -12.3 dBFS",
        "Chirp     0.72  lock ✓",
        "Sub-samp +0.25",
        "Best Δφ  -3 samples",
        "",
        "Attempts 12",
        "Decoded  2",
        "Last     5 B",
        "Seen     0.1s ago",
        "",
        "q / Esc / Ctrl-C  →  quit",
    ];
    assert_eq!(text, expected);
    assert_eq!((lines[5].tone, lines[5].bold), (Tone::Green, true));
    assert_eq!((lines[10].tone, lines[10].bold), (Tone::Green, false));
    assert_eq!((lines[0].tone, lines[0].bold), (Tone::Plain, false));
}

#[test]
fn status_without_a_signal() {
    let lines = build_status(&Readings {
        best_phase_offset: 0,
        attempts: 0,
        successes: 0,
        last_payload_len: None,
        last_attempt: None,
        ..readings(Lock::Absent)
    });
    assert_eq!(lines[5].value, " 0.72  —");
    assert_eq!(lines[5].tone, Tone::Gray);
    assert_eq!(lines[7].value, "+0 samples");
    assert_eq!((lines[10].value.as_str(), lines[10].tone), ("0", Tone::Reset));
    assert_eq!(lines[11].value, "—");
    assert_eq!(lines[12].value, "—");
    assert_eq!(build_status(&readings(Lock::Near))[5].tone, Tone::Yellow);
}
