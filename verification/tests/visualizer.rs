//! End-to-end tests of the spectrum visualizer core: fixed-point
//! primitives, frequency mapping, smoothing, shaping and rendering.

use spectrometer::fixed::{fexp2, flog2, map_range, ONE};
use spectrometer::mapper::{bin_to_frequency, scale_position, Scale};
use spectrometer::render::{gradient_color_map, RenderOutput, Rgb, Spectrometer, Style, VisEvents};
use spectrometer::shaper::{amp_of_db, shape_db, ZERO_DB};
use spectrometer::smoothing::{blend, smooth_frame, Bin, DEFAULT_HISTORY};

const GRAY: Rgb = Rgb { r: 128, g: 128, b: 128 };

#[test]
fn map_range_midpoint() {
    assert_eq!(map_range(5, 0, 10, 0, 100), 50);
}

#[test]
fn map_range_clamps_out_of_range_values() {
    assert_eq!(map_range(20, 0, 10, 0, 100), 100);
    assert_eq!(map_range(0, 5, 10, 0, 100), 0);
}

#[test]
fn map_range_collapsed_source_yields_low_edge() {
    assert_eq!(map_range(5, 10, 10, 7, 100), 7);
}

#[test]
fn flog2_exact_at_powers_of_two() {
    assert_eq!(flog2(ONE), 0);
    assert_eq!(flog2(2 * ONE), ONE);
    assert_eq!(flog2(4 * ONE), 2 * ONE);
}

#[test]
fn flog2_interpolates_within_octave() {
    // 1.5 in Q16.16 sits halfway between the octave's endpoints
    assert_eq!(flog2(98304), 32768);
}

#[test]
fn fexp2_exact_at_integers_and_linear_between() {
    assert_eq!(fexp2(0), ONE);
    assert_eq!(fexp2(2 * ONE), 4 * ONE);
    assert_eq!(fexp2(32768), 98304);
}

#[test]
fn log_and_exp_are_monotone_over_a_sweep() {
    let mut prev_log: u64 = 0;
    let mut prev_exp: u64 = 0;
    let mut x: u64 = ONE;
    while x < 1000 * ONE {
        let l = flog2(x);
        let e = fexp2(x / 100);
        assert!(l >= prev_log);
        assert!(e >= prev_exp);
        prev_log = l;
        prev_exp = e;
        x += 12345;
    }
}

#[test]
fn bin_zero_is_dc_and_last_bin_is_nyquist() {
    assert_eq!(bin_to_frequency(0, 1024, 44100), 0);
    assert_eq!(bin_to_frequency(1024, 1024, 44100), 22050 * ONE);
}

#[test]
fn bin_512_of_1024_is_quarter_sample_rate() {
    assert_eq!(bin_to_frequency(512, 1024, 44100), 11025 * ONE);
}

#[test]
fn linear_midpoint_scenario() {
    // 11025 Hz on a 1000-pixel linear axis over [20 Hz, 22050 Hz] lands a
    // hair under pixel 500
    let f = bin_to_frequency(512, 1024, 44100);
    let pos = scale_position(f, Scale::Linear, 44100, 1000 * ONE);
    assert_eq!(pos, 32738251);
    assert_eq!(pos / ONE, 499);
}

#[test]
fn logarithmic_position_of_quarter_sample_rate() {
    let f = bin_to_frequency(512, 1024, 44100);
    assert_eq!(scale_position(f, Scale::Logarithmic, 44100, 1000 * ONE), 59044603);
}

#[test]
fn square_root_position_of_quarter_sample_rate() {
    let f = bin_to_frequency(512, 1024, 44100);
    assert_eq!(scale_position(f, Scale::Root(32768), 44100, 1000 * ONE), 47876257);
}

#[test]
fn scale_position_monotone_over_bins_every_variant() {
    for scale in [Scale::Linear, Scale::Logarithmic, Scale::Root(32768), Scale::Root(131072)] {
        let mut prev: u64 = 0;
        for i in 1..512u64 {
            let f = bin_to_frequency(i, 512, 48000);
            let p = scale_position(f, scale, 48000, 800 * ONE);
            assert!(p >= prev);
            assert!(p <= 800 * ONE);
            prev = p;
        }
    }
}

#[test]
fn collapsed_band_maps_to_zero() {
    // at 40 Hz the band [20 Hz, 20 Hz] is empty; no division happens
    assert_eq!(scale_position(30 * ONE, Scale::Linear, 40, 1000 * ONE), 0);
    assert_eq!(scale_position(30 * ONE, Scale::Logarithmic, 40, 1000 * ONE), 0);
    assert_eq!(scale_position(30 * ONE, Scale::Root(32768), 40, 1000 * ONE), 0);
}

#[test]
fn blend_holds_steady_state() {
    // a value blended with itself does not drift
    assert_eq!(blend(123456, 123456, 32768), 123456);
    assert_eq!(blend(90 * ONE, 90 * ONE, 58982), 90 * ONE);
}

#[test]
fn bin_attack_blend_scenario() {
    // history -90 dB, new value -20 dB: rising, so the attack coefficient
    // 0.5 applies and the history lands at -55 dB
    let mut b = Bin::new(0);
    assert_eq!(b.get_smooth_val(), 0);
    b.update(160 * ONE);
    assert_eq!(b.get_smooth_val(), 125 * ONE);
}

#[test]
fn bin_new_seeds_history_at_minus_ninety() {
    let b = Bin::new(42);
    assert_eq!(b.get_raw_val(), 42);
    assert_eq!(b.history, DEFAULT_HISTORY);
    assert_eq!(b.get_frequency(), 0);
}

#[test]
fn bin_setters_take_effect() {
    let mut b = Bin::new(0);
    b.set_frequency(1000 * ONE);
    assert_eq!(b.get_frequency(), 1000 * ONE);
    b.set_attack(1000);
    b.set_release(60000);
    // falling: release weighs the history
    b.update(DEFAULT_HISTORY);
    b.update(0);
    let expected = (DEFAULT_HISTORY as u128 * 60000 / 65536) as u64;
    assert_eq!(b.get_smooth_val(), expected);
}

#[test]
fn bin_update_steady_state_is_idempotent() {
    let mut b = Bin::new(0);
    b.update(DEFAULT_HISTORY);
    assert_eq!(b.get_smooth_val(), DEFAULT_HISTORY);
    b.update(DEFAULT_HISTORY);
    assert_eq!(b.get_smooth_val(), DEFAULT_HISTORY);
}

#[test]
fn bin_update_converges_to_constant_input() {
    let mut b = Bin::new(0);
    let target: u64 = 170 * ONE;
    for _ in 0..2000 {
        b.update(target);
    }
    // within one quantum per step of the target: 65536 / (65536 - 32768)
    assert!(b.get_smooth_val() <= target);
    assert!(target - b.get_smooth_val() <= 2);
}

#[test]
fn smooth_frame_blends_matching_lengths() {
    let mut data: Vec<u64> = vec![100 * ONE, 200 * ONE];
    let new_data: Vec<u64> = vec![200 * ONE, 100 * ONE];
    smooth_frame(&mut data, &new_data, 32768);
    assert_eq!(data, vec![150 * ONE, 150 * ONE]);
}

#[test]
fn smooth_frame_reseeds_on_length_change() {
    let mut data: Vec<u64> = vec![100 * ONE, 200 * ONE];
    let new_data: Vec<u64> = vec![1, 2, 3];
    smooth_frame(&mut data, &new_data, 32768);
    assert_eq!(data, vec![1, 2, 3]);
}

#[test]
fn smooth_frame_matches_bin_filter_with_symmetric_coefficients() {
    // the vector filter with factor t is the per-bin filter with
    // attack == release == 65536 - t
    let t: u64 = 20000;
    let mut data: Vec<u64> = vec![100 * ONE];
    let new_data: Vec<u64> = vec![130 * ONE];
    smooth_frame(&mut data, &new_data, t);
    let mut b = Bin::new(0);
    b.history = 100 * ONE;
    b.set_attack(65536 - t);
    b.set_release(65536 - t);
    b.update(130 * ONE);
    assert_eq!(data[0], b.get_smooth_val());
}

#[test]
fn shaper_clamps_at_zero_db() {
    // +3 dB per octave at 1 kHz adds about 30 dB; 0 dB input clamps back
    assert_eq!(shape_db(ZERO_DB, 1000 * ONE, 3 * ONE as i64), ZERO_DB);
}

#[test]
fn shaper_tilts_by_slope_times_octaves() {
    // -30 dB at 1 kHz with +3 dB per octave lands just under 0 dB
    assert_eq!(shape_db(150 * ONE, 1000 * ONE, 3 * ONE as i64), 11787264);
}

#[test]
fn shaper_negative_slope_saturates_at_floor() {
    assert_eq!(shape_db(ONE, 1000 * ONE, -(3 * ONE as i64)), 0);
}

#[test]
fn amplitude_of_zero_db_is_one() {
    assert_eq!(amp_of_db(ZERO_DB), ONE);
}

#[test]
fn amplitude_halves_every_six_db() {
    // 6.0206 dB below the reference is exactly one octave down
    assert_eq!(amp_of_db(ZERO_DB - 394567), 32768);
}

#[test]
fn amplitude_stays_in_unit_range() {
    let mut db: u64 = 0;
    while db <= ZERO_DB {
        let a = amp_of_db(db);
        assert!(a <= ONE);
        db += 65536;
    }
    assert_eq!(amp_of_db(90 * ONE), 2);
}

#[test]
fn gradient_color_is_grayscale() {
    assert_eq!(gradient_color_map(ONE), Rgb { r: 255, g: 255, b: 255 });
    assert_eq!(gradient_color_map(0), Rgb { r: 0, g: 0, b: 0 });
    // half amplitude rounds to the nearest channel value, 128
    assert_eq!(gradient_color_map(32768), Rgb { r: 128, g: 128, b: 128 });
}

#[test]
fn root_of_one_matches_linear() {
    // an exponent of exactly 1.0 degenerates to the linear scale
    for i in [1u64, 100, 256, 511] {
        let f = bin_to_frequency(i, 512, 48000);
        assert_eq!(
            scale_position(f, Scale::Root(ONE), 48000, 800 * ONE),
            scale_position(f, Scale::Linear, 48000, 800 * ONE),
        );
    }
}

#[test]
fn doubling_the_bin_rises_one_octave_within_a_quantum() {
    let bins: u64 = 1 << 20;
    // this pair loses half a quantum to truncation and gets it back doubled
    assert_eq!(bin_to_frequency(4, bins, 44100), 5512);
    assert_eq!(bin_to_frequency(8, bins, 44100), 11025);
    for i in 1..200u64 {
        let low = bin_to_frequency(i, bins, 44100);
        let high = bin_to_frequency(2 * i, bins, 44100);
        assert!(2 * low <= high && high <= 2 * low + 1);
    }
}

fn test_component(style: Style, bins: usize) -> Spectrometer {
    let data: Vec<u64> = vec![120 * ONE; bins];
    Spectrometer::new(data, 44100, style, Scale::Logarithmic, GRAY, 32768, 3 * ONE as i64)
}

#[test]
fn zero_viewport_draws_nothing() {
    let s = test_component(Style::Spectrum, 64);
    assert!(matches!(s.draw(0, 500 * ONE), RenderOutput::Empty));
    assert!(matches!(s.draw(500 * ONE, 0), RenderOutput::Empty));
    let g = test_component(Style::Gradient, 64);
    assert!(matches!(g.draw(0, 500 * ONE), RenderOutput::Empty));
}

#[test]
fn spectrum_polyline_starts_bottom_left_and_covers_every_bin() {
    let s = test_component(Style::Spectrum, 64);
    match s.draw(1000 * ONE, 500 * ONE) {
        RenderOutput::Spectrum { points, color, line_width } => {
            assert_eq!(points.len(), 64);
            assert_eq!(points[0], (0, 500 * ONE));
            assert_eq!(color, GRAY);
            assert_eq!(line_width, 2 * ONE);
            for p in &points {
                assert!(p.0 <= 1000 * ONE);
                assert!(p.1 <= 500 * ONE);
            }
        }
        _ => panic!("expected a spectrum polyline"),
    }
}

#[test]
fn gradient_has_one_stop_per_bin_above_zero() {
    let g = test_component(Style::Gradient, 64);
    match g.draw(1000 * ONE, 500 * ONE) {
        RenderOutput::Gradient { stops } => {
            assert_eq!(stops.len(), 63);
            let mut prev: u64 = 0;
            for s in &stops {
                assert!(s.0 >= prev);
                assert!(s.1.g == s.1.r && s.1.b == s.1.r);
                prev = s.0;
            }
        }
        _ => panic!("expected gradient stops"),
    }
}

#[test]
fn event_update_smooths_toward_the_frame() {
    let mut s = test_component(Style::Spectrum, 2);
    s.event(&VisEvents::Update(vec![160 * ONE, 80 * ONE]));
    // factor 0.5: halfway from 120 dB-offset toward the frame
    assert_eq!(s.data, vec![140 * ONE, 100 * ONE]);
}

#[test]
fn event_update_reseeds_on_length_change() {
    let mut s = test_component(Style::Spectrum, 2);
    s.event(&VisEvents::Update(vec![7, 8, 9]));
    assert_eq!(s.data, vec![7, 8, 9]);
}

#[test]
fn draw_after_reseed_keeps_lengths_consistent() {
    let mut s = test_component(Style::Gradient, 4);
    s.event(&VisEvents::Update(vec![120 * ONE; 16]));
    match s.draw(640 * ONE, 480 * ONE) {
        RenderOutput::Gradient { stops } => assert_eq!(stops.len(), 15),
        _ => panic!("expected gradient stops"),
    }
}

#[test]
fn empty_state_still_draws_degenerate_geometry() {
    let s = Spectrometer::new(
        Vec::new(),
        44100,
        Style::Spectrum,
        Scale::Linear,
        GRAY,
        32768,
        0,
    );
    match s.draw(1000 * ONE, 500 * ONE) {
        RenderOutput::Spectrum { points, .. } => {
            assert_eq!(points.len(), 1);
            assert_eq!(points[0], (0, 500 * ONE));
        }
        _ => panic!("expected a spectrum polyline"),
    }
    let g = Spectrometer::new(
        Vec::new(),
        44100,
        Style::Gradient,
        Scale::Linear,
        GRAY,
        32768,
        0,
    );
    match g.draw(1000 * ONE, 500 * ONE) {
        RenderOutput::Gradient { stops } => assert_eq!(stops.len(), 0),
        _ => panic!("expected gradient stops"),
    }
}
