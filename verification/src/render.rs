//! The visualizer component: owns the smoothed state and the
//! configuration, folds incoming frames into the state, and turns the
//! state into drawing geometry — a polyline for the spectrum style or a
//! row of gradient stops for the gradient style.
//!
//! The component never touches a canvas. `draw` returns plain geometry in
//! Q16.16 pixels; the host paints it. A zero-width or zero-height viewport
//! yields no geometry at all.

use vstd::prelude::*;
use vstd::arithmetic::div_mod::lemma_div_is_ordered;
use vstd::arithmetic::mul::{lemma_mul_inequality, lemma_mul_is_commutative};
use crate::fixed::ONE;
use crate::mapper::{
    bin_to_frequency, lemma_bin_to_frequency_monotone, lemma_scale_position_monotone,
    scale_position, spec_bin_to_frequency, spec_scale_position, spec_scale_wf, Scale, BIN_MAX,
    SR_MAX, WIDTH_MAX,
};
use crate::shaper::{amp_of_db, shape_db, spec_amp_of_db, spec_shaped_db, SLOPE_CAP};
use crate::smoothing::{smooth_frame, spec_blend, DB_CAP};

verus! {

/// A solid color, one byte per channel.
#[derive(Clone, Copy, Debug, PartialEq, Eq, Structural)]
pub struct Rgb {
    pub r: u8,
    pub g: u8,
    pub b: u8,
}

/// Which picture the renderer produces.
#[derive(Clone, Copy)]
pub enum Style {
    Spectrum,
    Gradient,
}

/// Events the host forwards to the component.
pub enum VisEvents {
    Update(Vec<u64>),
}

/// The geometry handed back to the drawing surface: nothing (degenerate
/// viewport), a stroked polyline, or a horizontal gradient's stops.
pub enum RenderOutput {
    Empty,
    Spectrum { points: Vec<(u64, u64)>, color: Rgb, line_width: u64 },
    Gradient { stops: Vec<(u64, Rgb)> },
}

/// Grayscale channel value of an amplitude in Q16.16 `[0, 1]`: the
/// amplitude times 255, rounded to the nearest integer.
pub open spec fn spec_gradient_gray(amp: int) -> int {
    (amp * 255 + 32768) / 65536
}

/// Maps an amplitude to the placeholder grayscale gradient color.
pub fn gradient_color_map(val: u64) -> (c: Rgb)
    requires
        val <= 65536,
    ensures
        c.r as int == spec_gradient_gray(val as int),
        c.g == c.r,
        c.b == c.r,
{
    proof {
        assert(val as int * 255 <= 65536 * 255) by {
            lemma_mul_inequality(val as int, 65536, 255);
        }
        assert(0 <= val as int * 255) by {
            lemma_mul_inequality(0, val as int, 255);
        }
        lemma_div_is_ordered(0, val as int * 255 + 32768, 65536);
        lemma_div_is_ordered(val as int * 255 + 32768, (65536 * 255 + 32768) as int, 65536);
        assert((65536 * 255 + 32768) / 65536 == 255);
    }
    let gray: u8 = ((val * 255 + 32768) / 65536) as u8;
    Rgb { r: gray, g: gray, b: gray }
}

/// The spectrum visualizer: smoothed per-bin magnitudes plus the
/// configuration that turns them into geometry.
pub struct Spectrometer {
    pub data: Vec<u64>,
    pub sr: u64,
    pub style: Style,
    pub scale: Scale,
    pub col: Rgb,
    pub smoothing_factor: u64,
    pub slope: i64,
}

/// A well-formed visualizer: supported sample rate, well-formed scale, a
/// smoothing factor strictly inside (0, 1), a bounded tilt, and magnitudes
/// under the cap.
pub open spec fn spec_spectrometer_wf(s: Spectrometer) -> bool {
    &&& s.sr <= SR_MAX
    &&& spec_scale_wf(s.scale)
    &&& 1 <= s.smoothing_factor <= 65535
    &&& -SLOPE_CAP <= s.slope <= SLOPE_CAP
    &&& s.data@.len() <= BIN_MAX
    &&& forall|i: int| 0 <= i < s.data@.len() ==> s.data@[i] <= DB_CAP
}

/// Horizontal position of bin `i`'s center frequency, under the
/// visualizer's scale, on an axis of `width` Q16.16 pixels.
pub open spec fn spec_point_x(s: Spectrometer, i: int, width: int) -> int {
    spec_scale_position(
        spec_bin_to_frequency(i, s.data@.len() as int, s.sr as int),
        s.scale,
        s.sr as int,
        width,
    )
}

/// The shaped amplitude of bin `i`: its smoothed magnitude tilted, clamped
/// and converted to a linear amplitude.
pub open spec fn spec_bin_amp(s: Spectrometer, i: int) -> int {
    spec_amp_of_db(
        spec_shaped_db(
            s.data@[i] as int,
            spec_bin_to_frequency(i, s.data@.len() as int, s.sr as int),
            s.slope as int,
        ),
    )
}

/// Vertical position of bin `i` on an axis of `height` Q16.16 pixels:
/// amplitude 0 sits at the bottom (`height`), amplitude 1 at the top (0).
pub open spec fn spec_point_y(s: Spectrometer, i: int, height: int) -> int {
    (65536 - spec_bin_amp(s, i)) * height / 65536
}

impl Spectrometer {
    /// A visualizer seeded with `data`, drawing at `sampling_rate` with the
    /// given style, scale, color, smoothing factor and dB-per-octave tilt.
    pub fn new(
        data: Vec<u64>,
        sampling_rate: u64,
        style: Style,
        scale: Scale,
        col: Rgb,
        smoothing_factor: u64,
        slope: i64,
    ) -> (s: Spectrometer)
        requires
            sampling_rate <= SR_MAX,
            spec_scale_wf(scale),
            1 <= smoothing_factor <= 65535,
            -SLOPE_CAP <= slope <= SLOPE_CAP,
            data@.len() <= BIN_MAX,
            forall|i: int| 0 <= i < data@.len() ==> data@[i] <= DB_CAP,
        ensures
            s.data@ == data@,
            s.sr == sampling_rate,
            s.style == style,
            s.scale == scale,
            s.col == col,
            s.smoothing_factor == smoothing_factor,
            s.slope == slope,
            spec_spectrometer_wf(s),
    {
        Spectrometer { data, sr: sampling_rate, style, scale, col, smoothing_factor, slope }
    }

    /// Folds an update event into the smoothed state: every slot moves
    /// toward the new frame by the smoothing factor; a frame of a new
    /// length reseeds the state.
    pub fn event(&mut self, event: &VisEvents)
        requires
            spec_spectrometer_wf(*old(self)),
            event->Update_0@.len() <= BIN_MAX,
            forall|i: int| 0 <= i < event->Update_0@.len() ==> event->Update_0@[i] <= DB_CAP,
        ensures
            ({
                let nd = event->Update_0@;
                let od = old(self).data@;
                &&& od.len() == nd.len() ==> {
                    &&& final(self).data@.len() == nd.len()
                    &&& forall|i: int|
                        0 <= i < nd.len() ==> final(self).data@[i] as int == spec_blend(
                            od[i] as int,
                            nd[i] as int,
                            (65536 - old(self).smoothing_factor) as int,
                        )
                }
                &&& od.len() != nd.len() ==> final(self).data@ == nd
            }),
            final(self).sr == old(self).sr,
            final(self).style == old(self).style,
            final(self).scale == old(self).scale,
            final(self).col == old(self).col,
            final(self).smoothing_factor == old(self).smoothing_factor,
            final(self).slope == old(self).slope,
            spec_spectrometer_wf(*final(self)),
    {
        match event {
            VisEvents::Update(new_data) => {
                smooth_frame(&mut self.data, new_data, self.smoothing_factor);
            },
        }
    }

    /// Recomputes the drawing geometry for the current state.
    ///
    /// A degenerate viewport (zero width or height) yields `Empty` and
    /// nothing else does. The spectrum style yields the polyline from the
    /// bottom-left corner through every bin above index 0; the gradient
    /// style yields one stop per bin above index 0, so `bin_count - 1`
    /// stops in all.
    pub fn draw(&self, width: u64, height: u64) -> (out: RenderOutput)
        requires
            spec_spectrometer_wf(*self),
            width <= WIDTH_MAX,
            height <= WIDTH_MAX,
        ensures
            (width == 0 || height == 0) <==> (out is Empty),
            matches!(self.style, Style::Spectrum) && width != 0 && height != 0 ==> {
                &&& out is Spectrum
                &&& out->Spectrum_color == self.col
                &&& out->Spectrum_line_width == 2 * ONE
                &&& out->Spectrum_points@.len() == if self.data@.len() == 0 {
                    1int
                } else {
                    self.data@.len() as int
                }
                &&& out->Spectrum_points@[0].0 == 0
                &&& out->Spectrum_points@[0].1 == height
                &&& forall|i: int|
                    1 <= i < self.data@.len() ==> out->Spectrum_points@[i].0 as int
                        == spec_point_x(*self, i, width as int)
                &&& forall|i: int|
                    1 <= i < self.data@.len() ==> out->Spectrum_points@[i].1 as int
                        == spec_point_y(*self, i, height as int)
            },
            matches!(self.style, Style::Gradient) && width != 0 && height != 0 ==> {
                &&& out is Gradient
                &&& out->Gradient_stops@.len() == if self.data@.len() == 0 {
                    0int
                } else {
                    self.data@.len() - 1
                }
                &&& forall|i: int|
                    0 <= i < out->Gradient_stops@.len() ==> out->Gradient_stops@[i].0 as int
                        == spec_point_x(*self, i + 1, width as int)
                &&& forall|i: int|
                    0 <= i < out->Gradient_stops@.len() ==> out->Gradient_stops@[i].1.r as int
                        == spec_gradient_gray(spec_bin_amp(*self, i + 1))
                &&& forall|i: int|
                    0 <= i < out->Gradient_stops@.len() ==> out->Gradient_stops@[i].1.g
                        == out->Gradient_stops@[i].1.r
                        && out->Gradient_stops@[i].1.b == out->Gradient_stops@[i].1.r
            },
    {
        if width == 0 || height == 0 {
            return RenderOutput::Empty;
        }
        let n: usize = self.data.len();
        match self.style {
            Style::Spectrum => {
                let mut points: Vec<(u64, u64)> = Vec::new();
                points.push((0, height));
                let mut i: usize = 1;
                while i < n
                    invariant
                        spec_spectrometer_wf(*self),
                        width <= WIDTH_MAX,
                        height <= WIDTH_MAX,
                        n == self.data@.len(),
                        1 <= i,
                        i <= (if n == 0 { 1int } else { n as int }),
                        points@.len() == i,
                        points@[0].0 == 0 && points@[0].1 == height,
                        forall|j: int|
                            1 <= j < i ==> points@[j].0 as int == spec_point_x(
                                *self,
                                j,
                                width as int,
                            ),
                        forall|j: int|
                            1 <= j < i ==> points@[j].1 as int == spec_point_y(
                                *self,
                                j,
                                height as int,
                            ),
                    decreases n - i,
                {
                    let freq: u64 = bin_to_frequency(i as u64, n as u64, self.sr);
                    proof {
                        assert(self.sr as int * 65536 / 2 == self.sr as int * 32768);
                        assert(self.sr as int * 32768 <= SR_MAX as int * 32768) by {
                            lemma_mul_inequality(self.sr as int, SR_MAX as int, 32768);
                        }
                    }
                    let shaped: u64 = shape_db(self.data[i], freq, self.slope);
                    let amp: u64 = amp_of_db(shaped);
                    let x: u64 = scale_position(freq, self.scale, self.sr, width);
                    proof {
                        assert((65536 - amp as int) * (height as int) <= 65536 * (WIDTH_MAX as int))
                            by {
                            lemma_mul_inequality(65536 - amp as int, 65536, height as int);
                            lemma_mul_inequality(height as int, WIDTH_MAX as int, 65536);
                            lemma_mul_is_commutative(height as int, 65536);
                        }
                        assert(0 <= (65536 - amp as int) * (height as int)) by {
                            lemma_mul_inequality(0, 65536 - amp as int, height as int);
                            lemma_mul_is_commutative(65536 - amp as int, height as int);
                        }
                        lemma_div_is_ordered(0, (65536 - amp as int) * (height as int), 65536);
                    }
                    let y: u64 = (ONE - amp) * height / ONE;
                    points.push((x, y));
                    i = i + 1;
                }
                RenderOutput::Spectrum { points, color: self.col, line_width: 2 * ONE }
            },
            Style::Gradient => {
                let mut stops: Vec<(u64, Rgb)> = Vec::new();
                let mut i: usize = 1;
                while i < n
                    invariant
                        spec_spectrometer_wf(*self),
                        width <= WIDTH_MAX,
                        height <= WIDTH_MAX,
                        n == self.data@.len(),
                        1 <= i,
                        i <= (if n == 0 { 1int } else { n as int }),
                        stops@.len() == i - 1,
                        forall|j: int|
                            0 <= j < i - 1 ==> stops@[j].0 as int == spec_point_x(
                                *self,
                                j + 1,
                                width as int,
                            ),
                        forall|j: int|
                            0 <= j < i - 1 ==> stops@[j].1.r as int == spec_gradient_gray(
                                spec_bin_amp(*self, j + 1),
                            ),
                        forall|j: int|
                            0 <= j < i - 1 ==> stops@[j].1.g == stops@[j].1.r && stops@[j].1.b
                                == stops@[j].1.r,
                    decreases n - i,
                {
                    let freq: u64 = bin_to_frequency(i as u64, n as u64, self.sr);
                    proof {
                        assert(self.sr as int * 65536 / 2 == self.sr as int * 32768);
                        assert(self.sr as int * 32768 <= SR_MAX as int * 32768) by {
                            lemma_mul_inequality(self.sr as int, SR_MAX as int, 32768);
                        }
                    }
                    let shaped: u64 = shape_db(self.data[i], freq, self.slope);
                    let amp: u64 = amp_of_db(shaped);
                    let x: u64 = scale_position(freq, self.scale, self.sr, width);
                    let c: Rgb = gradient_color_map(amp);
                    stops.push((x, c));
                    i = i + 1;
                }
                RenderOutput::Gradient { stops }
            },
        }
    }
}

/// Gradient stops inherit the scale's monotonicity: under a well-formed
/// scale, the position of a later bin never falls left of an earlier one.
pub proof fn lemma_stop_positions_monotone(
    i: int,
    j: int,
    bin_count: int,
    sc: Scale,
    sr: int,
    width: int,
)
    requires
        0 <= i <= j <= bin_count,
        bin_count > 0,
        spec_scale_wf(sc),
        0 <= sr <= SR_MAX as int,
        0 <= width,
    ensures
        spec_scale_position(spec_bin_to_frequency(i, bin_count, sr), sc, sr, width)
            <= spec_scale_position(spec_bin_to_frequency(j, bin_count, sr), sc, sr, width),
{
    lemma_bin_to_frequency_monotone(i, j, bin_count, sr);
    lemma_scale_position_monotone(
        spec_bin_to_frequency(i, bin_count, sr),
        spec_bin_to_frequency(j, bin_count, sr),
        sc,
        sr,
        width,
    );
}

} // verus!
