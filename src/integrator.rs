use vstd::prelude::*;
use crate::isqrt::{floor_sqrt, isqrt};
use crate::material::{Color, COLOR_ONE};
use crate::vec3::Vec3;

verus! {

/// What happened to a path at one bounce.
#[derive(Clone, Copy, Debug, PartialEq, Eq)]
pub enum Bounce {
    /// The ray left the scene; `unit_y` is the vertical component of its
    /// direction, scaled so that `COLOR_ONE` is straight up.
    Escaped { unit_y: i64 },
    /// The surface absorbed the ray.
    Absorbed,
    /// The surface sent the ray on, keeping `attenuation` of its energy.
    Scattered { attenuation: Color },
}

/// Channels in `[0, COLOR_ONE]`.
pub open spec fn color_ok(c: Color) -> bool {
    0 <= c.x <= COLOR_ONE && 0 <= c.y <= COLOR_ONE && 0 <= c.z <= COLOR_ONE
}

pub open spec fn black() -> Color {
    Vec3 { x: 0, y: 0, z: 0 }
}

/// One channel of the sky: `(1 - t) * 1 + t * sky`, `t = (unit_y + 1) / 2`.
pub open spec fn sky_channel(unit_y: int, sky: int) -> int {
    let t = (unit_y + COLOR_ONE) / 2;
    ((COLOR_ONE - t) * COLOR_ONE + t * sky) / (COLOR_ONE as int)
}

/// The background: white straight down, sky blue (0.5, 0.7, 1.0) straight up.
pub open spec fn background_spec(unit_y: int) -> Color {
    Vec3 {
        x: sky_channel(unit_y, 500) as i64,
        y: sky_channel(unit_y, 700) as i64,
        z: sky_channel(unit_y, 1000) as i64,
    }
}

/// `a * b` per channel, in thousandths.
pub open spec fn modulate(a: Color, b: Color) -> Color {
    Vec3 {
        x: (a.x * b.x / COLOR_ONE as int) as i64,
        y: (a.y * b.y / COLOR_ONE as int) as i64,
        z: (a.z * b.z / COLOR_ONE as int) as i64,
    }
}

/// The color a path carries back, from bounce `i` on, with `depth` bounces
/// left: black once the depth is spent or the surface absorbs, the
/// background where the ray escapes, else the attenuation times the color
/// of the rest of the path.
pub open spec fn path_color(steps: Seq<Bounce>, i: int, depth: nat) -> Color
    decreases depth,
{
    if depth == 0 || !(0 <= i < steps.len()) {
        black()
    } else {
        match steps[i] {
            Bounce::Escaped { unit_y } => background_spec(unit_y as int),
            Bounce::Absorbed => black(),
            Bounce::Scattered { attenuation } => modulate(
                attenuation,
                path_color(steps, i + 1, (depth - 1) as nat),
            ),
        }
    }
}

/// Every bounce is well formed: directions within range, attenuations
/// within `[0, 1]`.
pub open spec fn steps_ok(steps: Seq<Bounce>) -> bool {
    forall|k: int|
        0 <= k < steps.len() ==> match #[trigger] steps[k] {
            Bounce::Escaped { unit_y } => -COLOR_ONE <= unit_y <= COLOR_ONE,
            Bounce::Absorbed => true,
            Bounce::Scattered { attenuation } => color_ok(attenuation),
        }
}

/// The sky color seen along a direction whose vertical component is `unit_y`.
pub fn background(unit_y: i64) -> (c: Color)
    requires
        -COLOR_ONE <= unit_y <= COLOR_ONE,
    ensures
        c == background_spec(unit_y as int),
        color_ok(c),
{
    let t = (unit_y + COLOR_ONE) / 2;
    Vec3 {
        x: ((COLOR_ONE - t) * COLOR_ONE + t * 500) / COLOR_ONE,
        y: ((COLOR_ONE - t) * COLOR_ONE + t * 700) / COLOR_ONE,
        z: ((COLOR_ONE - t) * COLOR_ONE + t * 1000) / COLOR_ONE,
    }
}

fn modulate_exec(a: &Color, b: &Color) -> (c: Color)
    requires
        color_ok(*a),
        color_ok(*b),
    ensures
        c == modulate(*a, *b),
        color_ok(c),
{
    assert(0 <= a.x * b.x <= 1_000_000) by (nonlinear_arith)
        requires color_ok(*a), color_ok(*b);
    assert(0 <= a.y * b.y <= 1_000_000) by (nonlinear_arith)
        requires color_ok(*a), color_ok(*b);
    assert(0 <= a.z * b.z <= 1_000_000) by (nonlinear_arith)
        requires color_ok(*a), color_ok(*b);
    Vec3 { x: a.x * b.x / COLOR_ONE, y: a.y * b.y / COLOR_ONE, z: a.z * b.z / COLOR_ONE }
}

/// The color of a path whose bounces are `steps`, cut off after `depth`
/// bounces.
pub fn ray_color(steps: &Vec<Bounce>, depth: usize) -> (c: Color)
    requires
        steps_ok(steps@),
    ensures
        c == path_color(steps@, 0, depth as nat),
        color_ok(c),
{
    color_from(steps, 0, depth)
}

fn color_from(steps: &Vec<Bounce>, i: usize, depth: usize) -> (c: Color)
    requires
        steps_ok(steps@),
    ensures
        c == path_color(steps@, i as int, depth as nat),
        color_ok(c),
    decreases depth,
{
    if depth == 0 || i >= steps.len() {
        return Vec3 { x: 0, y: 0, z: 0 };
    }
    proof {
        assert(steps_ok(steps@));
        let _ = steps@[i as int];
    }
    match &steps[i] {
        Bounce::Escaped { unit_y } => background(*unit_y),
        Bounce::Absorbed => Vec3 { x: 0, y: 0, z: 0 },
        Bounce::Scattered { attenuation } => {
            let rest = color_from(steps, i + 1, depth - 1);
            modulate_exec(attenuation, &rest)
        },
    }
}

/// One output channel from the sum of `samples` sample values: the mean,
/// gamma-corrected by a square root, clamped to `[0, 0.999]` and scaled to
/// `[0, 255]`.
pub open spec fn channel_spec(sum: int, samples: int) -> int {
    let mean = sum / samples;
    let g = floor_sqrt(mean * COLOR_ONE);
    let clamped = if g < 999 { g } else { 999 };
    255_999 * clamped / 1_000_000
}

/// Finishes one channel of a pixel; see `channel_spec`.
pub fn finalize_channel(sum: u64, samples: u64) -> (v: u8)
    requires
        samples > 0,
    ensures
        v as int == channel_spec(sum as int, samples as int),
{
    let mean = sum / samples;
    let m = if mean <= 1_000_000_000_000_000 { mean } else { 1_000_000_000_000_000 };
    let g = isqrt((m as i128) * 1000);
    let capped = if mean <= 1_000_000_000_000_000 {
        g
    } else {
        999
    };
    proof {
        if mean > 1_000_000_000_000_000 {
            // the root of a large mean is past the clamp anyway
            let gm = floor_sqrt(mean * COLOR_ONE);
            crate::isqrt::lemma_floor_sqrt_exists(mean * COLOR_ONE);
            assert(gm >= 999) by (nonlinear_arith)
                requires
                    0 <= gm,
                    mean * COLOR_ONE < (gm + 1) * (gm + 1),
                    mean > 1_000_000_000_000_000;
        }
    }
    let clamped = if capped < 999 { capped } else { 999 };
    (255_999 * clamped / 1_000_000) as u8
}

} // verus!
