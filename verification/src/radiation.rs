//! The conical average of the radiation pattern: which directions it is taken over, and where in
//! frequency it is blended with the theoretical pattern.

use vstd::arithmetic::power2::*;
use vstd::prelude::*;

use crate::reals;
use crate::reals::Single;
use crate::record;
use crate::rng::{cone_draws, ConeDraw, Draws};
use crate::sim;

verus! {

/// The bit pattern of 0.5 Hz: where the blend of a horizontal component starts.
pub const HORIZONTAL_BLEND_LOW_HZ: u32 = 0x3f00_0000;

/// The bit pattern of 2 Hz: where it ends.
pub const HORIZONTAL_BLEND_HIGH_HZ: u32 = 0x4000_0000;

/// The bit pattern of 0.001 Hz: where the blend of the vertical starts.
pub const VERTICAL_BLEND_LOW_HZ: u32 = 0x3a83_126f;

/// The bit pattern of 0.01 Hz: where it ends.
pub const VERTICAL_BLEND_HIGH_HZ: u32 = 0x3c23_d70a;

/// Where a frequency lies beside the blend of the two patterns.
#[derive(Clone, Copy, Debug, PartialEq, Eq, Structural)]
pub enum Blend {
    /// Up to its start: as little of the average as it ever takes.
    Below,
    /// In it.
    Within,
    /// Past its end: the average alone.
    Above,
}

/// Where a frequency lies beside a blend from `low_hz` to `high_hz`.
pub open spec fn blend_at(frequency_hz: Single, low_hz: u32, high_hz: u32) -> Blend {
    if frequency_hz.at_most(Single(low_hz)) {
        Blend::Below
    } else if frequency_hz.at_most(Single(high_hz)) {
        Blend::Within
    } else {
        Blend::Above
    }
}

/// Where each frequency lies beside a blend.
fn blends(frequencies_hz: &Vec<Single>, low_hz: u32, high_hz: u32) -> (r: Vec<Blend>)
    ensures
        r@ == Seq::new(
            frequencies_hz@.len(),
            |i: int| blend_at(frequencies_hz@[i], low_hz, high_hz),
        ),
{
    let mut r: Vec<Blend> = Vec::new();
    let mut i: usize = 0;
    while i < frequencies_hz.len()
        invariant
            i <= frequencies_hz.len(),
            r@ == Seq::new(i as nat, |j: int| blend_at(frequencies_hz@[j], low_hz, high_hz)),
        decreases frequencies_hz.len() - i,
    {
        let f: Single = frequencies_hz[i];
        r.push(
            if f.is_at_most(Single(low_hz)) {
                Blend::Below
            } else if f.is_at_most(Single(high_hz)) {
                Blend::Within
            } else {
                Blend::Above
            },
        );
        i += 1;
    }
    r
}

/// A blend runs upward: a higher frequency is never nearer its start.
pub proof fn blends_run_upward(low_hz: u32, high_hz: u32, f: Single, g: Single)
    requires
        f.at_most(g),
        Single(low_hz).at_most(Single(high_hz)),
    ensures
        blend_at(g, low_hz, high_hz) == Blend::Below ==> blend_at(f, low_hz, high_hz)
            == Blend::Below,
        blend_at(f, low_hz, high_hz) == Blend::Above ==> blend_at(g, low_hz, high_hz)
            == Blend::Above,
{
}

/// What a horizontal component's pattern is made from.
pub struct HorizontalPattern {
    /// The directions that the average is taken over.
    pub directions: Vec<ConeDraw>,
    /// Where each frequency lies beside the blend.
    pub blends: Vec<Blend>,
}

/// A horizontal component's pattern: `sample_count` directions of five deviates each, drawn from
/// the live stream.
pub fn horizontal_radiation_spectrum<D: Draws>(
    rng: &mut D,
    frequencies_hz: &Vec<Single>,
    sample_count: usize,
) -> (r: HorizontalPattern)
    ensures
        r.directions.len() == sample_count,
        forall|i: int|
            0 <= i < sample_count ==> (#[trigger] r.directions@[i]).drawn_at(
                *old(rng),
                (5 * i) as nat,
            ),
        forall|k: nat| #[trigger] final(rng).word(k) == old(rng).word(k + 5 * sample_count as nat),
        r.blends@ == Seq::new(
            frequencies_hz@.len(),
            |i: int|
                blend_at(frequencies_hz@[i], HORIZONTAL_BLEND_LOW_HZ, HORIZONTAL_BLEND_HIGH_HZ),
        ),
{
    HorizontalPattern {
        directions: cone_draws(rng, sample_count),
        blends: blends(frequencies_hz, HORIZONTAL_BLEND_LOW_HZ, HORIZONTAL_BLEND_HIGH_HZ),
    }
}

/// What the vertical component's pattern is made from.
pub struct VerticalPattern {
    /// The directions that the average is taken over: a take-off and an azimuth deviate each.
    pub directions: Vec<(Single, Single)>,
    /// Where each frequency lies beside the blend.
    pub blends: Vec<Blend>,
}

/// The vertical component's pattern: `sample_count` directions from two blocks of deviates that
/// were drawn before, taken in lockstep and as far as both go. Nothing is drawn here.
pub fn vertical_radiation_spectrum(
    frequencies_hz: &Vec<Single>,
    uniform_a: &Vec<Single>,
    uniform_b: &Vec<Single>,
    sample_count: usize,
) -> (r: VerticalPattern)
    requires
        sample_count <= uniform_a.len(),
    ensures
        r.directions@ == Seq::new(
            if sample_count <= uniform_b@.len() {
                sample_count as nat
            } else {
                uniform_b@.len()
            },
            |i: int| (uniform_a@[i], uniform_b@[i]),
        ),
        r.blends@ == Seq::new(
            frequencies_hz@.len(),
            |i: int| blend_at(frequencies_hz@[i], VERTICAL_BLEND_LOW_HZ, VERTICAL_BLEND_HIGH_HZ),
        ),
{
    let count: usize = if sample_count <= uniform_b.len() {
        sample_count
    } else {
        uniform_b.len()
    };
    let mut directions: Vec<(Single, Single)> = Vec::new();
    let mut i: usize = 0;
    while i < count
        invariant
            i <= count,
            count <= uniform_a.len(),
            count <= uniform_b.len(),
            directions@ == Seq::new(i as nat, |j: int| (uniform_a@[j], uniform_b@[j])),
        decreases count - i,
    {
        directions.push((uniform_a[i], uniform_b[i]));
        i += 1;
    }
    VerticalPattern {
        directions,
        blends: blends(frequencies_hz, VERTICAL_BLEND_LOW_HZ, VERTICAL_BLEND_HIGH_HZ),
    }
}

/// The bit pattern of 90 degrees in radians: the shallowest take-off that goes down.
pub const DOWNGOING_MIN_RAD: u32 = 0x3fc9_0fdb;

/// The bit pattern of 180 degrees in radians: the steepest.
pub const DOWNGOING_MAX_RAD: u32 = 0x4049_0fdb;

/// The part of a cone of take-offs that goes down.
pub open spec fn downgoing_part(low_rad: Single, high_rad: Single) -> (Single, Single) {
    (
        record::larger(low_rad, Single(DOWNGOING_MIN_RAD)),
        sim::smaller(high_rad, Single(DOWNGOING_MAX_RAD)),
    )
}

/// The part of a cone of take-offs that goes down.
pub fn downgoing_cone(low_rad: Single, high_rad: Single) -> (r: (Single, Single))
    ensures
        r == downgoing_part(low_rad, high_rad),
{
    let min = Single(DOWNGOING_MIN_RAD);
    let max = Single(DOWNGOING_MAX_RAD);
    (
        if !low_rad.equals(low_rad) || low_rad.is_below(min) {
            min
        } else {
            low_rad
        },
        if !high_rad.equals(high_rad) || max.is_below(high_rad) {
            max
        } else {
            high_rad
        },
    )
}

/// Whether a projected amplitude is of negative polarity. The average has none of its own, and
/// takes it from the theoretical pattern.
pub fn is_reversed(projected: Single) -> (b: bool)
    ensures
        b == projected.below(Single(0)),
{
    projected.is_below(Single(0))
}

/// The blends and the downgoing cone are at the numbers that they are said to be at.
pub proof fn radiation_numbers_are_round()
    ensures
        reals::is_nearest_single(Single(HORIZONTAL_BLEND_LOW_HZ), 1, 2),
        reals::is_nearest_single(Single(HORIZONTAL_BLEND_HIGH_HZ), 2, 1),
        reals::is_nearest_single(Single(VERTICAL_BLEND_LOW_HZ), 1, 1000),
        reals::is_nearest_single(Single(VERTICAL_BLEND_HIGH_HZ), 1, 100),
        reals::is_nearest_single(Single(DOWNGOING_MAX_RAD), 3_141_592_653, 1_000_000_000),
        reals::is_nearest_single(Single(DOWNGOING_MIN_RAD), 3_141_592_653, 2_000_000_000),
{
    lemma2_to64();
    lemma2_to64_rest();
}

/// The edges of a blend belong to what is below them: up to its start, the start with it, a
/// frequency is below the blend, and up to its end, the end with it, it is within.
pub proof fn blends_own_their_upper_edge(frequency_hz: Single, low_hz: u32, high_hz: u32)
    requires
        frequency_hz.ordered(),
        Single(low_hz).at_most(Single(high_hz)),
    ensures
        blend_at(frequency_hz, low_hz, high_hz) == Blend::Below <==> frequency_hz.value()
            <= Single(low_hz).value(),
        blend_at(frequency_hz, low_hz, high_hz) == Blend::Within <==> Single(low_hz).value()
            < frequency_hz.value() <= Single(high_hz).value(),
        blend_at(frequency_hz, low_hz, high_hz) == Blend::Above <==> Single(high_hz).value()
            < frequency_hz.value(),
{
    reals::singles_are_ordered_by_value(frequency_hz, Single(low_hz));
    reals::singles_are_ordered_by_value(frequency_hz, Single(high_hz));
    reals::singles_are_ordered_by_value(Single(low_hz), Single(high_hz));
}

/// A downgoing cone goes down: whatever cone is given, what is left of it starts no shallower than
/// a right angle and ends no further than straight down, and a cone that lies within is kept.
pub proof fn downgoing_cones_go_down(low_rad: Single, high_rad: Single)
    ensures
        ({
            let (level, plumb) = (Single(0x3fc9_0fdb), Single(0x4049_0fdb));
            let (low, high) = downgoing_part(low_rad, high_rad);
            &&& reals::is_nearest_single(level, 3_141_592_653, 2_000_000_000)
            &&& reals::is_nearest_single(plumb, 3_141_592_653, 1_000_000_000)
            &&& level.at_most(low)
            &&& high.at_most(plumb)
            &&& level.at_most(low_rad) ==> low == low_rad
            &&& high_rad.at_most(plumb) ==> high == high_rad
            &&& low == low_rad || low == level
            &&& high == high_rad || high == plumb
        }),
{
    radiation_numbers_are_round();
}

} // verus!
