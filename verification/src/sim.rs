//! Simulating one station: what is walked in which order, what is left out, and what is
//! reported.
//!
//! A segment's contributions are a sum over its subfaults and, for each of them, over the
//! requested rays. The arithmetic of one contribution is the caller's. Which contributions are
//! made, from which random stream, at which length and to which part of the record, is decided
//! here.

use vstd::arithmetic::power2::*;
use vstd::prelude::*;

use crate::fort;
use crate::geom::SubfaultGeometry;
use crate::path_duration::PathDuration;
use crate::ray::RayType;
use crate::reals;
use crate::reals::{Double, Single};
use crate::record;
use crate::slip_model;
use crate::slip_model::Segment;
use crate::source::{Band, RuptureVelocityTaper};
use crate::velocity;
use crate::velocity::{layer_containing, Layer};

verus! {

// ---------------------------------------------------------------------------
// Components
// ---------------------------------------------------------------------------

/// The three output components, in the order in which they are computed and handed out.
#[derive(Clone, Copy, Debug, PartialEq, Eq, Structural)]
pub enum Component {
    /// East, and the first computed.
    E090,
    /// North.
    N000,
    /// The vertical.
    Vertical,
}

/// How a component's radiation pattern is obtained.
#[derive(Clone, Copy, Debug, PartialEq, Eq, Structural)]
pub enum RadiationMode {
    /// Onto a horizontal axis this far from the station azimuth, with deviates of its own.
    Horizontal { azimuth_offset_deg: Single },
    /// Without projection, from the deviates drawn before.
    Vertical,
}

/// The bit pattern of -90 degrees.
pub const EAST_OFFSET_DEG: u32 = 0xc2b4_0000;

/// The bit pattern of 15 Hz: what the vertical's `f_max` is held to.
pub const VERTICAL_FMAX_CEILING_HZ: u32 = 0x4170_0000;

/// How many components there are.
pub const COMPONENTS: usize = 3;

impl Component {
    /// The components in order.
    pub open spec fn order() -> Seq<Component> {
        seq![Component::E090, Component::N000, Component::Vertical]
    }

    /// Component `i` of the order.
    pub fn at(i: usize) -> (c: Self)
        requires
            i < COMPONENTS,
        ensures
            c == Component::order()[i as int],
    {
        if i == 0 {
            Component::E090
        } else if i == 1 {
            Component::N000
        } else {
            Component::Vertical
        }
    }

    /// The component's place in the order.
    pub fn index(self) -> (i: usize)
        ensures
            i < COMPONENTS,
            Component::order()[i as int] == self,
    {
        match self {
            Component::E090 => 0,
            Component::N000 => 1,
            Component::Vertical => 2,
        }
    }

    /// Which radiation pattern the component takes.
    pub fn radiation_mode(self) -> (m: RadiationMode)
        ensures
            m == match self {
                Component::E090 => RadiationMode::Horizontal {
                    azimuth_offset_deg: Single(EAST_OFFSET_DEG),
                },
                Component::N000 => RadiationMode::Horizontal { azimuth_offset_deg: Single(0) },
                Component::Vertical => RadiationMode::Vertical,
            },
    {
        match self {
            Component::E090 => RadiationMode::Horizontal {
                azimuth_offset_deg: Single(EAST_OFFSET_DEG),
            },
            Component::N000 => RadiationMode::Horizontal { azimuth_offset_deg: Single(0) },
            Component::Vertical => RadiationMode::Vertical,
        }
    }

    /// The component's `f_max`: that of the vertical is held to a ceiling.
    pub open spec fn fmax(self, fmax_hz: Single) -> Single {
        if self == Component::Vertical && !fmax_hz.below(Single(VERTICAL_FMAX_CEILING_HZ)) {
            Single(VERTICAL_FMAX_CEILING_HZ)
        } else {
            fmax_hz
        }
    }

    /// The component's `f_max`. What is not a number is held to the ceiling too.
    pub fn capped_fmax(self, fmax_hz: Single) -> (r: Single)
        ensures
            r == self.fmax(fmax_hz),
    {
        match self {
            Component::Vertical => {
                if fmax_hz.is_below(Single(VERTICAL_FMAX_CEILING_HZ)) {
                    fmax_hz
                } else {
                    Single(VERTICAL_FMAX_CEILING_HZ)
                }
            },
            _ => fmax_hz,
        }
    }
}

/// Whether the spectrum's shape is built anew for component `i`: the first always builds, and a
/// later one where its `f_max` is another than that of the one before.
pub open spec fn builds_shape(fmax_hz: Single, i: int) -> bool {
    i == 0 || !Component::order()[i].fmax(fmax_hz).same(Component::order()[i - 1].fmax(fmax_hz))
}

/// Whether the spectrum's shape is built anew for a component.
pub fn needs_new_shape(component: Component, fmax_hz: Single) -> (b: bool)
    ensures
        forall|i: int|
            0 <= i < COMPONENTS && #[trigger] Component::order()[i] == component ==> b
                == builds_shape(fmax_hz, i),
{
    match component {
        Component::E090 => true,
        Component::N000 => !fmax_hz.equals(fmax_hz),
        Component::Vertical => !component.capped_fmax(fmax_hz).equals(fmax_hz),
    }
}

/// One shape serves both horizontals, and the vertical as well unless its ceiling holds: the shape
/// is built twice at most.
pub proof fn shapes_are_built_twice_at_most(fmax_hz: Single)
    requires
        fmax_hz.ordered(),
    ensures
        builds_shape(fmax_hz, 0),
        !builds_shape(fmax_hz, 1),
        builds_shape(fmax_hz, 2) <==> Single(VERTICAL_FMAX_CEILING_HZ).below(fmax_hz),
{
}

// ---------------------------------------------------------------------------
// Segments
// ---------------------------------------------------------------------------

/// A dimension of a subfault.
#[derive(Clone, Copy, Debug, PartialEq, Eq, Structural)]
pub enum Dimension {
    SubfaultLengthKm,
    SubfaultWidthKm,
}

/// Why a simulation cannot be produced.
#[derive(Clone, Copy, Debug, PartialEq, Eq, Structural)]
pub enum SimError {
    /// A segment's subfaults differ in size from those of the first.
    InconsistentSegments {
        /// The segment, counted from zero.
        segment: usize,
        dimension: Dimension,
        found: Single,
        expected: Single,
    },
}

/// What is wrong with a segment, beside the first.
pub open spec fn mismatch(first: Segment, segment: Segment, index: usize) -> Option<SimError> {
    if !segment.subfault_length_km.same(first.subfault_length_km) {
        Some(
            SimError::InconsistentSegments {
                segment: index,
                dimension: Dimension::SubfaultLengthKm,
                found: segment.subfault_length_km,
                expected: first.subfault_length_km,
            },
        )
    } else if !segment.subfault_width_km.same(first.subfault_width_km) {
        Some(
            SimError::InconsistentSegments {
                segment: index,
                dimension: Dimension::SubfaultWidthKm,
                found: segment.subfault_width_km,
                expected: first.subfault_width_km,
            },
        )
    } else {
        None
    }
}

/// Every segment must be diced as the first is: the subfault size is one quantity for the whole
/// run. The error is that of the first segment that is not.
pub fn check_segments(segments: &Vec<Segment>) -> (r: Result<(), SimError>)
    ensures
        r is Ok <==> forall|s: int|
            1 <= s < segments.len() ==> mismatch(
                segments@[0],
                #[trigger] segments@[s],
                s as usize,
            ) is None,
        r matches Err(e) ==> exists|s: int|
            {
                &&& 1 <= s < segments.len()
                &&& mismatch(segments@[0], #[trigger] segments@[s], s as usize) == Some(e)
                &&& forall|t: int|
                    1 <= t < s ==> mismatch(
                        segments@[0],
                        #[trigger] segments@[t],
                        t as usize,
                    ) is None
            },
{
    let mut s: usize = 1;
    while s < segments.len()
        invariant
            1 <= s,
            s <= segments.len() || segments.len() == 0,
            forall|t: int|
                1 <= t < s && t < segments.len() ==> mismatch(
                    segments@[0],
                    #[trigger] segments@[t],
                    t as usize,
                ) is None,
        decreases segments.len() - s,
    {
        let found: Single = segments[s].subfault_length_km;
        let expected: Single = segments[0].subfault_length_km;
        if !found.equals(expected) {
            let e = SimError::InconsistentSegments {
                segment: s,
                dimension: Dimension::SubfaultLengthKm,
                found,
                expected,
            };
            assert(mismatch(segments@[0], segments@[s as int], s) == Some(e));
            return Err(e);
        }
        let found: Single = segments[s].subfault_width_km;
        let expected: Single = segments[0].subfault_width_km;
        if !found.equals(expected) {
            let e = SimError::InconsistentSegments {
                segment: s,
                dimension: Dimension::SubfaultWidthKm,
                found,
                expected,
            };
            assert(mismatch(segments@[0], segments@[s as int], s) == Some(e));
            return Err(e);
        }
        s += 1;
    }
    Ok(())
}

// ---------------------------------------------------------------------------
// Time windows
// ---------------------------------------------------------------------------

/// What one subfault's time window is made from.
#[derive(Clone, Copy, Debug, PartialEq, Eq, Structural)]
pub struct WindowTerms {
    /// The velocity-model layer that the subfault sits in.
    pub layer: usize,
    /// Where its depth lies in the rupture-velocity taper.
    pub band: Band,
    /// The segment of the path-duration table that its distance lies in.
    pub bin: Option<usize>,
}

/// Whether the terms are those of a subfault at a depth and a distance.
pub open spec fn are_terms(
    terms: WindowTerms,
    depth_km: Single,
    slant_km: Single,
    model: Seq<Layer>,
    taper: RuptureVelocityTaper,
    durations: PathDuration,
) -> bool {
    &&& terms.layer < model.len()
    &&& forall|d: Double| #[trigger]
        reals::same_number(depth_km, d) ==> terms.layer == velocity::containing(model, d)
    &&& terms.band == taper.band_of(depth_km)
    &&& durations.is_bin(slant_km, terms.bin)
}

/// What every subfault's time window is made from, the depth index outermost: the order of
/// storage.
pub fn time_window_pass(
    segment: &Segment,
    geometry: &SubfaultGeometry,
    model: &Vec<Layer>,
    taper: &RuptureVelocityTaper,
    durations: &PathDuration,
) -> (windows: Vec<WindowTerms>)
    requires
        segment.well_formed(),
        geometry.well_formed(),
        geometry.sides() == (segment.along_strike_count as int, segment.down_dip_count as int),
        model.len() > 0,
        durations.well_formed(),
    ensures
        windows.len() == segment.subfaults.len(),
        forall|k: int|
            0 <= k < windows.len() ==> are_terms(
                #[trigger] windows@[k],
                geometry.entries()[k].depth_km,
                geometry.entries()[k].slant_km,
                model@,
                *taper,
                *durations,
            ),
{
    let order = segment.depth_major();
    let mut windows: Vec<WindowTerms> = Vec::new();
    let mut k: usize = 0;
    while k < order.len()
        invariant
            k <= order.len(),
            windows.len() == k,
            segment.well_formed(),
            geometry.well_formed(),
            geometry.sides() == (
                segment.along_strike_count as int,
                segment.down_dip_count as int,
            ),
            model.len() > 0,
            durations.well_formed(),
            order@ == Seq::new(
                (segment.along_strike_count * segment.down_dip_count) as nat,
                |k: int| slip_model::depth_major_at(segment.along_strike_count as int, k),
            ),
            forall|n: int|
                0 <= n < k ==> are_terms(
                    #[trigger] windows@[n],
                    geometry.entries()[n].depth_km,
                    geometry.entries()[n].slant_km,
                    model@,
                    *taper,
                    *durations,
                ),
        decreases order.len() - k,
    {
        let (i, j): (usize, usize) = order[k];
        proof {
            slip_model::storage_is_depth_major(
                segment.along_strike_count as int,
                segment.down_dip_count as int,
                k as int,
                0,
                0,
            );
        }
        let ray = geometry.at(i, j);
        windows.push(
            WindowTerms {
                layer: layer_containing(model, ray.depth_km),
                band: taper.band(ray.depth_km),
                bin: durations.bin(ray.slant_km),
            },
        );
        k += 1;
    }
    windows
}

// ---------------------------------------------------------------------------
// The earliest start
// ---------------------------------------------------------------------------

/// Whether a straight line is among the requested rays.
pub open spec fn has_straight_line(rays: Seq<RayType>) -> bool {
    exists|r: int| 0 <= r < rays.len() && #[trigger] rays[r] == RayType::StraightLine
}

/// The smaller of two numbers. What is not a number gives way.
pub open spec fn smaller(a: Single, b: Single) -> Single {
    if !a.ordered() || b.below(a) {
        b
    } else {
        a
    }
}

/// The earliest time at which the window of any requested ray can start: that of the traced rays,
/// or that of a straight line where one is requested and it is the earlier.
pub open spec fn earliest_start(
    traced_s: Single,
    straight_s: Single,
    rays: Seq<RayType>,
) -> Single {
    if has_straight_line(rays) {
        smaller(traced_s, straight_s)
    } else {
        traced_s
    }
}

/// The earliest time at which the window of any requested ray can start.
///
/// No traced ray is faster than a straight line at the highest speed in the model, so the window
/// starts no earlier than `traced_s`. A straight line has a start of its own, `straight_s`, which
/// counts where one is requested and it is the earlier.
pub fn earliest_window_start(
    traced_s: Single,
    straight_s: Single,
    rays: &Vec<RayType>,
) -> (bound_s: Single)
    ensures
        bound_s == earliest_start(traced_s, straight_s, rays@),
{
    let mut r: usize = 0;
    while r < rays.len()
        invariant
            r <= rays.len(),
            forall|q: int| 0 <= q < r ==> #[trigger] rays@[q] != RayType::StraightLine,
        decreases rays.len() - r,
    {
        if matches!(rays[r], RayType::StraightLine) {
            assert(rays@[r as int] == RayType::StraightLine);
            return if !traced_s.equals(traced_s) || straight_s.is_below(traced_s) {
                straight_s
            } else {
                traced_s
            };
        }
        r += 1;
    }
    traced_s
}

/// The bound is a bound for every ray: it is no later than a traced start that is no earlier than
/// the straight path at the highest speed, nor than that of a requested straight line.
pub proof fn the_bound_holds_for_every_ray(
    traced_s: Single,
    straight_s: Single,
    rays: Seq<RayType>,
    start_s: Single,
    bound_s: Single,
)
    requires
        traced_s.ordered(),
        straight_s.ordered(),
        bound_s == earliest_start(traced_s, straight_s, rays),
        traced_s.at_most(start_s) || (has_straight_line(rays) && start_s == straight_s),
    ensures
        bound_s.at_most(start_s),
{
}

/// What is ruled out by the bound would have landed nowhere: where the bound on the way from the
/// rupture to the window, in samples, starts after the record, every start that it bounds does,
/// and a window of no length has a placement.
pub proof fn ruled_out_rays_land_nothing(
    to_rupture: Single,
    bound: Single,
    to_window: Single,
    np2: int,
    ndata: int,
)
    requires
        bound.at_most(to_window),
        fort::cut(to_rupture) + fort::cut(bound) > ndata,
    ensures
        fort::cut(to_rupture) + fort::cut(bound) <= fort::cut(to_rupture) + fort::cut(to_window),
        record::placed(fort::cut(to_rupture) + fort::cut(to_window), np2, ndata) is None,
{
    fort::cutting_keeps_order(bound, to_window);
    record::nothing_lands_past_the_end(
        fort::cut(to_rupture) + fort::cut(to_window),
        np2,
        ndata,
    );
}

/// The offset of the east component and the ceiling of the vertical are at the numbers that they
/// are said to be at.
pub proof fn component_numbers_are_round()
    ensures
        EAST_OFFSET_DEG >= 0x8000_0000,
        reals::is_nearest_single(Single((EAST_OFFSET_DEG - 0x8000_0000) as u32), 90, 1),
        reals::is_nearest_single(Single(VERTICAL_FMAX_CEILING_HZ), 15, 1),
{
    lemma2_to64();
    lemma2_to64_rest();
}

/// A segment is in order beside the first just where its subfaults are as long and as wide, as
/// numbers. What is wrong is told with the segment's own size as found and the first one's as
/// expected, and a wrong length is told before a wrong width.
pub proof fn segments_are_alike_in_size(first: Segment, segment: Segment, index: usize)
    ensures
        mismatch(first, segment, index) is None <==> segment.subfault_length_km.same(
            first.subfault_length_km,
        ) && segment.subfault_width_km.same(first.subfault_width_km),
        mismatch(first, segment, index) matches Some(
            SimError::InconsistentSegments { segment: at, dimension, found, expected },
        ) ==> {
            &&& at == index
            &&& !found.same(expected)
            &&& dimension == Dimension::SubfaultLengthKm ==> found == segment.subfault_length_km
                && expected == first.subfault_length_km
            &&& dimension == Dimension::SubfaultWidthKm ==> found == segment.subfault_width_km
                && expected == first.subfault_width_km && segment.subfault_length_km.same(
                first.subfault_length_km,
            )
        },
{
}

/// The vertical has the lower of its ceiling and what is given, and the horizontals what is given.
/// So no component is let through above what is given, nor the vertical above 15 Hz.
pub proof fn ceilings_hold_the_vertical(fmax_hz: Single)
    requires
        fmax_hz.ordered(),
    ensures
        Component::E090.fmax(fmax_hz) == fmax_hz,
        Component::N000.fmax(fmax_hz) == fmax_hz,
        Component::Vertical.fmax(fmax_hz).at_most(fmax_hz),
        Component::Vertical.fmax(fmax_hz).at_most(Single(0x4170_0000)),
        reals::is_nearest_single(Single(0x4170_0000), 15, 1),
        Component::Vertical.fmax(fmax_hz) == fmax_hz || Component::Vertical.fmax(fmax_hz) == Single(
            0x4170_0000,
        ),
{
    lemma2_to64();
    lemma2_to64_rest();
}

/// The bound is no lower than it has to be: it is the start of the traced rays, or that of a
/// straight line, and of that only where one is requested.
pub proof fn the_bound_is_one_of_the_starts(
    traced_s: Single,
    straight_s: Single,
    rays: Seq<RayType>,
)
    requires
        traced_s.ordered(),
        straight_s.ordered(),
    ensures
        ({
            let bound_s = earliest_start(traced_s, straight_s, rays);
            &&& bound_s == traced_s || (bound_s == straight_s && rays.contains(
                RayType::StraightLine,
            ))
            &&& bound_s.value() <= traced_s.value()
            &&& rays.contains(RayType::StraightLine) ==> bound_s.value() <= straight_s.value()
        }),
{
    reals::singles_are_ordered_by_value(traced_s, straight_s);
    reals::singles_are_ordered_by_value(straight_s, traced_s);
}

} // verus!
