//! The path-duration models: how the shaping window lengthens with distance.
//!
//! A model is a piecewise-linear table of duration against distance. Distances are whole
//! kilometres and durations whole tenths of a second, so the tables are exact here; a segment's
//! slope is given by the two breakpoints that it joins.

use vstd::arithmetic::power2::*;
use vstd::prelude::*;

use crate::reals;
use crate::reals::{dyadic, Single};

verus! {

/// The path-duration model.
#[derive(Clone, Copy, Debug, PartialEq, Eq, Structural)]
pub enum PathDurationModel {
    /// Graves & Pitarka (2010) eq. 17: one segment, 0.063 s/km.
    Gp2010,
    /// Western US: one segment, 0.070 s/km.
    Wus,
    /// Eastern North America: one segment, 0.100 s/km.
    Ena,
    /// Boore & Thompson (2014) Table 1, active crustal regions.
    Bt2014Wus,
    /// Boore & Thompson (2015) Table 3, stable continental regions.
    Bt2015Ena,
}

/// The model that a code names. Everything from zero down is the first; the other codes are not
/// contiguous.
pub open spec fn named(code: int) -> Option<PathDurationModel> {
    if code <= 0 {
        Some(PathDurationModel::Gp2010)
    } else if code == 1 {
        Some(PathDurationModel::Wus)
    } else if code == 2 {
        Some(PathDurationModel::Ena)
    } else if code == 11 {
        Some(PathDurationModel::Bt2014Wus)
    } else if code == 12 {
        Some(PathDurationModel::Bt2015Ena)
    } else {
        None
    }
}

impl PathDurationModel {
    /// Decode a model's code. A code outside the set is rejected.
    pub fn from_code(v: i32) -> (r: Option<Self>)
        ensures
            r == named(v as int),
    {
        if v <= 0 {
            Some(PathDurationModel::Gp2010)
        } else if v == 1 {
            Some(PathDurationModel::Wus)
        } else if v == 2 {
            Some(PathDurationModel::Ena)
        } else if v == 11 {
            Some(PathDurationModel::Bt2014Wus)
        } else if v == 12 {
            Some(PathDurationModel::Bt2015Ena)
        } else {
            None
        }
    }
}

/// How fast duration grows along a segment.
#[derive(Clone, Copy, Debug, PartialEq, Eq, Structural)]
pub enum Slope {
    /// This many milliseconds per kilometre.
    PerKm { milliseconds: u32 },
    /// From breakpoint `low` to the one after it.
    Between { low: usize },
}

/// One segment of the table.
#[derive(Clone, Copy, Debug, PartialEq, Eq, Structural)]
pub struct DurationSegment {
    /// Distance at which this segment starts, km.
    pub start_km: u32,
    /// Duration at that distance, tenths of a second.
    pub duration_tenths: u32,
    pub slope: Slope,
}

/// The breakpoints of a model: distances and durations.
pub open spec fn breakpoints(model: PathDurationModel) -> Seq<(u32, u32)> {
    match model {
        PathDurationModel::Bt2014Wus => seq![
            (0u32, 0u32),
            (7u32, 24u32),
            (45u32, 84u32),
            (125u32, 109u32),
            (175u32, 174u32),
            (270u32, 342u32),
        ],
        PathDurationModel::Bt2015Ena => seq![
            (0u32, 0u32),
            (15u32, 26u32),
            (35u32, 175u32),
            (50u32, 251u32),
            (125u32, 251u32),
            (200u32, 285u32),
            (392u32, 460u32),
            (600u32, 691u32),
        ],
        _ => seq![(0u32, 0u32)],
    }
}

/// The slope of a single-segment model, milliseconds per kilometre.
pub open spec fn constant_slope(model: PathDurationModel) -> u32 {
    match model {
        PathDurationModel::Gp2010 => 63,
        PathDurationModel::Wus => 70,
        _ => 100,
    }
}

/// Segment `i` of a model's table. Past the last breakpoint the last slope goes on.
pub open spec fn segment_of(model: PathDurationModel, i: int) -> DurationSegment {
    let points = breakpoints(model);
    DurationSegment {
        start_km: points[i].0,
        duration_tenths: points[i].1,
        slope: if points.len() == 1 {
            Slope::PerKm { milliseconds: constant_slope(model) }
        } else if i + 1 < points.len() {
            Slope::Between { low: i as usize }
        } else {
            Slope::Between { low: (i - 1) as usize }
        },
    }
}

/// Whether `distance_km` is past the start of a segment. Being at it is not enough.
pub open spec fn past(distance_km: Single, start_km: u32) -> bool {
    exists|s: Single| #[trigger] reals::is_dyadic(s, start_km, 0) && s.below(distance_km)
}

/// A path-duration model as a table, ascending in distance.
pub struct PathDuration {
    segments: Vec<DurationSegment>,
}

impl PathDuration {
    /// The segments.
    pub closed spec fn table(self) -> Seq<DurationSegment> {
        self.segments@
    }

    /// Whether this is the table of `model`.
    pub open spec fn is_of(self, model: PathDurationModel) -> bool {
        self.table() == Seq::new(breakpoints(model).len(), |i: int| segment_of(model, i))
    }

    /// Whether every start is a whole number of kilometres that a single holds.
    pub open spec fn well_formed(self) -> bool {
        forall|i: int|
            0 <= i < self.table().len() ==> (#[trigger] self.table()[i]).start_km < 0x100_0000
    }

    /// Whether `r` is the segment that gives the duration at `distance_km`: the last of the
    /// leading segments that the distance is past, or `None` where it is past none.
    pub open spec fn is_bin(self, distance_km: Single, r: Option<usize>) -> bool {
        match r {
            Some(b) => {
                &&& b < self.table().len()
                &&& forall|i: int|
                    0 <= i <= b ==> past(distance_km, (#[trigger] self.table()[i]).start_km)
                &&& b + 1 < self.table().len() ==> !past(
                    distance_km,
                    self.table()[b + 1].start_km,
                )
            },
            None => self.table().len() == 0 || !past(distance_km, self.table()[0].start_km),
        }
    }

    /// Build a model's table.
    pub fn new(model: PathDurationModel) -> (t: Self)
        ensures
            t.is_of(model),
            t.well_formed(),
            forall|i: int|
                0 <= i < t.table().len() && t.table().len() > 1 ==> #[trigger] joins(t.table(), i),
    {
        let points: Vec<(u32, u32)> = match model {
            PathDurationModel::Bt2014Wus => vec![
                (0, 0),
                (7, 24),
                (45, 84),
                (125, 109),
                (175, 174),
                (270, 342),
            ],
            PathDurationModel::Bt2015Ena => vec![
                (0, 0),
                (15, 26),
                (35, 175),
                (50, 251),
                (125, 251),
                (200, 285),
                (392, 460),
                (600, 691),
            ],
            _ => vec![(0, 0)],
        };
        let milliseconds: u32 = match model {
            PathDurationModel::Gp2010 => 63,
            PathDurationModel::Wus => 70,
            _ => 100,
        };
        assert(points@ == breakpoints(model));
        let mut segments: Vec<DurationSegment> = Vec::new();
        let mut i: usize = 0;
        while i < points.len()
            invariant
                i <= points.len(),
                points@ == breakpoints(model),
                milliseconds == constant_slope(model),
                segments.len() == i,
                forall|j: int| 0 <= j < i ==> #[trigger] segments@[j] == segment_of(model, j),
            decreases points.len() - i,
        {
            let slope = if points.len() == 1 {
                Slope::PerKm { milliseconds }
            } else if i < points.len() - 1 {
                Slope::Between { low: i }
            } else {
                Slope::Between { low: i - 1 }
            };
            segments.push(
                DurationSegment {
                    start_km: points[i].0,
                    duration_tenths: points[i].1,
                    slope,
                },
            );
            i += 1;
        }
        let t = PathDuration { segments };
        assert(t.table() =~= Seq::new(breakpoints(model).len(), |i: int| segment_of(model, i)));
        proof {
            assert forall|i: int| 0 <= i < t.table().len() && t.table().len() > 1 implies
                #[trigger] joins(t.table(), i) by {
                durations_do_not_jump(t, model, i);
            }
        }
        t
    }

    /// The number of segments.
    pub fn len(&self) -> (n: usize)
        ensures
            n == self.table().len(),
    {
        self.segments.len()
    }

    /// Segment `i`.
    pub fn segment(&self, i: usize) -> (s: DurationSegment)
        requires
            i < self.table().len(),
        ensures
            s == self.table()[i as int],
    {
        self.segments[i]
    }

    /// The segment that gives the duration at `distance_km`: the last of the leading segments
    /// that the distance is past. `None` says that it is past none, and the duration is zero.
    pub fn bin(&self, distance_km: Single) -> (r: Option<usize>)
        requires
            self.well_formed(),
        ensures
            self.is_bin(distance_km, r),
    {
        let mut n: usize = 0;
        while n < self.segments.len()
            invariant_except_break
                n <= self.segments.len(),
                forall|i: int|
                    0 <= i < n ==> past(distance_km, (#[trigger] self.table()[i]).start_km),
            invariant
                self.well_formed(),
            ensures
                n <= self.segments.len(),
                forall|i: int|
                    0 <= i < n ==> past(distance_km, (#[trigger] self.table()[i]).start_km),
                n < self.segments.len() ==> !past(distance_km, self.table()[n as int].start_km),
            decreases self.segments.len() - n,
        {
            let start_km: u32 = self.segments[n].start_km;
            assert(self.table()[n as int].start_km == start_km);
            let start = dyadic(start_km, 0);
            if !start.is_below(distance_km) {
                proof {
                    assert forall|s: Single| #[trigger] reals::is_dyadic(s, start_km, 0) implies
                        !s.below(distance_km) by {
                        reals::dyadics_keep_order(s, start, start_km, start_km, 0);
                    }
                }
                break;
            }
            n += 1;
        }
        if n == 0 {
            None
        } else {
            Some(n - 1)
        }
    }
}

/// Every table ascends in distance, starts at zero, and never shortens with distance. Its
/// distances are small enough for every bin to be found.
pub proof fn tables_ascend(model: PathDurationModel, i: int, j: int)
    requires
        0 <= i < j < breakpoints(model).len(),
    ensures
        segment_of(model, 0).start_km == 0,
        segment_of(model, 0).duration_tenths == 0,
        segment_of(model, i).start_km < segment_of(model, j).start_km < 0x100_0000,
        segment_of(model, i).duration_tenths <= segment_of(model, j).duration_tenths,
{
}

/// Being past a segment is being past every one before it, so the last of the leading segments
/// is the last of all that the distance is past.
pub proof fn being_past_is_downward(distance_km: Single, near_km: u32, far_km: u32)
    requires
        near_km <= far_km < 0x100_0000,
        past(distance_km, far_km),
    ensures
        past(distance_km, near_km),
{
    let far = choose|s: Single| #[trigger] reals::is_dyadic(s, far_km, 0) && s.below(distance_km);
    let near = reals::dyadics_exist(near_km, 0);
    reals::dyadics_keep_order(near, far, near_km, far_km, 0);
    reals::dyadic_bounds(near, near_km, 0);
    assert(near.below(distance_km));
}

/// The breakpoints that a segment's slope joins are neighbours: how far apart they are, in
/// kilometres, and how much the duration grows between them, in tenths of a second.
pub open spec fn run_and_rise(table: Seq<DurationSegment>, low: int) -> (int, int) {
    (
        table[low + 1].start_km - table[low].start_km,
        table[low + 1].duration_tenths - table[low].duration_tenths,
    )
}

/// Whether the duration does not jump at the end of segment `i`: its slope leads from the
/// segment's own duration at its start to the next segment's at the next start, and past the last
/// breakpoint the slope of the segment before goes on. Multiplied by the slope's run, so that it
/// is exact.
pub open spec fn joins(table: Seq<DurationSegment>, i: int) -> bool {
    table[i].slope matches Slope::Between { low } && {
        let (run, rise) = run_and_rise(table, low as int);
        &&& low + 1 < table.len()
        &&& run > 0
        &&& i + 1 < table.len() ==> table[i].duration_tenths * run + rise * (table[i + 1].start_km
            - table[i].start_km) == table[i + 1].duration_tenths * run
        &&& i + 1 == table.len() ==> table[i].slope == table[i - 1].slope
    }
}

/// The duration does not jump: a table of several segments is continuous at every breakpoint, and
/// only the last segment borrows the slope before it.
pub proof fn durations_do_not_jump(t: PathDuration, model: PathDurationModel, i: int)
    requires
        t.is_of(model),
        0 <= i < t.table().len(),
        t.table().len() > 1,
    ensures
        joins(t.table(), i),
{
    let table = t.table();
    assert(table[i] == segment_of(model, i));
    if i + 1 < table.len() {
        assert(table[i + 1] == segment_of(model, i + 1));
        let (run, rise) = run_and_rise(table, i);
        assert(table[i].duration_tenths * run + rise * run == (table[i].duration_tenths + rise)
            * run) by (nonlinear_arith);
    } else {
        assert(table[i - 1] == segment_of(model, i - 1));
    }
}

/// A model of one segment grows by the same amount with every kilometre, from nothing at no
/// distance. A thousand kilometres add 63 s, 70 s in the western US and 100 s in eastern North
/// America.
pub proof fn single_segments_grow_evenly(t: PathDuration, model: PathDurationModel)
    requires
        t.is_of(model),
    ensures
        t.table().len() == 1 <==> model != PathDurationModel::Bt2014Wus && model
            != PathDurationModel::Bt2015Ena,
        t.table().len() == 1 ==> {
            &&& t.table()[0].start_km == 0
            &&& t.table()[0].duration_tenths == 0
            &&& t.table()[0].slope is PerKm
            &&& t.table()[0].slope->milliseconds * 1000 == 1000 * match model {
                PathDurationModel::Gp2010 => 63int,
                PathDurationModel::Wus => 70int,
                _ => 100int,
            }
        },
{
}

/// How far each breakpoint of a model is from the one before, in kilometres, and how much longer
/// its duration is, in tenths of a second: 2.4 s over the first 7 km in active regions, 2.6 s over
/// the first 15 km in stable ones, and so on. Only from 50 to 125 km in stable regions does the
/// duration stay.
pub open spec fn steps_of(model: PathDurationModel) -> Seq<(int, int)> {
    match model {
        PathDurationModel::Bt2014Wus => seq![
            (7int, 24int),
            (38int, 60int),
            (80int, 25int),
            (50int, 65int),
            (95int, 168int),
        ],
        PathDurationModel::Bt2015Ena => seq![
            (15int, 26int),
            (20int, 149int),
            (15int, 76int),
            (75int, 0int),
            (75int, 34int),
            (192int, 175int),
            (208int, 231int),
        ],
        _ => Seq::empty(),
    }
}

/// The tables are the published ones: every breakpoint is its model's step from the one before.
pub proof fn tables_climb_by_their_steps(t: PathDuration, model: PathDurationModel, i: int)
    requires
        t.is_of(model),
        0 <= i < steps_of(model).len(),
    ensures
        t.table().len() == steps_of(model).len() + 1,
        t.table()[0].start_km == 0,
        t.table()[0].duration_tenths == 0,
        run_and_rise(t.table(), i) == steps_of(model)[i],
{
    assert(t.table()[i] == segment_of(model, i));
    assert(t.table()[i + 1] == segment_of(model, i + 1));
}

/// A distance is past a breakpoint where it is greater, and not where it is the same: at a
/// breakpoint the segment before still holds. What is not a number is past none.
pub proof fn being_past_is_being_greater(distance_km: Single, start_km: u32)
    requires
        start_km < 0x100_0000,
    ensures
        distance_km.ordered() ==> (past(distance_km, start_km) <==> start_km * pow2(149)
            < distance_km.value()),
        !distance_km.ordered() ==> !past(distance_km, start_km),
{
    let s = reals::dyadics_exist(start_km, 0);
    reals::dyadics_have_their_value(s, start_km, 0);
    reals::dyadic_bounds(s, start_km, 0);
    reals::singles_are_ordered_by_value(s, distance_km);
    if past(distance_km, start_km) {
        let t = choose|t: Single| #[trigger]
            reals::is_dyadic(t, start_km, 0) && t.below(distance_km);
        reals::dyadics_keep_order(s, t, start_km, start_km, 0);
    }
}

} // verus!
