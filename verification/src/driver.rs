//! The decisions of a run over a parameter deck: its sizes, which of its quantities are given and
//! which are derived, and which deviates it takes.

use vstd::arithmetic::power2::*;
use vstd::prelude::*;

use crate::fort;
use crate::fort::int_trunc;
use crate::reals::Single;
use crate::record;
use crate::record::Placement;
use crate::slip_model;
use crate::slip_model::Segment;
use crate::source;
use crate::source::MomentWeight;
use crate::spectrum;
use crate::spectrum::power_length;

verus! {

/// The longest record and the longest transform, in samples. A run that perturbs anything draws
/// this many normal deviates for each station.
pub const SAMPLE_LIMIT: usize = 262_144;

/// How many samples a record has: the duration over the sample interval, cut to whole samples and
/// held to the limit.
pub open spec fn samples_of(quotient: Single) -> int {
    if 0 <= fort::cut(quotient) < SAMPLE_LIMIT {
        fort::cut(quotient)
    } else {
        SAMPLE_LIMIT as int
    }
}

/// How many samples a record has: the duration over the sample interval, cut to whole samples and
/// held to the limit. A negative quotient is held to the limit too.
pub fn record_samples(quotient: Single) -> (n: usize)
    ensures
        n == samples_of(quotient),
{
    let n: i32 = int_trunc(quotient);
    if 0 <= n && n < 262_144 {
        n as usize
    } else {
        SAMPLE_LIMIT
    }
}

/// The transform length for a window: `points` is twice the longest window over the sample
/// interval. It is the smallest power of two, from two on, that holds them; `None` where that is
/// over the limit.
pub fn transform_length(points: Single) -> (r: Option<usize>)
    requires
        fort::cut(points) >= 0,
    ensures
        match r {
            Some(np2) => {
                &&& spectrum::is_power_length(fort::cut(points), np2 as int)
                &&& np2 <= SAMPLE_LIMIT
            },
            None => forall|n: int| #[trigger]
                spectrum::is_power_length(fort::cut(points), n) ==> n > SAMPLE_LIMIT,
        },
{
    power_length(int_trunc(points) as usize, SAMPLE_LIMIT)
}

/// Where a contribution lands: one sample after its start.
pub fn delayed_placement(start_sample: i32, np2: usize, ndata: usize) -> (r: Option<Placement>)
    requires
        start_sample < i32::MAX,
        np2 <= i32::MAX,
        ndata <= i32::MAX,
    ensures
        r == record::placed(start_sample + 1, np2 as int, ndata as int),
{
    Placement::clip(start_sample + 1, np2, ndata)
}

/// Whether the velocity model is perturbed below its first layers.
pub open spec fn perturbs(nlskip: int, air_inserted: bool) -> bool {
    nlskip + (if air_inserted {
        1int
    } else {
        0int
    }) >= 0
}

/// Whether the velocity model is perturbed below its first layers: `nlskip` says how many are left
/// alone, and is negative where none is perturbed. An air layer at the top is one more.
pub fn perturbs_model(nlskip: i32, air_inserted: bool) -> (b: bool)
    ensures
        b == perturbs(nlskip as int, air_inserted),
{
    if air_inserted {
        nlskip >= -1
    } else {
        nlskip >= 0
    }
}

/// Whether any of the three perturbations is on, so that a station's normal deviates are drawn.
pub fn draws_normals(fasig1: Single, fasig2: Single, rvsig1: Single) -> (b: bool)
    ensures
        b == (Single(0).below(fasig1) || Single(0).below(fasig2) || Single(0).below(rvsig1)),
{
    Single(0).is_below(fasig1) || Single(0).is_below(fasig2) || Single(0).is_below(rvsig1)
}

/// Which of a station's deviates the next subfault takes.
///
/// The deviates are numbered from one, and the first is never taken. A segment starts over.
#[derive(Clone, Copy, Debug, PartialEq, Eq, Structural)]
pub struct DeviateCounter {
    pub taken: usize,
}

impl DeviateCounter {
    /// At the start of a segment.
    pub fn new() -> (c: Self)
        ensures
            c.taken == 0,
    {
        DeviateCounter { taken: 0 }
    }

    /// The number of the deviate that a radiating subfault takes: none where the rupture speed is
    /// not perturbed. The perturbation and its deviate are one switch.
    pub fn take(&mut self, rvsig1: Single) -> (r: Option<usize>)
        requires
            old(self).taken + 2 <= usize::MAX,
        ensures
            Single(0).below(rvsig1) ==> {
                &&& r == Some((old(self).taken + 2) as usize)
                &&& final(self).taken == old(self).taken + 1
            },
            !Single(0).below(rvsig1) ==> r is None && *final(self) == *old(self),
    {
        if Single(0).is_below(rvsig1) {
            self.taken = self.taken + 1;
            Some(self.taken + 1)
        } else {
            None
        }
    }
}

// ---------------------------------------------------------------------------
// The walk over a segment
// ---------------------------------------------------------------------------

/// One subfault of a segment that radiates.
#[derive(Clone, Copy, Debug, PartialEq, Eq, Structural)]
pub struct Visit {
    pub along_strike: usize,
    pub down_dip: usize,
    /// Its place in storage.
    pub place: usize,
    /// The number of the deviate that perturbs its rupture speed.
    pub deviate: Option<usize>,
}

/// The visits among the first `n` subfaults of a grid, the strike index outermost. `weights` are
/// in storage order.
pub open spec fn visits_among(
    along: int,
    down: int,
    weights: Seq<MomentWeight>,
    perturbed: bool,
    n: nat,
) -> Seq<Visit>
    decreases n,
{
    if n == 0 {
        Seq::empty()
    } else {
        let before = visits_among(along, down, weights, perturbed, (n - 1) as nat);
        let (along_strike, down_dip) = slip_model::strike_major_at(down, n - 1);
        let place = slip_model::place_of(along, along_strike as int, down_dip as int);
        if weights[place].silent() {
            before
        } else {
            before.push(
                Visit {
                    along_strike,
                    down_dip,
                    place: place as usize,
                    deviate: if perturbed {
                        Some((before.len() + 2) as usize)
                    } else {
                        None
                    },
                },
            )
        }
    }
}

/// The subfaults of a segment that radiate, in the order in which they take their deviates: the
/// strike index outermost.
pub fn segment_visits(
    segment: &Segment,
    weights: &Vec<MomentWeight>,
    rvsig1: Single,
) -> (visits: Vec<Visit>)
    requires
        segment.well_formed(),
        weights.len() == segment.subfaults.len(),
        segment.subfaults.len() + 1 <= usize::MAX,
    ensures
        visits@ == visits_among(
            segment.along_strike_count as int,
            segment.down_dip_count as int,
            weights@,
            Single(0).below(rvsig1),
            segment.subfaults@.len(),
        ),
{
    let order = segment.strike_major();
    let ghost (along, down) = (
        segment.along_strike_count as int,
        segment.down_dip_count as int,
    );
    let ghost perturbed = Single(0).below(rvsig1);
    let mut visits: Vec<Visit> = Vec::new();
    let mut counter = DeviateCounter::new();
    let mut k: usize = 0;
    while k < order.len()
        invariant
            k <= order.len(),
            segment.well_formed(),
            weights.len() == segment.subfaults.len(),
            segment.subfaults.len() + 1 <= usize::MAX,
            along == segment.along_strike_count,
            down == segment.down_dip_count,
            perturbed == Single(0).below(rvsig1),
            order@ == Seq::new(
                (segment.along_strike_count * segment.down_dip_count) as nat,
                |k: int| slip_model::strike_major_at(segment.down_dip_count as int, k),
            ),
            visits@ == visits_among(along, down, weights@, perturbed, k as nat),
            visits.len() <= k,
            perturbed ==> counter.taken == visits.len(),
            !perturbed ==> counter.taken == 0,
        decreases order.len() - k,
    {
        let (along_strike, down_dip): (usize, usize) = order[k];
        proof {
            slip_model::strike_major_meets_every_subfault_once(along, down, k as int, 0, 0);
        }
        let place: usize = segment.grid_index(along_strike, down_dip);
        if !weights[place].is_silent() {
            let deviate = counter.take(rvsig1);
            visits.push(Visit { along_strike, down_dip, place, deviate });
        }
        k += 1;
    }
    visits
}

/// The walk visits just what radiates. Every visit is to a subfault of the grid that is not
/// silent, and has a deviate of its own where the rupture speed is perturbed: the numbers run from
/// two on. A visit is further on in the order than the one before, so no subfault is met twice.
pub proof fn visits_are_to_what_radiates(
    along: int,
    down: int,
    weights: Seq<MomentWeight>,
    perturbed: bool,
    n: nat,
)
    requires
        0 <= along <= usize::MAX,
        0 <= down <= usize::MAX,
        n <= along * down,
        along * down <= usize::MAX - 2,
    ensures
        visits_among(along, down, weights, perturbed, n).len() <= n,
        forall|v: int|
            0 <= v < visits_among(along, down, weights, perturbed, n).len() ==> {
                let visit = #[trigger] visits_among(along, down, weights, perturbed, n)[v];
                let (i, j) = (visit.along_strike as int, visit.down_dip as int);
                &&& slip_model::on_grid(along, down, i, j)
                &&& visit.place == slip_model::place_of(along, i, j)
                &&& !weights[visit.place as int].silent()
                &&& visit.deviate == if perturbed {
                    Some((v + 2) as usize)
                } else {
                    None::<usize>
                }
                &&& slip_model::place_of(down, j, i) < n
            },
        forall|u: int, v: int|
            0 <= u < v < visits_among(along, down, weights, perturbed, n).len() ==> {
                let a = #[trigger] visits_among(along, down, weights, perturbed, n)[u];
                let b = #[trigger] visits_among(along, down, weights, perturbed, n)[v];
                slip_model::place_of(down, a.down_dip as int, a.along_strike as int)
                    < slip_model::place_of(down, b.down_dip as int, b.along_strike as int)
            },
    decreases n,
{
    if n > 0 {
        visits_are_to_what_radiates(along, down, weights, perturbed, (n - 1) as nat);
        slip_model::strike_major_meets_every_subfault_once(along, down, n - 1, 0, 0);
        let (i, j) = slip_model::strike_major_at(down, n - 1);
        slip_model::storage_is_depth_major(along, down, 0, i as int, j as int);
    }
}

/// There are as many visits as subfaults met that radiate.
proof fn visits_are_counted(
    along: int,
    down: int,
    weights: Seq<MomentWeight>,
    perturbed: bool,
    n: nat,
)
    ensures
        visits_among(along, down, weights, perturbed, n).len() == source::radiating_among(
            along,
            down,
            weights,
            n,
        ),
    decreases n,
{
    if n > 0 {
        visits_are_counted(along, down, weights, perturbed, (n - 1) as nat);
    }
}

/// The number of visits to a segment is the number of its weights that radiate: what
/// [`source::radiating_subfaults`] counts is what is walked.
pub proof fn visits_number_what_radiates(
    along: int,
    down: int,
    weights: Seq<MomentWeight>,
    perturbed: bool,
)
    requires
        0 <= along <= usize::MAX,
        0 <= down <= usize::MAX,
        weights.len() == along * down,
    ensures
        visits_among(along, down, weights, perturbed, weights.len()).len() == source::radiating_in(
            weights,
            weights.len(),
        ),
{
    visits_are_counted(along, down, weights, perturbed, weights.len());
    source::counting_agrees_with_walking(along, down, weights);
}

/// Nothing that radiates is passed over: a subfault of the grid that is not silent has a visit.
pub proof fn what_radiates_is_visited(
    along: int,
    down: int,
    weights: Seq<MomentWeight>,
    perturbed: bool,
    n: nat,
    i: int,
    j: int,
)
    requires
        slip_model::on_grid(along, down, i, j),
        along <= usize::MAX,
        down <= usize::MAX,
        slip_model::place_of(down, j, i) < n,
        n <= along * down,
        !weights[slip_model::place_of(along, i, j)].silent(),
    ensures
        exists|v: int|
            0 <= v < visits_among(along, down, weights, perturbed, n).len() && {
                let visit = #[trigger] visits_among(along, down, weights, perturbed, n)[v];
                visit.along_strike == i && visit.down_dip == j
            },
    decreases n,
{
    let all = visits_among(along, down, weights, perturbed, n);
    let before = visits_among(along, down, weights, perturbed, (n - 1) as nat);
    slip_model::strike_major_meets_every_subfault_once(along, down, n - 1, i, j);
    if slip_model::place_of(down, j, i) == n - 1 {
        assert(all[all.len() - 1].along_strike == i && all[all.len() - 1].down_dip == j);
    } else {
        what_radiates_is_visited(along, down, weights, perturbed, (n - 1) as nat, i, j);
        let v = choose|v: int|
            0 <= v < before.len() && {
                let visit = #[trigger] before[v];
                visit.along_strike == i && visit.down_dip == j
            };
        assert(all[v] == before[v]);
    }
}

// ---------------------------------------------------------------------------
// What is given and what is derived
// ---------------------------------------------------------------------------

/// How the stress parameter is adjusted to a target magnitude.
#[derive(Clone, Copy, Debug, PartialEq, Eq, Structural)]
pub enum StressAdjustment {
    /// Not at all.
    Unadjusted,
    /// By the area scaling of active regions.
    Active,
    /// By the area scaling of stable regions.
    Stable,
}

impl StressAdjustment {
    /// The adjustment that a code names.
    pub fn from_code(code: i32) -> (a: Self)
        ensures
            a == if code == 1 {
                StressAdjustment::Active
            } else if code == 2 {
                StressAdjustment::Stable
            } else {
                StressAdjustment::Unadjusted
            },
    {
        if code == 1 {
            StressAdjustment::Active
        } else if code == 2 {
            StressAdjustment::Stable
        } else {
            StressAdjustment::Unadjusted
        }
    }
}

/// Where a subfault's rupture time comes from.
#[derive(Clone, Copy, Debug, PartialEq, Eq, Structural)]
pub enum RuptureTime {
    /// From the slip model.
    Given,
    /// From the distance to the hypocentre and the rupture speed, with a deviate of its own where
    /// it is jittered.
    Derived { jittered: bool },
}

impl RuptureTime {
    /// Where the rupture times come from, given the rupture speed and the seed as it stands after
    /// seeding.
    pub fn chosen(vr: Single, irand: i32) -> (t: Self)
        ensures
            t == if vr.at_most(Single(0)) {
                RuptureTime::Given
            } else {
                RuptureTime::Derived { jittered: irand > 0 }
            },
    {
        if vr.is_at_most(Single(0)) {
            RuptureTime::Given
        } else {
            RuptureTime::Derived { jittered: irand > 0 }
        }
    }
}

/// A quantity that the deck gives, or `None` where it is not positive and so is derived.
pub fn given_if_positive(value: Single) -> (r: Option<Single>)
    ensures
        r == if value.at_most(Single(0)) {
            None
        } else {
            Some(value)
        },
{
    if value.is_at_most(Single(0)) {
        None
    } else {
        Some(value)
    }
}

/// A quantity that the deck gives, or `None` where it is negative and so is derived.
pub fn given_unless_negative(value: Single) -> (r: Option<Single>)
    ensures
        r == if value.below(Single(0)) {
            None
        } else {
            Some(value)
        },
{
    if value.is_below(Single(0)) {
        None
    } else {
        Some(value)
    }
}

/// A contribution lands a sample later than its start says, and otherwise as it would: each of its
/// samples goes to the index after the one that an undelayed placement gives it.
pub proof fn delays_are_by_one_sample(start: int, length: int, ndata: int, i: int, at: int)
    ensures
        record::lands_on(start + 1, length, ndata, i, at) && at > 0 <==> record::lands_on(
            start,
            length,
            ndata,
            i,
            at - 1,
        ) && at < ndata,
{
}

/// A record has as many whole samples as fit its duration, and never more than 2^18. One of a
/// negative duration of a sample or more has as many as there can be.
pub proof fn records_hold_their_duration(quotient: Single)
    requires
        quotient.magnitude() < 0x7f80_0000,
    ensures
        ({
            let (v, n, one) = (quotient.value(), samples_of(quotient), pow2(149) as int);
            &&& 0 <= n <= 262_144
            &&& 0 <= v < 262_144 * one ==> n * one <= v < (n + 1) * one
            &&& v >= 262_144 * one ==> n == 262_144
            &&& v <= -one ==> n == 262_144
        }),
{
    let (v, n, one) = (quotient.value(), fort::cut(quotient), pow2(149) as int);
    fort::cutting_is_toward_zero(quotient);
    lemma_pow2_pos(149);
    assert((-0x8000_0000) * one == -(0x8000_0000 * one)) by (nonlinear_arith);
    assert(0 <= v < 262_144 * one ==> v < 0x8000_0000 * one) by (nonlinear_arith)
        requires
            one > 0,
    ;
    assert(n * one <= v && v < 262_144 * one ==> n < 262_144) by (nonlinear_arith)
        requires
            one > 0,
    ;
    assert(v < (n + 1) * one && v >= 0 ==> n >= 0) by (nonlinear_arith)
        requires
            one > 0,
    ;
    assert(v < (n + 1) * one && v >= 262_144 * one ==> n >= 262_144) by (nonlinear_arith)
        requires
            one > 0,
    ;
    assert((n - 1) * one < v && v <= -one ==> n < 0) by (nonlinear_arith)
        requires
            one > 0,
    ;
}

/// An air layer is one more layer that is left alone, and leaving alone a number of layers, none
/// among them, is what perturbs the rest.
pub proof fn air_is_left_alone_too(nlskip: int)
    ensures
        perturbs(nlskip, true) == perturbs(nlskip + 1, false),
        perturbs(nlskip, false) <==> nlskip >= 0,
{
}

} // verus!
