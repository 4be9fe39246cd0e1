//! The source: which subfaults radiate, and how fast the rupture reaches them.
//!
//! What is decided here is decided by comparison: which band of the rupture-velocity taper a
//! depth lies in, whether a subfault's weight is worth walking, whether a perturbation is drawn.

use vstd::arithmetic::power2::*;
use vstd::prelude::*;

use crate::reals;
use crate::reals::Single;
use crate::slip_model;

verus! {

// ---------------------------------------------------------------------------
// Moment weights
// ---------------------------------------------------------------------------

/// The bit pattern of 0.001: below this relative moment a subfault contributes nothing. Counting
/// subfaults and walking them apply it alike.
pub const SUBFAULT_WEIGHT_THRESHOLD: u32 = 0x3a83_126f;

/// A subfault's share of the total moment, normalised so that the mean over contributing
/// subfaults is one. It is not slip.
#[derive(Clone, Copy, Debug, PartialEq, Eq, Structural)]
pub struct MomentWeight(pub Single);

impl MomentWeight {
    /// Whether the weight is too small for the subfault to radiate: below the threshold.
    pub open spec fn silent(self) -> bool {
        self.0.below(Single(SUBFAULT_WEIGHT_THRESHOLD))
    }

    /// Whether the weight is too small for the subfault to radiate.
    pub fn is_silent(self) -> (b: bool)
        ensures
            b == self.silent(),
    {
        self.0.is_below(Single(SUBFAULT_WEIGHT_THRESHOLD))
    }
}

/// How many of the first `n` weights radiate.
pub open spec fn radiating_in(weights: Seq<MomentWeight>, n: nat) -> nat
    decreases n,
{
    if n == 0 {
        0
    } else {
        radiating_in(weights, (n - 1) as nat) + if !weights[n - 1].silent() {
            1nat
        } else {
            0nat
        }
    }
}

/// How many weights of the first `n` segments radiate.
pub open spec fn radiating_over(segments: Seq<Vec<MomentWeight>>, n: nat) -> nat
    decreases n,
{
    if n == 0 {
        0
    } else {
        radiating_over(segments, (n - 1) as nat) + radiating_in(
            segments[n - 1]@,
            segments[n - 1]@.len(),
        )
    }
}

/// How many weights the first `n` segments hold.
pub open spec fn weights_over(segments: Seq<Vec<MomentWeight>>, n: nat) -> nat
    decreases n,
{
    if n == 0 {
        0
    } else {
        weights_over(segments, (n - 1) as nat) + segments[n - 1]@.len()
    }
}

/// No more weights radiate than there are.
proof fn radiating_are_bounded(weights: Seq<MomentWeight>, n: nat)
    ensures
        radiating_in(weights, n) <= n,
    decreases n,
{
    if n > 0 {
        radiating_are_bounded(weights, (n - 1) as nat);
    }
}

/// More segments never hold fewer weights.
proof fn weights_ascend(segments: Seq<Vec<MomentWeight>>, m: nat, n: nat)
    requires
        m <= n,
    ensures
        weights_over(segments, m) <= weights_over(segments, n),
    decreases n,
{
    if m < n {
        weights_ascend(segments, m, (n - 1) as nat);
    }
}

/// How many subfaults radiate, over all segments: the number of weights that are not silent, as
/// the walk over a segment tests them.
pub fn radiating_subfaults(segments: &Vec<Vec<MomentWeight>>) -> (n: usize)
    requires
        weights_over(segments@, segments@.len()) <= usize::MAX,
    ensures
        n == radiating_over(segments@, segments@.len()),
        n <= weights_over(segments@, segments@.len()),
{
    let mut n: usize = 0;
    let mut s: usize = 0;
    while s < segments.len()
        invariant
            s <= segments.len(),
            weights_over(segments@, segments@.len()) <= usize::MAX,
            n == radiating_over(segments@, s as nat),
            n <= weights_over(segments@, s as nat),
        decreases segments.len() - s,
    {
        let weights: &Vec<MomentWeight> = &segments[s];
        let ghost before = n;
        let mut w: usize = 0;
        proof {
            weights_ascend(segments@, (s + 1) as nat, segments@.len());
        }
        while w < weights.len()
            invariant
                w <= weights.len(),
                n == before + radiating_in(weights@, w as nat),
                radiating_in(weights@, w as nat) <= w,
                before + weights.len() <= usize::MAX,
            decreases weights.len() - w,
        {
            if !weights[w].is_silent() {
                n += 1;
            }
            w += 1;
        }
        proof {
            radiating_are_bounded(weights@, weights@.len());
        }
        s += 1;
    }
    n
}

// ---------------------------------------------------------------------------
// Counting and walking
// ---------------------------------------------------------------------------

/// How many of the first `n` subfaults of a grid radiate, the strike index outermost. `weights` are
/// in storage order.
pub open spec fn radiating_among(along: int, down: int, weights: Seq<MomentWeight>, n: nat) -> nat
    decreases n,
{
    if n == 0 {
        0
    } else {
        let (i, j) = slip_model::strike_major_at(down, n - 1);
        radiating_among(along, down, weights, (n - 1) as nat) + if !weights[slip_model::place_of(
            along,
            i as int,
            j as int,
        )].silent() {
            1nat
        } else {
            0nat
        }
    }
}

/// The first `n` places that radiate.
spec fn places_in(weights: Seq<MomentWeight>, n: int) -> Set<int> {
    Set::new(|p: int| 0 <= p < n && !weights[p].silent())
}

/// A subfault's number in an order with the strike index outermost, by its place.
spec fn number_of(along: int, down: int, place: int) -> int {
    let (i, j) = slip_model::depth_major_at(along, place);
    slip_model::place_of(down, j as int, i as int)
}

/// The places that radiate among the first `n` subfaults, the strike index outermost.
spec fn places_among(along: int, down: int, weights: Seq<MomentWeight>, n: int) -> Set<int> {
    Set::new(
        |p: int|
            0 <= p < along * down && number_of(along, down, p) < n && !weights[p].silent(),
    )
}

/// Counting in storage order counts places.
proof fn storage_counts_places(weights: Seq<MomentWeight>, n: nat)
    ensures
        places_in(weights, n as int).finite(),
        places_in(weights, n as int).len() == radiating_in(weights, n),
    decreases n,
{
    if n == 0 {
        assert(places_in(weights, 0) =~= Set::empty());
    } else {
        storage_counts_places(weights, (n - 1) as nat);
        let before = places_in(weights, n - 1);
        if weights[n - 1].silent() {
            assert(places_in(weights, n as int) =~= before);
        } else {
            assert(places_in(weights, n as int) =~= before.insert(n - 1));
        }
    }
}

/// Counting along the walk counts places.
proof fn the_walk_counts_places(along: int, down: int, weights: Seq<MomentWeight>, n: nat)
    requires
        0 <= along <= usize::MAX,
        0 <= down <= usize::MAX,
        n <= along * down,
    ensures
        places_among(along, down, weights, n as int).finite(),
        places_among(along, down, weights, n as int).len() == radiating_among(
            along,
            down,
            weights,
            n,
        ),
    decreases n,
{
    assert forall|p: int| 0 <= p < along * down implies 0 <= #[trigger] number_of(along, down, p)
        && ({
        let (i, j) = slip_model::strike_major_at(down, number_of(along, down, p));
        slip_model::place_of(along, i as int, j as int) == p
    }) by {
        slip_model::storage_is_depth_major(along, down, p, 0, 0);
        let (i, j) = slip_model::depth_major_at(along, p);
        slip_model::strike_major_meets_every_subfault_once(along, down, 0, i as int, j as int);
    }
    let all = places_among(along, down, weights, n as int);
    if n == 0 {
        assert(all =~= Set::empty());
    } else {
        the_walk_counts_places(along, down, weights, (n - 1) as nat);
        let before = places_among(along, down, weights, n - 1);
        slip_model::strike_major_meets_every_subfault_once(along, down, n - 1, 0, 0);
        let (i, j) = slip_model::strike_major_at(down, n - 1);
        slip_model::storage_is_depth_major(along, down, 0, i as int, j as int);
        let place = slip_model::place_of(along, i as int, j as int);
        assert(number_of(along, down, place) == n - 1);
        if weights[place].silent() {
            assert(all =~= before);
        } else {
            assert(all =~= before.insert(place));
        }
    }
}

/// Counting and walking agree: as many weights of a segment are not silent in storage order as the
/// walk, with the strike index outermost, meets.
pub proof fn counting_agrees_with_walking(along: int, down: int, weights: Seq<MomentWeight>)
    requires
        0 <= along <= usize::MAX,
        0 <= down <= usize::MAX,
    ensures
        radiating_among(along, down, weights, (along * down) as nat) == radiating_in(
            weights,
            (along * down) as nat,
        ),
{
    assert(0 <= along * down) by (nonlinear_arith)
        requires
            0 <= along,
            0 <= down,
    ;
    let total = (along * down) as nat;
    storage_counts_places(weights, total);
    the_walk_counts_places(along, down, weights, total);
    assert forall|p: int| 0 <= p < total implies #[trigger] number_of(along, down, p) < total by {
        slip_model::storage_is_depth_major(along, down, p, 0, 0);
        let (i, j) = slip_model::depth_major_at(along, p);
        slip_model::strike_major_meets_every_subfault_once(along, down, 0, i as int, j as int);
    }
    assert(places_among(along, down, weights, total as int) =~= places_in(weights, total as int));
}

// ---------------------------------------------------------------------------
// The rupture-velocity taper
// ---------------------------------------------------------------------------

/// The bit pattern of 5 km: the top of the shallow weak zone.
pub const SHALLOW_ZONE_TOP_KM: u32 = 0x40a0_0000;

/// The bit pattern of 8 km: the base of the shallow weak zone.
pub const SHALLOW_ZONE_BASE_KM: u32 = 0x4100_0000;

/// The bit pattern of 15 km: the top of the deep weak zone, when no hypocentre is below it.
pub const DEEP_ZONE_TOP_KM: u32 = 0x4170_0000;

/// The bit pattern of 20 km: the base of the deep weak zone, in the same case.
pub const DEEP_ZONE_BASE_KM: u32 = 0x41a0_0000;

/// The bit pattern of 5 km: how thick the deep zone is when it has to move down.
pub const DEEP_ZONE_THICKNESS_KM: u32 = 0x40a0_0000;

/// The bit pattern of 1.4: what a perturbed factor is held to.
pub const RUPTURE_VELOCITY_FRACTION_MAX: u32 = 0x3fb3_3333;

/// Where a depth lies in the taper.
#[derive(Clone, Copy, Debug, PartialEq, Eq, Structural)]
pub enum Band {
    /// Above the shallow zone: the shallow factor.
    Shallow,
    /// In the shallow zone: from the shallow factor up to the full fraction.
    ShallowRamp,
    /// Between the zones: the full fraction.
    Full,
    /// In the deep zone: from the full fraction down to the deep factor.
    DeepRamp,
    /// Below the deep zone: the deep factor.
    Deep,
}

/// The transition depths of the taper.
#[derive(Clone, Copy, Debug, PartialEq, Eq, Structural)]
pub struct RuptureVelocityTaper {
    pub shallow_top_km: Single,
    pub shallow_base_km: Single,
    pub deep_top_km: Single,
    pub deep_base_km: Single,
}

impl RuptureVelocityTaper {
    /// The transition depths, fixed against the deepest hypocentre.
    pub open spec fn fixed(
        max_hypocentre_depth_km: Single,
        lowered_base_km: Single,
    ) -> RuptureVelocityTaper {
        let lowered = Single(DEEP_ZONE_TOP_KM).below(max_hypocentre_depth_km);
        RuptureVelocityTaper {
            shallow_top_km: Single(SHALLOW_ZONE_TOP_KM),
            shallow_base_km: Single(SHALLOW_ZONE_BASE_KM),
            deep_top_km: if lowered {
                max_hypocentre_depth_km
            } else {
                Single(DEEP_ZONE_TOP_KM)
            },
            deep_base_km: if lowered {
                lowered_base_km
            } else {
                Single(DEEP_ZONE_BASE_KM)
            },
        }
    }

    /// Fix the transition depths against the deepest hypocentre.
    ///
    /// Where that hypocentre is below the default top of the deep zone, the zone moves down to
    /// start at it, and ends [`DEEP_ZONE_THICKNESS_KM`] below it, at `lowered_base_km`.
    pub fn new(max_hypocentre_depth_km: Single, lowered_base_km: Single) -> (t: Self)
        ensures
            t == RuptureVelocityTaper::fixed(max_hypocentre_depth_km, lowered_base_km),
    {
        let (deep_top_km, deep_base_km) = if Single(DEEP_ZONE_TOP_KM).is_below(
            max_hypocentre_depth_km,
        ) {
            (max_hypocentre_depth_km, lowered_base_km)
        } else {
            (Single(DEEP_ZONE_TOP_KM), Single(DEEP_ZONE_BASE_KM))
        };
        RuptureVelocityTaper {
            shallow_top_km: Single(SHALLOW_ZONE_TOP_KM),
            shallow_base_km: Single(SHALLOW_ZONE_BASE_KM),
            deep_top_km,
            deep_base_km,
        }
    }

    /// Where `depth_km` lies. Where the zones overlap the deep one decides.
    pub open spec fn band_of(self, depth_km: Single) -> Band {
        if self.deep_base_km.at_most(depth_km) {
            Band::Deep
        } else if self.deep_top_km.at_most(depth_km) {
            Band::DeepRamp
        } else if self.shallow_base_km.at_most(depth_km) {
            Band::Full
        } else if self.shallow_top_km.at_most(depth_km) {
            Band::ShallowRamp
        } else {
            Band::Shallow
        }
    }

    /// Where `depth_km` lies.
    pub fn band(&self, depth_km: Single) -> (b: Band)
        ensures
            b == self.band_of(depth_km),
    {
        if self.deep_base_km.is_at_most(depth_km) {
            Band::Deep
        } else if self.deep_top_km.is_at_most(depth_km) {
            Band::DeepRamp
        } else if self.shallow_base_km.is_at_most(depth_km) {
            Band::Full
        } else if self.shallow_top_km.is_at_most(depth_km) {
            Band::ShallowRamp
        } else {
            Band::Shallow
        }
    }
}

/// The weak zone sits below the nucleation point: no depth at or above the deepest hypocentre is
/// past the top of the deep zone, and the taper is flat between the two zones.
pub proof fn the_deep_zone_is_below_the_hypocentre(
    t: RuptureVelocityTaper,
    max_hypocentre_depth_km: Single,
    depth_km: Single,
)
    requires
        t.shallow_base_km == Single(SHALLOW_ZONE_BASE_KM),
        t.deep_top_km == if Single(DEEP_ZONE_TOP_KM).below(max_hypocentre_depth_km) {
            max_hypocentre_depth_km
        } else {
            Single(DEEP_ZONE_TOP_KM)
        },
        t.deep_top_km.at_most(t.deep_base_km),
        max_hypocentre_depth_km.ordered(),
    ensures
        depth_km.below(max_hypocentre_depth_km) ==> {
            &&& t.band_of(depth_km) != Band::DeepRamp
            &&& t.band_of(depth_km) != Band::Deep
        },
        Single(SHALLOW_ZONE_BASE_KM).at_most(depth_km) && depth_km.below(t.deep_top_km)
            ==> t.band_of(depth_km) == Band::Full,
{
}

/// A perturbed factor, held below the ceiling.
pub open spec fn capped(factor: Single) -> Single {
    if factor.below(Single(RUPTURE_VELOCITY_FRACTION_MAX)) {
        factor
    } else {
        Single(RUPTURE_VELOCITY_FRACTION_MAX)
    }
}

/// A perturbed factor, held below the ceiling. What is not a number is held too.
pub fn capped_factor(factor: Single) -> (r: Single)
    ensures
        r == capped(factor),
{
    if factor.is_below(Single(RUPTURE_VELOCITY_FRACTION_MAX)) {
        factor
    } else {
        Single(RUPTURE_VELOCITY_FRACTION_MAX)
    }
}

/// How many normal deviates a subfault's rupture velocity draws: one where the sigma is above
/// zero, else none. The perturbation and its draw are one switch.
pub fn velocity_draws(sigma: Single) -> (n: usize)
    ensures
        n == if Single(0).below(sigma) {
            1usize
        } else {
            0usize
        },
{
    if Single(0).is_below(sigma) {
        1
    } else {
        0
    }
}

// ---------------------------------------------------------------------------
// The dip-and-rake adjustment
// ---------------------------------------------------------------------------

/// The bit pattern of 45 degrees.
pub const DIP_TAPER_DEG: u32 = 0x4234_0000;

/// The bit pattern of 90 degrees.
pub const VERTICAL_DIP_DEG: u32 = 0x42b4_0000;

/// The bit pattern of 180 degrees.
pub const HALF_TURN_DEG: u32 = 0x4334_0000;

/// How the dip enters the corner frequency.
#[derive(Clone, Copy, Debug, PartialEq, Eq, Structural)]
pub enum DipRange {
    /// From 45 to 90 degrees: the factor tapers from one to nothing.
    Tapered,
    /// From zero to 45 degrees: the factor is one.
    Full,
    /// Outside: the factor is nothing.
    Outside,
}

/// The range that a dip is in.
pub open spec fn range_of(dip_deg: Single) -> DipRange {
    if Single(DIP_TAPER_DEG).at_most(dip_deg) && dip_deg.at_most(Single(VERTICAL_DIP_DEG)) {
        DipRange::Tapered
    } else if Single(0).at_most(dip_deg) && dip_deg.at_most(Single(DIP_TAPER_DEG)) {
        DipRange::Full
    } else {
        DipRange::Outside
    }
}

/// The range that a dip is in.
pub fn dip_range(dip_deg: Single) -> (r: DipRange)
    ensures
        r == range_of(dip_deg),
{
    if Single(DIP_TAPER_DEG).is_at_most(dip_deg) && dip_deg.is_at_most(Single(VERTICAL_DIP_DEG)) {
        DipRange::Tapered
    } else if Single(0).is_at_most(dip_deg) && dip_deg.is_at_most(Single(DIP_TAPER_DEG)) {
        DipRange::Full
    } else {
        DipRange::Outside
    }
}

/// Whether a rake that has been folded into one turn is in the half that shifts down by a turn.
pub fn shifts_down(folded_rake_deg: Single) -> (b: bool)
    ensures
        b == Single(HALF_TURN_DEG).below(folded_rake_deg),
{
    Single(HALF_TURN_DEG).is_below(folded_rake_deg)
}

/// Whether a wrapped rake enters the corner frequency: from zero to 180 degrees.
pub fn rake_enters(wrapped_rake_deg: Single) -> (b: bool)
    ensures
        b == (Single(0).at_most(wrapped_rake_deg) && wrapped_rake_deg.at_most(
            Single(HALF_TURN_DEG),
        )),
{
    Single(0).is_at_most(wrapped_rake_deg) && wrapped_rake_deg.is_at_most(Single(HALF_TURN_DEG))
}

// ---------------------------------------------------------------------------
// Numbers
// ---------------------------------------------------------------------------

/// The zones, the ceiling and the threshold are at the numbers that they are said to be at.
pub proof fn source_numbers_are_round()
    ensures
        reals::is_nearest_single(Single(SUBFAULT_WEIGHT_THRESHOLD), 1, 1000),
        reals::is_nearest_single(Single(SHALLOW_ZONE_TOP_KM), 5, 1),
        reals::is_nearest_single(Single(SHALLOW_ZONE_BASE_KM), 8, 1),
        reals::is_nearest_single(Single(DEEP_ZONE_TOP_KM), 15, 1),
        reals::is_nearest_single(Single(DEEP_ZONE_BASE_KM), 20, 1),
        reals::is_nearest_single(Single(DEEP_ZONE_THICKNESS_KM), 5, 1),
        reals::is_nearest_single(Single(RUPTURE_VELOCITY_FRACTION_MAX), 14, 10),
        reals::is_nearest_single(Single(DIP_TAPER_DEG), 45, 1),
        reals::is_nearest_single(Single(VERTICAL_DIP_DEG), 90, 1),
        reals::is_nearest_single(Single(HALF_TURN_DEG), 180, 1),
{
    lemma2_to64();
    lemma2_to64_rest();
}

// ---------------------------------------------------------------------------
// The taper, band by band
// ---------------------------------------------------------------------------

impl Band {
    /// The band's place from the surface down.
    pub open spec fn depth_order(self) -> int {
        match self {
            Band::Shallow => 0,
            Band::ShallowRamp => 1,
            Band::Full => 2,
            Band::DeepRamp => 3,
            Band::Deep => 4,
        }
    }
}

impl RuptureVelocityTaper {
    /// The transition depths from the surface down.
    pub open spec fn edges(self) -> Seq<Single> {
        seq![self.shallow_top_km, self.shallow_base_km, self.deep_top_km, self.deep_base_km]
    }

    /// Whether the transition depths descend.
    pub open spec fn descends(self) -> bool {
        &&& self.shallow_top_km.at_most(self.shallow_base_km)
        &&& self.shallow_base_km.at_most(self.deep_top_km)
        &&& self.deep_top_km.at_most(self.deep_base_km)
    }
}

/// The bands follow each other downward, one beyond each transition depth: a depth is past as many
/// of them as its band is bands below the surface. A depth on a transition is past it.
pub proof fn bands_follow_each_other_downward(
    t: RuptureVelocityTaper,
    depth_km: Single,
    edge: int,
)
    requires
        t.descends(),
        depth_km.ordered(),
        0 <= edge < 4,
    ensures
        t.edges()[edge].at_most(depth_km) <==> t.band_of(depth_km).depth_order() > edge,
{
}

/// The taper is at its usual depths, 5 and 8 km and 15 and 20 km, as long as no hypocentre is below
/// 15 km. A deeper one takes the deep zone down with it, and leaves the shallow one.
pub proof fn hypocentres_take_the_deep_zone_down(
    max_hypocentre_depth_km: Single,
    lowered_base_km: Single,
)
    requires
        max_hypocentre_depth_km.ordered(),
    ensures
        ({
            let t = RuptureVelocityTaper::fixed(max_hypocentre_depth_km, lowered_base_km);
            let usual = Single(0x4170_0000);
            &&& reals::is_nearest_single(usual, 15, 1)
            &&& reals::is_nearest_single(t.shallow_top_km, 5, 1)
            &&& reals::is_nearest_single(t.shallow_base_km, 8, 1)
            &&& usual.at_most(t.deep_top_km)
            &&& max_hypocentre_depth_km.at_most(t.deep_top_km)
            &&& t.deep_top_km == usual || t.deep_top_km == max_hypocentre_depth_km
            &&& max_hypocentre_depth_km.at_most(usual) ==> reals::is_nearest_single(
                t.deep_base_km,
                20,
                1,
            )
            &&& usual.below(max_hypocentre_depth_km) ==> t.deep_base_km == lowered_base_km
        }),
{
    source_numbers_are_round();
}

/// The dip enters in full from horizontal to 45 degrees and tapered from there to vertical, where
/// 45 degrees itself is tapered and vertical is not outside; every other dip is.
pub proof fn dips_enter_up_to_vertical(dip_deg: Single)
    requires
        dip_deg.ordered(),
    ensures
        ({
            let (level, middle, upright) = (Single(0), Single(0x4234_0000), Single(0x42b4_0000));
            &&& reals::is_nearest_single(middle, 45, 1)
            &&& reals::is_nearest_single(upright, 90, 1)
            &&& range_of(dip_deg) == DipRange::Full <==> level.at_most(dip_deg) && dip_deg.below(
                middle,
            )
            &&& range_of(dip_deg) == DipRange::Tapered <==> middle.at_most(dip_deg)
                && dip_deg.at_most(upright)
            &&& range_of(dip_deg) == DipRange::Outside <==> dip_deg.below(level)
                || upright.below(dip_deg)
        }),
{
    source_numbers_are_round();
}

/// A subfault radiates where its weight is a thousandth or more, and the count is of those that
/// do: as many as there are places in storage with such a weight.
pub proof fn a_thousandth_radiates(weights: Seq<MomentWeight>, n: nat)
    requires
        n <= weights.len(),
    ensures
        ({
            let thousandth = Single(0x3a83_126f);
            let places = Set::new(
                |p: int| 0 <= p < n && !weights[p].0.below(thousandth),
            );
            &&& reals::is_nearest_single(thousandth, 1, 1000)
            &&& places.finite()
            &&& radiating_in(weights, n) == places.len()
        }),
{
    source_numbers_are_round();
    storage_counts_places(weights, n);
    let thousandth = Single(0x3a83_126f);
    assert(Set::new(|p: int| 0 <= p < n && !weights[p].0.below(thousandth)) =~= places_in(
        weights,
        n as int,
    ));
}

/// The count over segments is the sum of theirs.
pub proof fn segments_add_what_radiates(segments: Seq<Vec<MomentWeight>>, n: nat)
    requires
        n < segments.len(),
    ensures
        radiating_over(segments, 0) == 0,
        radiating_over(segments, n + 1) - radiating_over(segments, n) == radiating_in(
            segments[n as int]@,
            segments[n as int]@.len(),
        ),
{
}

/// No factor comes out above 1.4, whatever it was, and one that was not above comes out as the same
/// number.
pub proof fn factors_are_held_to_their_ceiling(factor: Single)
    ensures
        ({
            let ceiling = Single(0x3fb3_3333);
            &&& reals::is_nearest_single(ceiling, 14, 10)
            &&& capped(factor).at_most(ceiling)
            &&& factor.at_most(ceiling) ==> capped(factor).same(factor)
            &&& !factor.at_most(ceiling) ==> capped(factor) == ceiling
        }),
{
    source_numbers_are_round();
}

} // verus!
