//! The walk over one segment: every subfault once, and every requested ray of each that
//! radiates.
//!
//! [`SubfaultPass`] says what is to be done next and takes what came of it. It hands out the seed
//! of every stream, rules out what cannot reach the record, chooses the transform lengths, and
//! keeps the two reports. Nothing that it decides depends on how much was drawn before.

use vstd::prelude::*;
use vstd::set_lib::*;

use crate::fft;
use crate::fort;
use crate::reals::Single;
use crate::record;
use crate::record::{Census, Clipping, Placement, SampleGrid};
use crate::rng;
use crate::rng::{ray_stream_seed, substream_seed};
use crate::slip_model;
use crate::slip_model::Segment;
use crate::source;
use crate::source::MomentWeight;
use crate::spectrum;
use crate::spectrum::{PlanCache, SpectrumPlan};

verus! {

/// How far the walk has come with its present subfault.
#[derive(Clone, Copy, Debug, PartialEq, Eq, Structural)]
pub enum Stage {
    /// Its weight is to be looked up.
    Weighing,
    /// The earliest sample that any of its rays can start on is to be found.
    Bounding,
    /// One of its rays is to be traced.
    Tracing { ray: usize },
    /// A ray that has been traced is to be given a transform length.
    Placing { ray: usize, start_sample: i32 },
}

/// What is to be done next.
#[derive(Clone, Copy, Debug, PartialEq, Eq, Structural)]
pub enum Step {
    /// Look up the weight of a subfault, at its place in storage.
    Weigh { along_strike: usize, down_dip: usize, place: usize },
    /// Gather the subfault, with a stream of its own, and bound the start of its rays.
    Bound { along_strike: usize, down_dip: usize, place: usize, seed: u64 },
    /// Trace a ray, and start its own stream.
    Trace { ray: usize, seed: u64 },
    /// Choose the length of the ray's transform.
    Transform { ray: usize },
    /// Nothing is left.
    Done,
}

/// The longest window, in samples, whose transform length is an `i32`.
pub const LONGEST_WINDOW: usize = 1_879_048_192;

/// The walk over one segment.
pub struct SubfaultPass {
    /// The segment's number in the slip model: a part of every subfault's identity.
    pub segment: usize,
    pub station_seed: u64,
    pub along_strike_count: usize,
    pub down_dip_count: usize,
    /// How many rays are requested.
    pub rays: usize,
    pub grid: SampleGrid,
    /// How many subfaults have been dealt with, the strike index outermost.
    pub at: usize,
    pub stage: Stage,
    pub clipping: Clipping,
    pub census: Census,
    /// How many of the subfaults that have been dealt with radiate.
    pub radiated: Ghost<nat>,
}

/// A report after `n` arrivals that overrun the record alike.
pub open spec fn lost_times(
    c: Clipping,
    overrun_samples: Single,
    overrun_s: Single,
    n: nat,
) -> Clipping
    decreases n,
{
    if n == 0 {
        c
    } else {
        lost_times(c, overrun_samples, overrun_s, (n - 1) as nat).after(overrun_samples, overrun_s)
    }
}

/// Repeated arrivals are counted one by one.
proof fn losses_are_counted(c: Clipping, overrun_samples: Single, overrun_s: Single, n: nat)
    requires
        c.peaks_lost + n <= usize::MAX,
    ensures
        lost_times(c, overrun_samples, overrun_s, n).peaks_lost == if Single(0).below(
            overrun_samples,
        ) {
            c.peaks_lost + n
        } else {
            c.peaks_lost as int
        },
    decreases n,
{
    if n > 0 {
        losses_are_counted(c, overrun_samples, overrun_s, (n - 1) as nat);
    }
}

impl SubfaultPass {
    /// How many subfaults there are.
    pub open spec fn total(self) -> int {
        self.along_strike_count * self.down_dip_count
    }

    /// How many rays of the present subfault have been traced.
    pub open spec fn begun(self) -> int {
        match self.stage {
            Stage::Weighing => 0,
            Stage::Bounding => 0,
            Stage::Tracing { ray } => ray as int,
            Stage::Placing { ray, .. } => ray + 1,
        }
    }

    /// Of those, how many have been dealt with.
    pub open spec fn decided(self) -> int {
        match self.stage {
            Stage::Weighing => 0,
            Stage::Bounding => 0,
            Stage::Tracing { ray } => ray as int,
            Stage::Placing { ray, .. } => ray as int,
        }
    }

    /// What holds of a walk at every step: it is within the grid and the requested rays, and its
    /// reports count every ray of every radiating subfault that it has met, once.
    pub open spec fn well_formed(self) -> bool {
        &&& self.total() <= usize::MAX
        &&& self.total() * self.rays <= usize::MAX
        &&& self.grid.ndata <= i32::MAX
        &&& self.at <= self.total()
        &&& self.stage !is Weighing ==> self.at < self.total()
        &&& self.stage matches Stage::Tracing { ray } ==> ray < self.rays
        &&& self.stage matches Stage::Placing { ray, .. } ==> ray < self.rays
        &&& self.radiated@ <= self.at
        &&& self.census.pairs_attempted == self.radiated@ * self.rays + self.begun()
        &&& self.census.pairs_outside_record <= self.radiated@ * self.rays + self.decided()
        &&& self.census.samples_accumulated <= self.census.samples_computed
        &&& self.census.transform_lengths == 0
        &&& self.clipping.peaks_lost <= self.census.pairs_attempted
    }

    /// The present subfault's two numbers.
    pub open spec fn subfault(self) -> (usize, usize) {
        slip_model::strike_major_at(self.down_dip_count as int, self.at as int)
    }

    /// The present subfault's place in storage.
    pub open spec fn place(self) -> int {
        slip_model::place_of(
            self.along_strike_count as int,
            self.subfault().0 as int,
            self.subfault().1 as int,
        )
    }

    /// The seed of the present subfault's stream.
    pub open spec fn seed(self) -> u64 {
        rng::subfault_seed(self.station_seed, self.segment as u64, self.place() as u64)
    }

    /// What is to be done next.
    pub open spec fn next_step(self) -> Step {
        if self.at == self.total() {
            Step::Done
        } else {
            let (along_strike, down_dip) = self.subfault();
            match self.stage {
                Stage::Weighing => Step::Weigh {
                    along_strike,
                    down_dip,
                    place: self.place() as usize,
                },
                Stage::Bounding => Step::Bound {
                    along_strike,
                    down_dip,
                    place: self.place() as usize,
                    seed: self.seed(),
                },
                Stage::Tracing { ray } => Step::Trace {
                    ray,
                    seed: rng::ray_seed(self.seed(), ray as u64),
                },
                Stage::Placing { ray, .. } => Step::Transform { ray },
            }
        }
    }

    /// The walk at the next subfault.
    pub open spec fn moved_on(self, radiated: bool) -> SubfaultPass {
        SubfaultPass {
            at: (self.at + 1) as usize,
            stage: Stage::Weighing,
            radiated: Ghost(
                self.radiated@ + if radiated {
                    1nat
                } else {
                    0nat
                },
            ),
            ..self
        }
    }

    /// The walk at the ray after `ray`, or at the next subfault.
    pub open spec fn after_ray(self, ray: usize) -> SubfaultPass {
        if ray + 1 < self.rays {
            SubfaultPass { stage: Stage::Tracing { ray: (ray + 1) as usize }, ..self }
        } else {
            self.moved_on(true)
        }
    }

    /// The walk once the present subfault's weight is known: one too small to radiate is passed
    /// over.
    pub open spec fn weighed(self, weight: MomentWeight) -> SubfaultPass {
        if weight.silent() {
            self.moved_on(false)
        } else {
            SubfaultPass { stage: Stage::Bounding, ..self }
        }
    }

    /// The walk once the earliest start of the present subfault's rays is known. Where it lies
    /// past the record, all of its rays count as attempted, as outside and as overrunning the
    /// record by as much, without being traced.
    pub open spec fn bounded(
        self,
        earliest: int,
        overrun_samples: Single,
        overrun_s: Single,
    ) -> SubfaultPass {
        if earliest > self.grid.ndata {
            SubfaultPass {
                census: Census {
                    pairs_attempted: (self.census.pairs_attempted + self.rays) as usize,
                    pairs_outside_record: (self.census.pairs_outside_record + self.rays) as usize,
                    ..self.census
                },
                clipping: lost_times(
                    self.clipping,
                    overrun_samples,
                    overrun_s,
                    self.rays as nat,
                ),
                ..self
            }.moved_on(true)
        } else if self.rays == 0 {
            self.moved_on(true)
        } else {
            SubfaultPass { stage: Stage::Tracing { ray: 0 }, ..self }
        }
    }

    /// The walk once ray `ray` has been traced and starts at `start_sample`. One that starts past
    /// the record is outside it, whatever its length.
    pub open spec fn arrived(
        self,
        ray: usize,
        start_sample: i32,
        overrun_samples: Single,
        overrun_s: Single,
    ) -> SubfaultPass {
        let counted = SubfaultPass {
            census: Census {
                pairs_attempted: (self.census.pairs_attempted + 1) as usize,
                ..self.census
            },
            clipping: self.clipping.after(overrun_samples, overrun_s),
            ..self
        };
        if start_sample > self.grid.ndata {
            SubfaultPass {
                census: Census {
                    pairs_outside_record: (self.census.pairs_outside_record + 1) as usize,
                    ..counted.census
                },
                ..counted
            }.after_ray(ray)
        } else {
            SubfaultPass { stage: Stage::Placing { ray, start_sample }, ..counted }
        }
    }

    /// The walk once the ray has been given a transform of `np2` samples. One that ends before
    /// the record begins is outside it as well.
    pub open spec fn transformed(self, ray: usize, start_sample: i32, np2: int) -> SubfaultPass {
        match record::placed(start_sample as int, np2, self.grid.ndata as int) {
            None => SubfaultPass {
                census: Census {
                    pairs_outside_record: (self.census.pairs_outside_record + 1) as usize,
                    ..self.census
                },
                ..self
            }.after_ray(ray),
            Some(p) => SubfaultPass {
                census: Census {
                    samples_computed: (self.census.samples_computed + np2) as usize,
                    samples_accumulated: (self.census.samples_accumulated + p.count) as usize,
                    ..self.census
                },
                ..self
            }.after_ray(ray),
        }
    }

    /// Start a walk over `segment`, the segment `index` of the slip model.
    ///
    /// `longest` is twice the longest of the segment's windows over the sample interval. The plan
    /// for it is built and handed out: no buffer of the walk is longer.
    pub fn start(
        index: usize,
        segment: &Segment,
        station_seed: u64,
        rays: usize,
        grid: SampleGrid,
        longest: Single,
        plans: &mut PlanCache,
    ) -> (r: (Self, SpectrumPlan))
        requires
            segment.well_formed(),
            segment.subfaults.len() * rays <= usize::MAX,
            grid.ndata <= i32::MAX,
            fort::counted(longest) <= usize::MAX as int / 2 + 1,
            old(plans).well_formed(),
        ensures
            r.0.well_formed(),
            r.0 == (SubfaultPass {
                segment: index,
                station_seed,
                along_strike_count: segment.along_strike_count,
                down_dip_count: segment.down_dip_count,
                rays,
                grid,
                at: 0,
                stage: Stage::Weighing,
                clipping: Clipping::none(),
                census: Census::none(),
                radiated: Ghost(0),
            }),
            fft::is_good_length(fort::counted(longest) as int, r.1.np2 as int),
            r.1 == spectrum::plan_for(r.1.np2 as int),
            final(plans).well_formed(),
            final(plans).lengths() == old(plans).lengths().insert(r.1.np2),
    {
        let plan = plans.for_window(longest);
        proof {
            assert(0nat * rays == 0) by (nonlinear_arith);
        }
        (
            SubfaultPass {
                segment: index,
                station_seed,
                along_strike_count: segment.along_strike_count,
                down_dip_count: segment.down_dip_count,
                rays,
                grid,
                at: 0,
                stage: Stage::Weighing,
                clipping: Clipping { peaks_lost: 0, worst_overrun_s: Single(0) },
                census: Census {
                    pairs_attempted: 0,
                    pairs_outside_record: 0,
                    samples_computed: 0,
                    samples_accumulated: 0,
                    transform_lengths: 0,
                },
                radiated: Ghost(0),
            },
            plan,
        )
    }

    /// What is to be done next.
    pub fn next(&self) -> (step: Step)
        requires
            self.well_formed(),
        ensures
            step == self.next_step(),
    {
        let total: usize = self.along_strike_count * self.down_dip_count;
        if self.at == total {
            return Step::Done;
        }
        proof {
            slip_model::strike_major_meets_every_subfault_once(
                self.along_strike_count as int,
                self.down_dip_count as int,
                self.at as int,
                0,
                0,
            );
            slip_model::storage_is_depth_major(
                self.along_strike_count as int,
                self.down_dip_count as int,
                0,
                self.subfault().0 as int,
                self.subfault().1 as int,
            );
            let (down, at) = (self.down_dip_count as int, self.at as int);
            assert(down >= 1) by (nonlinear_arith)
                requires
                    0 < self.along_strike_count * down,
                    down >= 0,
            ;
            assert(0 <= at / down <= at) by (nonlinear_arith)
                requires
                    down >= 1,
                    at >= 0,
            ;
            assert(0 <= (self.subfault().1 - 1) * self.along_strike_count) by (nonlinear_arith)
                requires
                    self.subfault().1 >= 1,
            ;
        }
        let along_strike: usize = self.at / self.down_dip_count + 1;
        let down_dip: usize = self.at % self.down_dip_count + 1;
        let place: usize = (down_dip - 1) * self.along_strike_count + (along_strike - 1);
        match self.stage {
            Stage::Weighing => Step::Weigh { along_strike, down_dip, place },
            Stage::Bounding => Step::Bound {
                along_strike,
                down_dip,
                place,
                seed: substream_seed(self.station_seed, self.segment, place),
            },
            Stage::Tracing { ray } => Step::Trace {
                ray,
                seed: ray_stream_seed(
                    substream_seed(self.station_seed, self.segment, place),
                    ray,
                ),
            },
            Stage::Placing { ray, .. } => Step::Transform { ray },
        }
    }

    /// There is room for the rays of one more subfault.
    proof fn has_room(self)
        requires
            self.well_formed(),
            self.at < self.total(),
        ensures
            (self.radiated@ + 1) * self.rays == self.radiated@ * self.rays + self.rays,
            0 <= self.radiated@ * self.rays,
            self.radiated@ * self.rays + self.rays <= usize::MAX,
    {
        assert((self.radiated@ + 1) * self.rays == self.radiated@ * self.rays + self.rays)
            by (nonlinear_arith);
        assert(0 <= self.radiated@ * self.rays) by (nonlinear_arith);
        assert((self.radiated@ + 1) * self.rays <= self.total() * self.rays) by (nonlinear_arith)
            requires
                self.radiated@ + 1 <= self.total(),
        ;
    }

    /// Go on to the next subfault.
    fn move_on(&mut self, radiates: bool)
        requires
            old(self).at < usize::MAX,
        ensures
            *final(self) == old(self).moved_on(radiates),
    {
        self.at = self.at + 1;
        self.stage = Stage::Weighing;
        self.radiated = Ghost(
            self.radiated@ + if radiates {
                1nat
            } else {
                0nat
            },
        );
    }

    /// Go on to the ray after `ray`.
    fn leave_ray(&mut self, ray: usize)
        requires
            old(self).at < usize::MAX,
            ray < old(self).rays,
        ensures
            *final(self) == old(self).after_ray(ray),
    {
        if ray + 1 < self.rays {
            self.stage = Stage::Tracing { ray: ray + 1 };
        } else {
            self.move_on(true);
        }
    }

    /// Take the present subfault's weight. Says whether it radiates.
    pub fn weigh(&mut self, weight: MomentWeight) -> (radiates: bool)
        requires
            old(self).well_formed(),
            old(self).stage is Weighing,
            old(self).at < old(self).total(),
        ensures
            final(self).well_formed(),
            *final(self) == old(self).weighed(weight),
            radiates == !weight.silent(),
    {
        if weight.is_silent() {
            self.move_on(false);
            false
        } else {
            self.stage = Stage::Bounding;
            true
        }
    }

    /// Take the earliest start of the present subfault's rays, and how far past the record the
    /// peak of such a ray would fall. Says whether any of them has to be traced.
    pub fn bound(
        &mut self,
        earliest: i32,
        overrun_samples: Single,
        overrun_s: Single,
    ) -> (reaches: bool)
        requires
            old(self).well_formed(),
            old(self).stage is Bounding,
        ensures
            final(self).well_formed(),
            *final(self) == old(self).bounded(earliest as int, overrun_samples, overrun_s),
            reaches == (earliest <= old(self).grid.ndata && old(self).rays > 0),
    {
        proof {
            self.has_room();
        }
        if self.grid.starts_after_end(earliest) {
            self.census.pairs_attempted = self.census.pairs_attempted + self.rays;
            self.census.pairs_outside_record = self.census.pairs_outside_record + self.rays;
            let ghost before = self.clipping;
            let mut n: usize = 0;
            while n < self.rays
                invariant
                    n <= self.rays,
                    before.peaks_lost + self.rays <= usize::MAX,
                    self.clipping == lost_times(before, overrun_samples, overrun_s, n as nat),
                    *self == (SubfaultPass {
                        census: self.census,
                        clipping: self.clipping,
                        ..*old(self)
                    }),
                    self.rays == old(self).rays,
                    self.census == (Census {
                        pairs_attempted: (old(self).census.pairs_attempted
                            + old(self).rays) as usize,
                        pairs_outside_record: (old(self).census.pairs_outside_record
                            + old(self).rays) as usize,
                        ..old(self).census
                    }),
                decreases self.rays - n,
            {
                proof {
                    losses_are_counted(before, overrun_samples, overrun_s, n as nat);
                }
                self.clipping.record_arrival(overrun_samples, overrun_s);
                n += 1;
            }
            proof {
                losses_are_counted(before, overrun_samples, overrun_s, self.rays as nat);
            }
            self.move_on(true);
            false
        } else if self.rays == 0 {
            self.move_on(true);
            false
        } else {
            self.stage = Stage::Tracing { ray: 0 };
            true
        }
    }

    /// Take the start of the ray that has been traced, and how far past the record its peak
    /// falls. Says whether it needs a transform.
    pub fn arrive(
        &mut self,
        start_sample: i32,
        overrun_samples: Single,
        overrun_s: Single,
    ) -> (reaches: bool)
        requires
            old(self).well_formed(),
            old(self).stage is Tracing,
        ensures
            final(self).well_formed(),
            old(self).stage matches Stage::Tracing { ray } ==> *final(self) == old(self).arrived(
                ray,
                start_sample,
                overrun_samples,
                overrun_s,
            ),
            reaches == (start_sample <= old(self).grid.ndata),
    {
        proof {
            self.has_room();
        }
        let ray: usize = match self.stage {
            Stage::Tracing { ray } => ray,
            _ => 0,
        };
        self.clipping.record_arrival(overrun_samples, overrun_s);
        self.census.pairs_attempted = self.census.pairs_attempted + 1;
        if self.grid.starts_after_end(start_sample) {
            self.census.pairs_outside_record = self.census.pairs_outside_record + 1;
            self.leave_ray(ray);
            false
        } else {
            self.stage = Stage::Placing { ray, start_sample };
            true
        }
    }

    /// Choose the ray's transform: `points` is twice its window over the sample interval. Gives
    /// the plan, and where its samples land: `None` where none does.
    ///
    /// The length is the whole window's. It is not clipped to what can land in the record.
    pub fn transform(
        &mut self,
        points: Single,
        plans: &mut PlanCache,
    ) -> (r: (SpectrumPlan, Option<Placement>))
        requires
            old(self).well_formed(),
            old(self).stage is Placing,
            old(self).census.samples_computed <= usize::MAX - LONGEST_WINDOW,
            fort::counted(points) <= LONGEST_WINDOW,
            old(plans).well_formed(),
        ensures
            final(self).well_formed(),
            fft::is_good_length(fort::counted(points) as int, r.0.np2 as int),
            r.0 == spectrum::plan_for(r.0.np2 as int),
            old(self).stage matches Stage::Placing { ray, start_sample } ==> {
                &&& r.1 == record::placed(
                    start_sample as int,
                    r.0.np2 as int,
                    old(self).grid.ndata as int,
                )
                &&& *final(self) == old(self).transformed(ray, start_sample, r.0.np2 as int)
            },
            final(plans).well_formed(),
            final(plans).lengths() == old(plans).lengths().insert(r.0.np2),
    {
        proof {
            self.has_room();
        }
        let (ray, start_sample): (usize, i32) = match self.stage {
            Stage::Placing { ray, start_sample } => (ray, start_sample),
            _ => (0, 0),
        };
        let plan = plans.for_window(points);
        proof {
            fft::the_longest_window_fits(fort::counted(points) as int, plan.np2 as int);
        }
        let placement = self.grid.place(start_sample, plan.np2);
        match placement {
            None => {
                self.census.pairs_outside_record = self.census.pairs_outside_record + 1;
            },
            Some(p) => {
                proof {
                    record::placements_hold_what_lands(
                        start_sample as int,
                        plan.np2 as int,
                        self.grid.ndata as int,
                        0,
                        0,
                    );
                }
                self.census.samples_computed = self.census.samples_computed + plan.np2;
                self.census.samples_accumulated = self.census.samples_accumulated + p.count;
            },
        }
        self.leave_ray(ray);
        (plan, placement)
    }
}

// ---------------------------------------------------------------------------
// The walk as a whole
// ---------------------------------------------------------------------------

/// What a traced ray turned out to be: where it starts, and how far past the record its peak
/// falls.
pub struct Arrival {
    pub start_sample: i32,
    pub overrun_samples: Single,
    pub overrun_s: Single,
}

/// A subfault's first `n` rays traced, none of which reaches the record.
pub open spec fn traced_in_vain(p: SubfaultPass, arrivals: Seq<Arrival>, n: nat) -> SubfaultPass
    decreases n,
{
    if n == 0 {
        SubfaultPass { stage: Stage::Tracing { ray: 0 }, ..p }
    } else {
        let a = arrivals[n - 1];
        traced_in_vain(p, arrivals, (n - 1) as nat).arrived(
            (n - 1) as usize,
            a.start_sample,
            a.overrun_samples,
            a.overrun_s,
        )
    }
}

/// What tracing in vain leaves behind.
proof fn tracing_in_vain_counts(
    p: SubfaultPass,
    arrivals: Seq<Arrival>,
    overrun_samples: Single,
    overrun_s: Single,
    n: nat,
)
    requires
        p.well_formed(),
        p.stage is Bounding,
        arrivals.len() == p.rays,
        n <= p.rays,
        p.clipping.worst_overrun_s.ordered(),
        Single(0).below(overrun_samples),
        overrun_s.ordered(),
        forall|r: int|
            0 <= r < p.rays ==> {
                let a = #[trigger] arrivals[r];
                &&& a.start_sample > p.grid.ndata
                &&& Single(0).below(a.overrun_samples)
                &&& overrun_s.at_most(a.overrun_s)
            },
    ensures
        ({
            let v = traced_in_vain(p, arrivals, n);
            let lost = lost_times(p.clipping, overrun_samples, overrun_s, n);
            &&& v.census == (Census {
                pairs_attempted: (p.census.pairs_attempted + n) as usize,
                pairs_outside_record: (p.census.pairs_outside_record + n) as usize,
                ..p.census
            })
            &&& v.clipping.peaks_lost == p.clipping.peaks_lost + n
            &&& lost.peaks_lost == p.clipping.peaks_lost + n
            &&& lost.worst_overrun_s.ordered()
            &&& lost.worst_overrun_s.at_most(v.clipping.worst_overrun_s)
            &&& v.rays == p.rays
            &&& v.grid == p.grid
            &&& n < p.rays ==> v == (SubfaultPass {
                stage: Stage::Tracing { ray: n as usize },
                census: v.census,
                clipping: v.clipping,
                ..p
            })
            &&& n == p.rays && n > 0 ==> v == (SubfaultPass {
                census: v.census,
                clipping: v.clipping,
                ..p
            }).moved_on(true)
        }),
    decreases n,
{
    p.has_room();
    if n > 0 {
        tracing_in_vain_counts(p, arrivals, overrun_samples, overrun_s, (n - 1) as nat);
        let a = arrivals[n - 1];
        assert(a.start_sample > p.grid.ndata);
    }
}

/// Ruling a subfault out before it is traced reports what tracing it would: the same rays
/// attempted and outside the record, and as many peaks lost. Only the worst overrun may be
/// understated, since the bound is no later than any real start.
pub proof fn ruling_out_counts_as_tracing_would(
    p: SubfaultPass,
    earliest: int,
    overrun_samples: Single,
    overrun_s: Single,
    arrivals: Seq<Arrival>,
)
    requires
        p.well_formed(),
        p.stage is Bounding,
        p.rays > 0,
        p.clipping.worst_overrun_s.ordered(),
        earliest > p.grid.ndata,
        Single(0).below(overrun_samples),
        overrun_s.ordered(),
        arrivals.len() == p.rays,
        forall|r: int|
            0 <= r < p.rays ==> {
                let a = #[trigger] arrivals[r];
                &&& a.start_sample >= earliest
                &&& Single(0).below(a.overrun_samples)
                &&& overrun_s.at_most(a.overrun_s)
            },
    ensures
        ({
            let ruled_out = p.bounded(earliest, overrun_samples, overrun_s);
            let traced = traced_in_vain(p, arrivals, p.rays as nat);
            &&& ruled_out.census == traced.census
            &&& ruled_out.clipping.peaks_lost == traced.clipping.peaks_lost
            &&& ruled_out.clipping.worst_overrun_s.at_most(traced.clipping.worst_overrun_s)
            &&& ruled_out.at == traced.at
            &&& ruled_out.stage == traced.stage
            &&& ruled_out.radiated == traced.radiated
        }),
{
    tracing_in_vain_counts(p, arrivals, overrun_samples, overrun_s, p.rays as nat);
}

impl SubfaultPass {
    /// How far the walk has come with its present subfault, as a number.
    pub open spec fn progress(self) -> int {
        match self.stage {
            Stage::Weighing => 0,
            Stage::Bounding => 1,
            Stage::Tracing { ray } => 2 + 2 * ray,
            Stage::Placing { ray, .. } => 3 + 2 * ray,
        }
    }

    /// A bound on the steps that are left.
    pub open spec fn left(self) -> int {
        (self.total() - self.at) * (2 * self.rays + 2) - self.progress()
    }
}

/// The walk ends: whatever comes of a step, fewer are left, and there are none to take back.
pub proof fn every_step_leads_on(
    p: SubfaultPass,
    weight: MomentWeight,
    start: i32,
    overrun_samples: Single,
    overrun_s: Single,
    np2: int,
)
    requires
        p.well_formed(),
        p.at < p.total(),
    ensures
        0 < p.left(),
        p.stage is Weighing ==> 0 <= p.weighed(weight).left() < p.left(),
        p.stage is Bounding ==> 0 <= p.bounded(start as int, overrun_samples, overrun_s).left()
            < p.left(),
        p.stage matches Stage::Tracing { ray } ==> 0 <= p.arrived(
            ray,
            start,
            overrun_samples,
            overrun_s,
        ).left() < p.left(),
        p.stage matches Stage::Placing { ray, start_sample } ==> 0 <= p.transformed(
            ray,
            start_sample,
            np2,
        ).left() < p.left(),
{
    let steps = 2 * p.rays + 2;
    let rest = p.total() - p.at;
    assert(rest * steps == (rest - 1) * steps + steps) by (nonlinear_arith);
    assert(0 <= (rest - 1) * steps) by (nonlinear_arith)
        requires
            rest >= 1,
            steps >= 0,
    ;
}

/// At the end of the walk every requested ray of every subfault that radiates has been counted,
/// once, and no more are outside the record than there are.
pub proof fn every_ray_is_counted_once(p: SubfaultPass)
    requires
        p.well_formed(),
        p.next_step() is Done,
    ensures
        p.census.pairs_attempted == p.radiated@ * p.rays,
        p.radiated@ <= p.total(),
        p.census.possible(),
        p.clipping.peaks_lost <= p.census.pairs_attempted,
{
}

impl SubfaultPass {
    /// The walk one step on, given the segment's weights in storage order, what a bound or a trace
    /// turned out to be, and the length of a transform.
    pub open spec fn stepped(
        self,
        weights: Seq<MomentWeight>,
        arrival: Arrival,
        np2: int,
    ) -> SubfaultPass {
        if self.at >= self.total() {
            self
        } else {
            match self.stage {
                Stage::Weighing => self.weighed(weights[self.place()]),
                Stage::Bounding => self.bounded(
                    arrival.start_sample as int,
                    arrival.overrun_samples,
                    arrival.overrun_s,
                ),
                Stage::Tracing { ray } => self.arrived(
                    ray,
                    arrival.start_sample,
                    arrival.overrun_samples,
                    arrival.overrun_s,
                ),
                Stage::Placing { ray, start_sample } => self.transformed(ray, start_sample, np2),
            }
        }
    }

    /// The walk `n` steps on.
    pub open spec fn walked(
        self,
        weights: Seq<MomentWeight>,
        outcomes: Seq<(Arrival, int)>,
        n: nat,
    ) -> SubfaultPass
        decreases n,
    {
        if n == 0 {
            self
        } else {
            self.walked(weights, outcomes, (n - 1) as nat).stepped(
                weights,
                outcomes[n - 1].0,
                outcomes[n - 1].1,
            )
        }
    }

    /// Whether this is the start of a walk.
    pub open spec fn is_start(self) -> bool {
        &&& self.well_formed()
        &&& self.at == 0
        &&& self.stage is Weighing
        &&& self.radiated@ == 0
    }
}

/// A walk has met what radiates among the subfaults behind it, and stays with no silent one.
proof fn walks_meet_what_radiates(
    p: SubfaultPass,
    weights: Seq<MomentWeight>,
    outcomes: Seq<(Arrival, int)>,
    n: nat,
)
    requires
        p.is_start(),
    ensures
        ({
            let w = p.walked(weights, outcomes, n);
            &&& w.along_strike_count == p.along_strike_count
            &&& w.down_dip_count == p.down_dip_count
            &&& w.rays == p.rays
            &&& w.at <= w.total()
            &&& w.stage !is Weighing ==> w.at < w.total() && !weights[w.place()].silent()
            &&& w.radiated@ == source::radiating_among(
                p.along_strike_count as int,
                p.down_dip_count as int,
                weights,
                w.at as nat,
            )
        }),
    decreases n,
{
    if n > 0 {
        walks_meet_what_radiates(p, weights, outcomes, (n - 1) as nat);
    }
}

/// Whatever came of its steps, a walk that is done has met as many radiating subfaults as the
/// segment has weights that are not silent, and has attempted every requested ray of each, once.
pub proof fn a_walk_counts_what_radiates(
    p: SubfaultPass,
    weights: Seq<MomentWeight>,
    outcomes: Seq<(Arrival, int)>,
    n: nat,
)
    requires
        p.is_start(),
        weights.len() == p.total(),
        p.walked(weights, outcomes, n).next_step() is Done,
        p.walked(weights, outcomes, n).well_formed(),
    ensures
        p.walked(weights, outcomes, n).radiated@ == source::radiating_in(weights, weights.len()),
        p.walked(weights, outcomes, n).census.pairs_attempted == source::radiating_in(
            weights,
            weights.len(),
        ) * p.rays,
{
    walks_meet_what_radiates(p, weights, outcomes, n);
    source::counting_agrees_with_walking(
        p.along_strike_count as int,
        p.down_dip_count as int,
        weights,
    );
}

// ---------------------------------------------------------------------------
// The station's report
// ---------------------------------------------------------------------------

/// The reports of the first `n` segments together.
pub open spec fn joined(
    clippings: Seq<Clipping>,
    censuses: Seq<Census>,
    n: nat,
) -> (Clipping, Census)
    decreases n,
{
    if n == 0 {
        (Clipping::none(), Census::none())
    } else {
        let before = joined(clippings, censuses, (n - 1) as nat);
        (before.0.with(clippings[n - 1]), before.1.with(censuses[n - 1]))
    }
}

/// Whether the reports of the segments can be added up.
pub open spec fn can_join(clippings: Seq<Clipping>, censuses: Seq<Census>) -> bool {
    forall|n: nat|
        n < censuses.len() ==> {
            &&& (#[trigger] joined(clippings, censuses, n)).1.fits(censuses[n as int])
            &&& joined(clippings, censuses, n).0.peaks_lost + clippings[n as int].peaks_lost
                <= usize::MAX
        }
}

/// A station's report: those of its segments together, with the number of lengths that its one
/// cache has built.
pub fn station_report(
    clippings: &Vec<Clipping>,
    censuses: &Vec<Census>,
    plans: &PlanCache,
) -> (r: (Clipping, Census))
    requires
        clippings.len() == censuses.len(),
        can_join(clippings@, censuses@),
        plans.well_formed(),
    ensures
        r.0 == joined(clippings@, censuses@, censuses@.len()).0,
        r.1.transform_lengths == plans.lengths().len(),
        r.1 == (Census {
            transform_lengths: r.1.transform_lengths,
            ..joined(clippings@, censuses@, censuses@.len()).1
        }),
{
    let mut clipping: Clipping = Clipping { peaks_lost: 0, worst_overrun_s: Single(0) };
    let mut census: Census = Census {
        pairs_attempted: 0,
        pairs_outside_record: 0,
        samples_computed: 0,
        samples_accumulated: 0,
        transform_lengths: 0,
    };
    let mut n: usize = 0;
    while n < censuses.len()
        invariant
            n <= censuses.len(),
            clippings.len() == censuses.len(),
            can_join(clippings@, censuses@),
            (clipping, census) == joined(clippings@, censuses@, n as nat),
        decreases censuses.len() - n,
    {
        proof {
            assert(joined(clippings@, censuses@, n as nat).1.fits(censuses@[n as int]));
        }
        clipping.absorb(clippings[n]);
        census.absorb(censuses[n]);
        n += 1;
    }
    census.transform_lengths = plans.len();
    (clipping, census)
}

/// A station's report is possible where those of its segments are.
pub proof fn joined_reports_stay_possible(clippings: Seq<Clipping>, censuses: Seq<Census>, n: nat)
    requires
        n <= censuses.len(),
        can_join(clippings, censuses),
        forall|s: int| 0 <= s < censuses.len() ==> (#[trigger] censuses[s]).possible(),
    ensures
        joined(clippings, censuses, n).1.possible(),
    decreases n,
{
    if n > 0 {
        joined_reports_stay_possible(clippings, censuses, (n - 1) as nat);
        let before = joined(clippings, censuses, (n - 1) as nat);
        assert(before.1.fits(censuses[n - 1]));
        record::censuses_stay_possible(before.1, censuses[n - 1]);
    }
}

// ---------------------------------------------------------------------------
// What a step counts
// ---------------------------------------------------------------------------

/// The samples of a window that land in the record.
pub open spec fn landing(start: int, length: int, ndata: int) -> Set<int> {
    Set::new(|i: int| 0 <= i < length && 1 <= start + i <= ndata)
}

/// A transform counts its samples where any of them lands, and of those as accumulated just as
/// many as land; where none does, the ray is outside the record and its samples count nowhere.
pub proof fn transforms_count_what_lands(p: SubfaultPass, ray: usize, start_sample: i32, np2: int)
    requires
        p.well_formed(),
        p.stage == (Stage::Placing { ray, start_sample }),
        0 <= np2 <= i32::MAX,
        p.census.samples_computed + np2 <= usize::MAX,
    ensures
        ({
            let after = p.transformed(ray, start_sample, np2).census;
            let lands = landing(start_sample as int, np2, p.grid.ndata as int);
            &&& lands.finite()
            &&& after.samples_accumulated == p.census.samples_accumulated + lands.len()
            &&& lands.len() > 0 ==> {
                &&& after.samples_computed == p.census.samples_computed + np2
                &&& after.pairs_outside_record == p.census.pairs_outside_record
            }
            &&& lands.len() == 0 ==> {
                &&& after.samples_computed == p.census.samples_computed
                &&& after.pairs_outside_record == p.census.pairs_outside_record + 1
            }
            &&& after.pairs_attempted == p.census.pairs_attempted
        }),
{
    p.has_room();
    let (start, ndata) = (start_sample as int, p.grid.ndata as int);
    let lands = landing(start, np2, ndata);
    let low = if start < 1 {
        1 - start
    } else {
        0
    };
    let end = if ndata + 1 - start < np2 {
        ndata + 1 - start
    } else {
        np2
    };
    let high = if end < low {
        low
    } else {
        end
    };
    lemma_int_range(low, high);
    assert(lands =~= set_int_range(low, high));
}

/// A ray that is given no transform could land nothing, however long its window; one that is given
/// one starts early enough for a window to land, if it is long enough and there is a record.
pub proof fn rays_without_transform_land_nothing(
    p: SubfaultPass,
    ray: usize,
    start_sample: i32,
    overrun_samples: Single,
    overrun_s: Single,
    np2: int,
)
    requires
        p.well_formed(),
        p.stage == (Stage::Tracing { ray }),
        0 <= np2,
    ensures
        ({
            let after = p.arrived(ray, start_sample, overrun_samples, overrun_s);
            let lands = landing(start_sample as int, np2, p.grid.ndata as int);
            &&& after.stage !is Placing ==> lands == Set::<int>::empty()
            &&& after.stage is Placing && p.grid.ndata >= 1 && start_sample + np2 > p.grid.ndata
                && np2 > 0 && start_sample + np2 > 1 ==> lands != Set::<int>::empty()
            &&& after.census.pairs_attempted == p.census.pairs_attempted + 1
            &&& after.census.pairs_outside_record == p.census.pairs_outside_record + if after.stage
                is Placing {
                0int
            } else {
                1
            }
        }),
{
    p.has_room();
    let lands = landing(start_sample as int, np2, p.grid.ndata as int);
    if start_sample > p.grid.ndata {
        assert(lands =~= Set::<int>::empty());
    } else if p.grid.ndata >= 1 && start_sample + np2 > 1 && np2 > 0 {
        let i = if start_sample < 1 {
            1 - start_sample
        } else {
            0
        };
        assert(lands.contains(i));
    }
}

/// A subfault's stream goes with the subfault, not with the walk that comes to it: walks over
/// grids that store it at the same place give it the same seed, however deep the grids are and
/// however many rays are requested.
pub proof fn seeds_go_with_subfaults(p: SubfaultPass, q: SubfaultPass)
    requires
        p.station_seed == q.station_seed,
        p.segment == q.segment,
        p.along_strike_count == q.along_strike_count,
        p.subfault() == q.subfault(),
    ensures
        p.seed() == q.seed(),
{
}

/// The subfaults of a segment have streams of their own, and so have the rays of a subfault: two
/// steps of a walk are handed the same seed only where they are about the same subfault and, for
/// a ray, the same ray of it.
pub proof fn steps_have_streams_of_their_own(p: SubfaultPass, q: SubfaultPass)
    requires
        p.well_formed(),
        q.well_formed(),
        p.station_seed == q.station_seed,
        p.segment == q.segment,
        p.along_strike_count == q.along_strike_count,
        p.down_dip_count == q.down_dip_count,
        p.at < p.total(),
        q.at < q.total(),
        p.total() <= u64::MAX,
    ensures
        p.seed() == q.seed() <==> p.at == q.at,
        p.stage matches Stage::Tracing { ray } ==> (q.stage matches Stage::Tracing { ray: other }
            ==> p.at == q.at ==> (p.next_step()->Trace_seed == q.next_step()->Trace_seed
            <==> ray == other)),
{
    let (along, down) = (p.along_strike_count as int, p.down_dip_count as int);
    slip_model::strike_major_meets_every_subfault_once(along, down, p.at as int, 0, 0);
    slip_model::strike_major_meets_every_subfault_once(along, down, q.at as int, 0, 0);
    let ((i, j), (k, l)) = (p.subfault(), q.subfault());
    slip_model::storage_is_depth_major(along, down, 0, i as int, j as int);
    slip_model::storage_is_depth_major(along, down, 0, k as int, l as int);
    if p.stage is Tracing && q.stage is Tracing {
        let (ray, other) = (p.stage->Tracing_ray as u64, q.stage->Tracing_ray as u64);
        rng::rays_have_streams_of_their_own(p.seed(), q.seed(), ray, other);
    }
    if p.place() == q.place() {
        assert(p.subfault() == q.subfault());
        assert(p.at == q.at);
    } else {
        rng::subfaults_have_streams_of_their_own(
            p.station_seed,
            p.station_seed,
            p.segment as u64,
            p.segment as u64,
            p.place() as u64,
            q.place() as u64,
        );
    }
}

} // verus!
