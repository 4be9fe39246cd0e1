use hb_high::driver::{segment_visits, Visit};
use hb_high::geom::{SubfaultGeometry, SubfaultRay};
use hb_high::pass::{station_report, Stage, Step, SubfaultPass};
use hb_high::path_duration::{PathDuration, PathDurationModel};
use hb_high::ray::{RayShape, RayType};
use hb_high::reals::{Double, Single};
use hb_high::record::{Census, Clipping, SampleGrid};
use hb_high::rng::{ray_stream_seed, substream_seed};
use hb_high::sim::{
    check_segments, earliest_window_start, needs_new_shape, time_window_pass, Component,
    Dimension, RadiationMode, SimError, COMPONENTS,
};
use hb_high::slip_model::{FaultPlane, GeoPoint, Segment, Slip, Subfault};
use hb_high::source::{radiating_subfaults, Band, MomentWeight, RuptureVelocityTaper};
use hb_high::spectrum::PlanCache;
use hb_high::velocity::Layer;

fn single(x: f32) -> Single {
    Single(x.to_bits())
}

fn double(x: f64) -> Double {
    Double(x.to_bits())
}

fn segment(along: usize, down: usize, length_km: f32, width_km: f32) -> Segment {
    Segment::new(
        FaultPlane {
            origin: GeoPoint {
                lat_deg: single(-43.0),
                lon_deg: single(173.0),
            },
            strike_deg: single(220.0),
            dip_deg: single(60.0),
            top_depth_km: single(5.0),
            along_strike_offset_km: single(0.5 * along as f32 * length_km),
            subfault_length_km: single(length_km),
            subfault_width_km: single(width_km),
            along_strike_count: along,
            down_dip_count: down,
        },
        single(0.0),
        single(1.0),
        single(2.0),
        vec![
            Subfault {
                slip: Slip(single(1.0)),
                rise_time_s: single(1.0),
                rupture_time_s: single(1.0),
            };
            along * down
        ],
    )
}

#[test]
fn components_keep_their_order() {
    let order: Vec<Component> = (0..COMPONENTS).map(Component::at).collect();
    assert_eq!(
        order,
        [Component::E090, Component::N000, Component::Vertical]
    );
    for (k, component) in order.iter().enumerate() {
        assert_eq!(component.index(), k);
    }
    assert_eq!(
        Component::E090.radiation_mode(),
        RadiationMode::Horizontal {
            azimuth_offset_deg: single(-90.0)
        }
    );
    assert_eq!(
        Component::N000.radiation_mode(),
        RadiationMode::Horizontal {
            azimuth_offset_deg: single(0.0)
        }
    );
    assert_eq!(Component::Vertical.radiation_mode(), RadiationMode::Vertical);
}

#[test]
fn only_the_vertical_is_capped() {
    for fmax in [10.0f32, 15.0, 20.0] {
        assert_eq!(Component::E090.capped_fmax(single(fmax)), single(fmax));
        assert_eq!(Component::N000.capped_fmax(single(fmax)), single(fmax));
        assert_eq!(
            Component::Vertical.capped_fmax(single(fmax)),
            single(fmax.min(15.0))
        );
        let built: Vec<bool> = (0..COMPONENTS)
            .map(|k| needs_new_shape(Component::at(k), single(fmax)))
            .collect();
        assert_eq!(built, [true, false, fmax > 15.0], "{fmax}");
    }
    // What is not a number is never the same as before.
    let built: Vec<bool> = (0..COMPONENTS)
        .map(|k| needs_new_shape(Component::at(k), single(f32::NAN)))
        .collect();
    assert_eq!(built, [true, true, true]);
}

#[test]
fn segments_must_be_diced_alike() {
    assert_eq!(check_segments(&vec![]), Ok(()));
    assert_eq!(check_segments(&vec![segment(1, 1, 1.0, 2.0)]), Ok(()));
    assert_eq!(
        check_segments(&vec![segment(1, 1, 1.0, 2.0), segment(3, 2, 1.0, 2.0)]),
        Ok(())
    );
    assert_eq!(
        check_segments(&vec![
            segment(1, 1, 1.0, 2.0),
            segment(1, 1, 1.0, 2.0),
            segment(1, 1, 1.5, 2.5),
        ]),
        Err(SimError::InconsistentSegments {
            segment: 2,
            dimension: Dimension::SubfaultLengthKm,
            found: single(1.5),
            expected: single(1.0),
        })
    );
    assert_eq!(
        check_segments(&vec![segment(1, 1, 1.0, 2.0), segment(1, 1, 1.0, 2.5)]),
        Err(SimError::InconsistentSegments {
            segment: 1,
            dimension: Dimension::SubfaultWidthKm,
            found: single(2.5),
            expected: single(2.0),
        })
    );
}

#[test]
fn windows_are_made_per_subfault() {
    let model: Vec<Layer> = [5.0f64, 10.0]
        .iter()
        .map(|&depth_km| Layer {
            depth_km: double(depth_km),
            thickness_km: double(5.0),
            vp_km_s: double(5.0),
            vsh_km_s: double(3.0),
            density_g_cm3: double(2.7),
            attenuation_p: single(200.0),
            attenuation_s: single(100.0),
        })
        .collect();
    let s = segment(2, 2, 1.0, 1.0);
    let rays = [(4.0f32, 3.0f32), (6.0, 8.0), (9.0, 50.0), (40.0, 300.0)]
        .iter()
        .map(|&(depth_km, slant_km)| SubfaultRay {
            slant_km: single(slant_km),
            azimuth_rad: single(0.0),
            takeoff_rad: single(0.0),
            horiz_km: single(0.0),
            depth_km: single(depth_km),
        })
        .collect();
    let geometry = SubfaultGeometry::new(&s.fault_plane(), rays);
    let windows = time_window_pass(
        &s,
        &geometry,
        &model,
        &RuptureVelocityTaper::new(single(3.0), single(8.0)),
        &PathDuration::new(PathDurationModel::Bt2014Wus),
    );
    let got: Vec<(usize, Band, Option<usize>)> =
        windows.iter().map(|w| (w.layer, w.band, w.bin)).collect();
    assert_eq!(
        got,
        [
            (0, Band::Shallow, Some(0)),
            (1, Band::ShallowRamp, Some(1)),
            (1, Band::Full, Some(2)),
            (1, Band::Deep, Some(5)),
        ]
    );
}

#[test]
fn earliest_start_sample_bounds_the_straight_ray_start() {
    // 300 km at 4 km/s, less a fifth of a 60 s window, against 0.7 of 300 km at 3.7 km/s.
    let dt = 0.1f32;
    let traced_s = 300.0f32 / 4.0 - 0.2 * 60.0;
    let straight_s = 0.7f32 * 300.0 / 3.7;
    let rayset = vec![RayType::StraightLine];
    let grid = SampleGrid {
        dt: single(dt),
        ndata: 10_000,
    };
    let bound_s = earliest_window_start(single(traced_s), single(straight_s), &rayset);
    let earliest = grid.start_sample(
        single(0.0 / dt),
        single(f32::from_bits(bound_s.0) / dt),
    );
    let start_sample = grid.start_sample(single(0.0 / dt), single(straight_s / dt));
    assert!(
        earliest <= start_sample,
        "the earliest start ({earliest}) must not exceed the real straight-ray start \
         ({start_sample})"
    );
    // Without a straight line the traced bound stands.
    let traced = vec![RayType::Traced(RayShape::Upgoing { multiples: 0 })];
    assert_eq!(
        earliest_window_start(single(traced_s), single(straight_s), &traced),
        single(traced_s)
    );
    assert_eq!(
        earliest_window_start(single(1.0), single(2.0), &rayset),
        single(1.0)
    );
}

const SEED: u64 = 42;

fn pass(along: usize, down: usize, rays: usize, plans: &mut PlanCache) -> SubfaultPass {
    let (pass, longest) = SubfaultPass::start(
        1,
        &segment(along, down, 1.0, 1.0),
        SEED,
        rays,
        SampleGrid {
            dt: single(0.01),
            ndata: 100,
        },
        single(60.0),
        plans,
    );
    assert_eq!(longest.np2, 64);
    pass
}

#[test]
fn the_walk_meets_every_subfault_in_strike_order() {
    let mut plans = PlanCache::new();
    let mut walk = pass(3, 2, 2, &mut plans);
    let mut met = Vec::new();
    loop {
        match walk.next() {
            Step::Weigh {
                along_strike,
                down_dip,
                place,
            } => {
                assert_eq!(place, (down_dip - 1) * 3 + along_strike - 1);
                met.push((along_strike, down_dip));
                walk.weigh(MomentWeight(single(0.0)));
            }
            Step::Done => break,
            step => panic!("a silent subfault was taken on: {step:?}"),
        }
    }
    assert_eq!(met, segment(3, 2, 1.0, 1.0).strike_major());
    assert_eq!(walk.census, Census::default());
    assert_eq!(walk.clipping, Clipping::default());
}

#[test]
fn streams_are_seeded_by_identity() {
    let mut plans = PlanCache::new();
    let mut walk = pass(3, 2, 2, &mut plans);
    walk.weigh(MomentWeight(single(0.0)));
    // The second subfault of the walk is the fourth in storage.
    assert!(walk.weigh(MomentWeight(single(1.0))));
    let subfault = substream_seed(SEED, 1, 3);
    assert_eq!(
        walk.next(),
        Step::Bound {
            along_strike: 1,
            down_dip: 2,
            place: 3,
            seed: subfault
        }
    );
    assert!(walk.bound(5, single(-1.0), single(-0.1)));
    for ray in 0..2 {
        assert_eq!(
            walk.next(),
            Step::Trace {
                ray,
                seed: ray_stream_seed(subfault, ray)
            }
        );
        assert!(walk.arrive(5, single(-1.0), single(-0.1)));
        assert_eq!(walk.next(), Step::Transform { ray });
        let (plan, placement) = walk.transform(single(20.0), &mut plans);
        assert_eq!(plan.np2, 20);
        let at = placement.unwrap();
        assert_eq!((at.skip, at.offset, at.count), (0, 4, 20));
    }
    assert!(matches!(walk.next(), Step::Weigh { along_strike: 2, down_dip: 1, .. }));
    assert_eq!(
        walk.census,
        Census {
            pairs_attempted: 2,
            pairs_outside_record: 0,
            samples_computed: 40,
            samples_accumulated: 40,
            transform_lengths: 0,
        }
    );
    // The longest window's plan, and the one that both rays share.
    assert_eq!(plans.len(), 2);
}

#[test]
fn what_cannot_arrive_is_ruled_out() {
    let mut plans = PlanCache::new();
    let mut ruled_out = pass(1, 1, 3, &mut plans);
    assert!(ruled_out.weigh(MomentWeight(single(1.0))));
    assert!(!ruled_out.bound(101, single(5.0), single(0.05)));
    assert_eq!(ruled_out.next(), Step::Done);
    assert_eq!(ruled_out.census.pairs_attempted, 3);
    assert_eq!(ruled_out.census.pairs_outside_record, 3);
    assert_eq!(ruled_out.clipping.peaks_lost, 3);
    assert_eq!(ruled_out.clipping.worst_overrun_s, single(0.05));

    // Tracing the rays in vain counts the same.
    let mut traced = pass(1, 1, 3, &mut plans);
    assert!(traced.weigh(MomentWeight(single(1.0))));
    assert!(traced.bound(100, single(4.0), single(0.04)));
    for late in [101, 150, 2000] {
        assert!(!traced.arrive(late, single(6.0), single(0.06)));
    }
    assert_eq!(traced.next(), Step::Done);
    assert_eq!(traced.census, ruled_out.census);
    assert_eq!(traced.clipping.peaks_lost, ruled_out.clipping.peaks_lost);
}

#[test]
fn a_window_that_ends_before_the_record_is_outside() {
    let mut plans = PlanCache::new();
    let mut walk = pass(1, 1, 1, &mut plans);
    walk.weigh(MomentWeight(single(1.0)));
    assert!(walk.bound(-500, single(-600.0), single(-6.0)));
    assert!(walk.arrive(-500, single(-600.0), single(-6.0)));
    assert_eq!(
        walk.stage,
        Stage::Placing {
            ray: 0,
            start_sample: -500
        }
    );
    let (_, placement) = walk.transform(single(20.0), &mut plans);
    assert_eq!(placement, None);
    assert_eq!(walk.census.pairs_outside_record, 1);
    assert_eq!(walk.census.samples_computed, 0);
    assert!(walk.clipping.is_complete());
    assert_eq!(walk.next(), Step::Done);
}

#[test]
fn a_walk_without_rays_ends() {
    let mut plans = PlanCache::new();
    let mut walk = pass(2, 1, 0, &mut plans);
    for _ in 0..2 {
        assert!(walk.weigh(MomentWeight(single(1.0))));
        assert!(!walk.bound(1, single(0.0), single(0.0)));
    }
    assert_eq!(walk.next(), Step::Done);
    assert_eq!(walk.census.pairs_attempted, 0);
}

#[test]
fn a_station_reports_its_segments_together() {
    let mut plans = PlanCache::new();
    plans.for_length(16);
    plans.for_length(32);
    let census = Census {
        pairs_attempted: 2,
        pairs_outside_record: 1,
        samples_computed: 50,
        samples_accumulated: 30,
        transform_lengths: 0,
    };
    let clippings = vec![
        Clipping {
            peaks_lost: 1,
            worst_overrun_s: single(0.5),
        },
        Clipping {
            peaks_lost: 2,
            worst_overrun_s: single(0.25),
        },
    ];
    let (clipping, total) = station_report(&clippings, &vec![census, census], &plans);
    assert_eq!((clipping.peaks_lost, clipping.worst_overrun_s), (3, single(0.5)));
    assert_eq!(
        total,
        Census {
            pairs_attempted: 4,
            pairs_outside_record: 2,
            samples_computed: 100,
            samples_accumulated: 60,
            transform_lengths: 2,
        }
    );
}

#[test]
fn radiating_subfaults_are_visited_strike_first() {
    let segment = segment(2, 3, 1.0, 1.0);
    // Storage order: (1,1) (2,1) (1,2) (2,2) (1,3) (2,3).
    let weights: Vec<MomentWeight> = [1.0, 0.0, 2.0, 0.5, 0.0, 0.001]
        .iter()
        .map(|&w| MomentWeight(single(w)))
        .collect();
    let visit = |along_strike, down_dip, place, deviate| Visit {
        along_strike,
        down_dip,
        place,
        deviate,
    };
    assert_eq!(
        segment_visits(&segment, &weights, single(0.1)),
        [
            visit(1, 1, 0, Some(2)),
            visit(1, 2, 2, Some(3)),
            visit(2, 2, 3, Some(4)),
            visit(2, 3, 5, Some(5)),
        ]
    );
    assert_eq!(
        segment_visits(&segment, &weights, single(0.0)),
        [
            visit(1, 1, 0, None),
            visit(1, 2, 2, None),
            visit(2, 2, 3, None),
            visit(2, 3, 5, None),
        ]
    );
    // Counting is by the threshold of the walk.
    assert_eq!(radiating_subfaults(&vec![weights]), 4);
    let silent = vec![MomentWeight(single(0.0)); 6];
    assert!(segment_visits(&segment, &silent, single(0.1)).is_empty());
}

#[test]
fn a_walk_attempts_the_rays_of_what_is_counted() {
    let weights: Vec<MomentWeight> = [1.0, 0.0009, 0.001, 0.5, 0.0, 2.0]
        .iter()
        .map(|&w| MomentWeight(single(w)))
        .collect();
    let mut plans = PlanCache::new();
    let mut walk = pass(2, 3, 3, &mut plans);
    loop {
        match walk.next() {
            Step::Weigh { place, .. } => {
                walk.weigh(weights[place]);
            }
            // Half of the subfaults are ruled out, the others are traced in vain.
            Step::Bound { place, .. } => {
                let earliest = if place % 2 == 0 { 101 } else { 1 };
                walk.bound(earliest, single(1.0), single(0.01));
            }
            Step::Trace { .. } => {
                walk.arrive(101, single(1.0), single(0.01));
            }
            Step::Transform { .. } => unreachable!("no ray reaches the record"),
            Step::Done => break,
        }
    }
    let counted = radiating_subfaults(&vec![weights]);
    assert_eq!(counted, 4);
    assert_eq!(walk.census.pairs_attempted, 3 * counted);
    assert_eq!(walk.census.pairs_outside_record, 3 * counted);
    assert_eq!(walk.clipping.peaks_lost, 3 * counted);
}
