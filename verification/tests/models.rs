use hb_high::geom::{SubfaultGeometry, SubfaultRay};
use hb_high::path_duration::{PathDuration, PathDurationModel, Slope};
use hb_high::radiation::{
    downgoing_cone, horizontal_radiation_spectrum, is_reversed, vertical_radiation_spectrum, Blend,
};
use hb_high::reals::{Double, Single};
use hb_high::rng::{cone_draws, predraw, Draws, FixtureDraws};
use hb_high::site::{column_layer, site_gain_curve, Bracket};
use hb_high::slip_model::{FaultPlane, GeoPoint, Segment, Slip, SlipModel, Subfault};
use hb_high::source::{
    capped_factor, dip_range, radiating_subfaults, rake_enters, shifts_down, velocity_draws, Band,
    DipRange, MomentWeight, RuptureVelocityTaper, DEEP_ZONE_BASE_KM, DEEP_ZONE_TOP_KM,
};
use hb_high::velocity::{
    build_velocity_model, insert_air_layer, layer_containing, working_model, InputLayer,
    ModelError,
};

fn single(x: f32) -> Single {
    Single(x.to_bits())
}

fn double(x: f64) -> Double {
    Double(x.to_bits())
}

fn value(s: Single) -> f32 {
    f32::from_bits(s.0)
}

fn layers(rows: &[(f32, f64, f64, f64, f32, f32)]) -> Vec<InputLayer> {
    rows.iter()
        .map(
            |&(thickness_km, vp_km_s, vsh_km_s, density_g_cm3, qp, qs)| InputLayer {
                depth_km: single(0.0),
                thickness_km: single(thickness_km),
                vp_km_s: double(vp_km_s),
                vsh_km_s: double(vsh_km_s),
                density_g_cm3: double(density_g_cm3),
                attenuation_p: single(qp),
                attenuation_s: single(qs),
            },
        )
        .collect()
}

/// Build a model, its depths summed in single precision.
fn build(layers: &Vec<InputLayer>, vs_moho_km_s: f64) -> Result<Vec<InputLayer>, ModelError> {
    let mut depth_km = 0.0f32;
    let depths_km = layers
        .iter()
        .map(|layer| {
            depth_km += value(layer.thickness_km);
            single(depth_km)
        })
        .collect();
    build_velocity_model(layers, &depths_km, double(vs_moho_km_s))
}

fn moho_in_the_first_layer() {
    let first = layers(&[(1.0, 8.0, 4.6, 3.3, 400.0, 200.0)]);
    assert!(matches!(
        build(&first, 4.0),
        Err(ModelError::MohoAtFirstLayer { .. })
    ));
    assert!(matches!(build(&vec![], 999.9), Err(ModelError::NoLayers)));
}

#[test]
fn velocity_a_moho_in_the_first_layer_is_an_error_not_a_panic() {
    moho_in_the_first_layer();
}

#[test]
fn input_a_moho_in_the_first_layer_is_an_error_not_a_panic() {
    moho_in_the_first_layer();
}

fn truncation_at_the_moho() {
    let model = layers(&[
        (1.0, 2.0, 1.0, 2.0, 100.0, 50.0),
        (2.0, 4.0, 2.5, 2.5, 200.0, 100.0),
        (3.0, 8.0, 4.6, 3.3, 400.0, 200.0),
    ]);
    // A Moho speed below the third layer's 4.6 truncates there.
    let v = build(&model, 4.0).unwrap();
    assert_eq!(v.len(), 3);
    let base = v.len() - 1;
    assert_eq!(value(v[base].thickness_km), 0.0, "the Moho layer is zeroed");
    assert_eq!(v[base].depth_km, v[base - 1].depth_km);
}

#[test]
fn velocity_velocity_model_truncates_at_the_moho_and_zeroes_the_base() {
    truncation_at_the_moho();
}

#[test]
fn input_velocity_model_truncates_at_the_moho_and_zeroes_the_base() {
    truncation_at_the_moho();
}

fn base_without_moho() {
    let model = layers(&[
        (1.0, 2.0, 1.0, 2.0, 100.0, 50.0),
        (2.0, 4.0, 2.5, 2.5, 200.0, 100.0),
    ]);
    let v = build(&model, 999.9).unwrap();
    assert_eq!(v.len(), 2);
    assert_eq!(value(v[1].thickness_km), 0.0);
    assert_eq!(value(v[0].depth_km), 1.0);
}

#[test]
fn velocity_velocity_model_without_moho_still_zeroes_the_base() {
    base_without_moho();
}

#[test]
fn input_velocity_model_without_moho_still_zeroes_the_base() {
    base_without_moho();
}

fn air_for_a_realistic_model() {
    let model = layers(&[
        (0.05, 1.8, 0.5, 1.81, 116.0, 58.0),
        (2.0, 4.0, 2.5, 2.5, 200.0, 100.0),
    ]);
    let built = build(&model, 999.9).unwrap();
    let layers_before = built.len();
    let qp1_before = built[0].attenuation_p;
    let v = insert_air_layer(built);
    assert_eq!(v.len(), layers_before + 1, "the model gets the air layer");
    assert_eq!(value(v[0].thickness_km), 0.0001);
    // Not 0.001 in double precision: the constant is single.
    assert_eq!(v[0].vp_km_s, double(0.001f32 as f64));
    assert_eq!(v[0].vsh_km_s, double(0.0005f32 as f64));
    assert_eq!(v[0].density_g_cm3, double(0.001f32 as f64));
    assert_eq!(
        value(v[1].thickness_km),
        0.05,
        "the first layer shifted down"
    );
    assert_eq!(
        v[0].attenuation_p, qp1_before,
        "the air layer's attenuation is left as it was"
    );
    // A second insertion changes nothing.
    let again = insert_air_layer(v.clone());
    assert_eq!(again, v);
}

#[test]
fn velocity_air_layer_is_inserted_for_a_realistic_model() {
    air_for_a_realistic_model();
}

#[test]
fn input_air_layer_is_inserted_for_a_realistic_model() {
    air_for_a_realistic_model();
}

fn no_air_at_the_surface() {
    let model = layers(&[
        (0.0, 1.8, 0.5, 1.81, 116.0, 58.0),
        (2.0, 4.0, 2.5, 2.5, 200.0, 100.0),
    ]);
    let built = build(&model, 999.9).unwrap();
    let layers_before = built.len();
    let v = insert_air_layer(built);
    assert_eq!(v.len(), layers_before);
}

#[test]
fn velocity_air_layer_is_skipped_when_the_model_starts_at_the_surface() {
    no_air_at_the_surface();
}

#[test]
fn input_air_layer_is_skipped_when_the_model_starts_at_the_surface() {
    no_air_at_the_surface();
}

#[test]
fn a_depth_lies_in_the_first_layer_that_reaches_it() {
    let model = working_model(
        build(
            &layers(&[
                (1.0, 2.0, 1.0, 2.0, 100.0, 50.0),
                (2.0, 4.0, 2.5, 2.5, 200.0, 100.0),
                (3.0, 8.0, 4.6, 3.3, 400.0, 200.0),
            ]),
            999.9,
        )
        .unwrap(),
    );
    // The air layer is the first.
    assert_eq!(model[2].depth_km, double(3.0));
    for (depth_km, want) in [
        (0.0, 0),
        (0.5, 1),
        (1.0, 1),
        (1.0000001, 2),
        (3.0, 2),
        (5.0, 3),
        // Below the whole model is the half-space.
        (100.0, 3),
    ] {
        assert_eq!(layer_containing(&model, single(depth_km)), want, "{depth_km}");
    }
}

// ---------------------------------------------------------------------------

fn plane(along_strike_count: usize, down_dip_count: usize) -> FaultPlane {
    FaultPlane {
        origin: GeoPoint {
            lat_deg: single(-43.0),
            lon_deg: single(173.0),
        },
        strike_deg: single(0.0),
        dip_deg: single(90.0),
        top_depth_km: single(0.0),
        along_strike_offset_km: single(0.0),
        subfault_length_km: single(1.0),
        subfault_width_km: single(1.0),
        along_strike_count,
        down_dip_count,
    }
}

fn segment(along_strike_count: usize, down_dip_count: usize) -> Segment {
    let subfaults = (0..along_strike_count * down_dip_count)
        .map(|k| Subfault {
            slip: Slip(single(k as f32)),
            rise_time_s: single(0.0),
            rupture_time_s: single(0.0),
        })
        .collect();
    Segment::new(
        plane(along_strike_count, down_dip_count),
        single(0.0),
        single(0.0),
        single(0.0),
        subfaults,
    )
}

fn transposed_orders() {
    let s = segment(3, 2);
    assert_eq!(
        s.depth_major(),
        [(1, 1), (2, 1), (3, 1), (1, 2), (2, 2), (3, 2)],
        "depth_major must vary i fastest"
    );
    assert_eq!(
        s.strike_major(),
        [(1, 1), (1, 2), (2, 1), (2, 2), (3, 1), (3, 2)],
        "strike_major must vary j fastest"
    );
    // Same index set either way.
    let mut a = s.depth_major();
    let mut b = s.strike_major();
    a.sort();
    b.sort();
    assert_eq!(a, b);
}

#[test]
fn slip_model_the_two_subfault_orders_are_transposes_of_each_other() {
    transposed_orders();
}

#[test]
fn input_the_two_subfault_orders_are_transposes_of_each_other() {
    transposed_orders();
}

#[test]
fn storage_is_one_run_per_depth_row() {
    let s = segment(3, 2);
    assert_eq!(s.subfault_total(), 6);
    for (k, (i, j)) in s.depth_major().into_iter().enumerate() {
        assert_eq!(s.grid_index(i, j), k);
        assert_eq!(s.at(i, j).slip, Slip(single(k as f32)));
    }
    let rows = s.depth_rows();
    assert_eq!(rows.len(), 2);
    assert_eq!(rows[1][0].slip, Slip(single(3.0)));
    assert_eq!(s.depth_row(0).len(), 3);
    assert_eq!(s.fault_plane(), plane(3, 2));
}

#[test]
fn derived_totals_are_the_sums_over_segments() {
    let model = SlipModel::new(
        vec![segment(3, 2), segment(4, 5)],
        single(26.0),
        &vec![single(4.0), single(9.5)],
    );
    assert_eq!(model.subfault_count, 26);
    assert_eq!(value(model.fault_area_km2), 26.0);
    assert_eq!(value(model.max_hypocentre_depth_km), 9.5);
}

#[test]
fn geometry_is_looked_up_by_both_numbers() {
    let ray = |k: usize| SubfaultRay {
        slant_km: single(k as f32),
        azimuth_rad: single(0.0),
        takeoff_rad: single(0.0),
        horiz_km: single(0.0),
        depth_km: single(0.0),
    };
    let geometry = SubfaultGeometry::new(&plane(3, 2), (0..6).map(ray).collect());
    assert_eq!(value(geometry.at(1, 1).slant_km), 0.0);
    assert_eq!(value(geometry.at(3, 1).slant_km), 2.0);
    assert_eq!(value(geometry.at(1, 2).slant_km), 3.0);
    assert_eq!(value(geometry.at(3, 2).slant_km), 5.0);
}

// ---------------------------------------------------------------------------

#[test]
fn path_duration_accepts_only_the_five_documented_values() {
    assert_eq!(
        PathDurationModel::from_code(0),
        Some(PathDurationModel::Gp2010)
    );
    assert_eq!(
        PathDurationModel::from_code(-7),
        Some(PathDurationModel::Gp2010)
    );
    assert_eq!(
        PathDurationModel::from_code(11),
        Some(PathDurationModel::Bt2014Wus)
    );
    // Values outside the documented set are rejected.
    for bad in [3, 5, 10, 13, 99] {
        assert_eq!(
            PathDurationModel::from_code(bad),
            None,
            "{bad} should be rejected"
        );
    }
}

#[test]
fn a_distance_lies_in_the_last_segment_that_it_is_past() {
    let table = PathDuration::new(PathDurationModel::Bt2014Wus);
    assert_eq!(table.len(), 6);
    for (distance_km, want) in [
        (-1.0, None),
        (0.0, None),
        (0.5, Some(0)),
        (7.0, Some(0)),
        (7.000001, Some(1)),
        (126.0, Some(3)),
        (1000.0, Some(5)),
        (f32::NAN, None),
    ] {
        assert_eq!(table.bin(single(distance_km)), want, "{distance_km}");
    }
    // Past the table the last slope goes on.
    assert!(matches!(table.segment(5).slope, Slope::Between { low: 4 }));
    assert_eq!((table.segment(5).start_km, table.segment(5).duration_tenths), (270, 342));
    let constant = PathDuration::new(PathDurationModel::Wus);
    assert_eq!(constant.len(), 1);
    assert!(matches!(
        constant.segment(0).slope,
        Slope::PerKm { milliseconds: 70 }
    ));
    assert_eq!(PathDuration::new(PathDurationModel::Bt2015Ena).len(), 8);
}

// ---------------------------------------------------------------------------

#[test]
fn deep_transition_tracks_the_deepest_hypocentre() {
    // Shallower than the default: the fixed depths stand.
    let taper = RuptureVelocityTaper::new(single(3.0), single(3.0 + 5.0));
    assert_eq!(
        (taper.deep_top_km, taper.deep_base_km),
        (Single(DEEP_ZONE_TOP_KM), Single(DEEP_ZONE_BASE_KM))
    );
    assert_eq!((value(taper.deep_top_km), value(taper.deep_base_km)), (15.0, 20.0));
    // Deeper: the band moves down and spans its thickness.
    let taper = RuptureVelocityTaper::new(single(22.0), single(22.0 + 5.0));
    assert_eq!(
        (value(taper.deep_top_km), value(taper.deep_base_km)),
        (22.0, 27.0)
    );
}

#[test]
fn the_taper_has_five_bands() {
    let taper = RuptureVelocityTaper::new(single(3.0), single(8.0));
    for (depth_km, want) in [
        (0.0, Band::Shallow),
        (4.999, Band::Shallow),
        (5.0, Band::ShallowRamp),
        (7.999, Band::ShallowRamp),
        (8.0, Band::Full),
        (10.0, Band::Full),
        (15.0, Band::DeepRamp),
        (20.0, Band::Deep),
        (30.0, Band::Deep),
        (f32::NAN, Band::Shallow),
    ] {
        assert_eq!(taper.band(single(depth_km)), want, "{depth_km}");
    }
}

#[test]
fn perturbed_factors_are_capped() {
    assert_eq!(capped_factor(single(1.3)), single(1.3));
    assert_eq!(capped_factor(single(1.5)), single(1.4));
    assert_eq!(capped_factor(single(f32::NAN)), single(1.4));
    assert_eq!(velocity_draws(single(0.1)), 1);
    assert_eq!(velocity_draws(single(0.0)), 0);
    assert_eq!(velocity_draws(single(-0.1)), 0);
}

#[test]
fn dips_and_rakes_fall_into_ranges() {
    for (dip, want) in [
        (45.0, DipRange::Tapered),
        (90.0, DipRange::Tapered),
        (44.9, DipRange::Full),
        (0.0, DipRange::Full),
        (-0.1, DipRange::Outside),
        (90.1, DipRange::Outside),
        (f32::NAN, DipRange::Outside),
    ] {
        assert_eq!(dip_range(single(dip)), want, "{dip}");
    }
    assert!(shifts_down(single(180.1)));
    assert!(!shifts_down(single(180.0)));
    assert!(rake_enters(single(0.0)) && rake_enters(single(180.0)));
    assert!(!rake_enters(single(-0.1)) && !rake_enters(single(180.1)));
}

#[test]
fn a_weight_at_the_threshold_radiates() {
    let at = |x: f32| MomentWeight(single(x));
    assert!(at(0.0009).is_silent());
    assert!(!at(0.001).is_silent());
    assert!(!at(0.0011).is_silent());
    assert!(!at(f32::NAN).is_silent());
    let weights = vec![vec![at(1.0), at(0.0005), at(2.0)], vec![], vec![at(0.001), at(0.5)]];
    assert_eq!(radiating_subfaults(&weights), 4);
}

// ---------------------------------------------------------------------------

#[test]
fn the_column_ends_in_a_quarter_period_or_at_the_source() {
    // Travel times through the layers from 1 on.
    let times_s: Vec<Single> = [0.0f32, 0.1, 0.3, 0.6, 1.0].map(single).to_vec();
    assert_eq!(column_layer(&times_s, single(0.05), 4), 1);
    assert_eq!(column_layer(&times_s, single(0.1), 4), 1);
    assert_eq!(column_layer(&times_s, single(0.2), 4), 2);
    assert_eq!(column_layer(&times_s, single(9.0), 4), 4);
    assert_eq!(column_layer(&times_s, single(9.0), 2), 2);
    // A source in the air does not end the walk.
    assert_eq!(column_layer(&times_s, single(0.5), 0), 3);
}

#[test]
fn bins_take_their_gain_between_table_entries() {
    let table: Vec<Single> = [1.0f32, 2.0, 4.0].map(single).to_vec();
    let frequencies: Vec<Single> = [f32::NEG_INFINITY, 0.5, 1.0, 1.5, 2.0, 3.0, 9.0, 9.5]
        .map(single)
        .to_vec();
    assert_eq!(
        site_gain_curve(&frequencies, &table, 8),
        [
            Bracket::Entry(0),
            Bracket::Before,
            Bracket::Before,
            Bracket::Within(1),
            Bracket::Within(1),
            Bracket::Within(2),
            Bracket::Past,
            Bracket::Entry(2),
        ]
    );
    // One bin is zero frequency and Nyquist at once, and takes the top.
    assert_eq!(site_gain_curve(&frequencies, &table, 1), [Bracket::Entry(2)]);
}

#[test]
fn the_cursor_agrees_with_a_search() {
    let table: Vec<Single> = (0..20).map(|k| single(k as f32 * 0.7 - 4.0)).collect();
    let frequencies: Vec<Single> = (0..200).map(|k| single(k as f32 * 0.09 - 6.0)).collect();
    let curve = site_gain_curve(&frequencies, &table, 200);
    for bin in 1..199 {
        let f = value(frequencies[bin]);
        let place = table.iter().filter(|&&t| value(t) < f).count();
        let want = match place {
            0 => Bracket::Before,
            20 => Bracket::Past,
            k => Bracket::Within(k),
        };
        assert_eq!(curve[bin], want, "bin {bin}");
    }
}

// ---------------------------------------------------------------------------

/// Wrapping a rake by remainder agrees, to the bit, with stepping by 360 in a loop.
fn rake_wrapping() {
    fn stepped(mut rake_deg: f32) -> f32 {
        while rake_deg < -180.0 {
            rake_deg += 360.0;
        }
        while rake_deg > 180.0 {
            rake_deg -= 360.0;
        }
        if (0.0..=180.0).contains(&rake_deg) {
            1.0 - (rake_deg - 90.0).abs() / 90.0
        } else {
            0.0
        }
    }
    fn wrapped(rake_deg: f32) -> f32 {
        let folded = rake_deg.rem_euclid(360.0);
        let rake_deg = if shifts_down(single(folded)) {
            folded - 360.0
        } else {
            folded
        };
        if rake_enters(single(rake_deg)) {
            1.0 - (rake_deg - 90.0).abs() / 90.0
        } else {
            0.0
        }
    }
    // Every boundary and every multiple of 90 across four turns.
    for step in -720i32..=720 {
        let rake_deg = step as f32;
        assert_eq!(
            stepped(rake_deg).to_bits(),
            wrapped(rake_deg).to_bits(),
            "rake {rake_deg} deg"
        );
    }
}

#[test]
fn sim_rake_wrapping_agrees_with_the_stepping_loop_it_replaced() {
    rake_wrapping();
}

#[test]
fn source_rake_wrapping_agrees_with_the_stepping_loop_it_replaced() {
    rake_wrapping();
}

// ---------------------------------------------------------------------------

#[test]
fn radiation_is_blended_between_two_frequencies() {
    let frequencies: Vec<Single> = [0.0f32, 0.5, 0.6, 2.0, 2.1].map(single).to_vec();
    let mut rng = FixtureDraws::seed(3);
    let pattern = horizontal_radiation_spectrum(&mut rng, &frequencies, 4);
    assert_eq!(
        pattern.blends,
        [
            Blend::Below,
            Blend::Below,
            Blend::Within,
            Blend::Within,
            Blend::Above
        ]
    );
    assert_eq!(pattern.directions, cone_draws(&mut FixtureDraws::seed(3), 4));
    // Twenty words have been drawn.
    let mut by_hand = FixtureDraws::seed(3);
    for _ in 0..20 {
        by_hand.draw();
    }
    assert_eq!(rng.draw(), by_hand.draw());

    let frequencies: Vec<Single> = [0.001f32, 0.005, 0.01, 0.02].map(single).to_vec();
    let (a, b) = predraw(&mut FixtureDraws::seed(5), 3);
    let pattern = vertical_radiation_spectrum(&frequencies, &a, &b, 2);
    assert_eq!(
        pattern.blends,
        [Blend::Below, Blend::Within, Blend::Within, Blend::Above]
    );
    assert_eq!(pattern.directions, [(a[0], b[0]), (a[1], b[1])]);
}

#[test]
fn only_downgoing_take_offs_enter_the_vertical() {
    let quarter = std::f32::consts::FRAC_PI_2;
    let half = std::f32::consts::PI;
    assert_eq!(
        downgoing_cone(single(1.0), single(2.0)),
        (single(quarter), single(2.0))
    );
    assert_eq!(
        downgoing_cone(single(2.0), single(3.5)),
        (single(2.0), single(half))
    );
    assert!(is_reversed(single(-0.1)));
    assert!(!is_reversed(single(0.0)) && !is_reversed(single(-0.0)));
}
