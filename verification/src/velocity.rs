//! The layered velocity model: truncation at the Moho, the air layer, the layer a depth lies in.

use vstd::arithmetic::power2::*;
use vstd::prelude::*;

use crate::reals;
use crate::reals::{widen, Double, Single};

verus! {

/// One layer of the working velocity model.
#[derive(Clone, Copy, Debug, PartialEq, Eq, Structural)]
pub struct Layer {
    /// Depth to the base of this layer, accumulated from the surface.
    pub depth_km: Double,
    pub thickness_km: Double,
    /// P velocity.
    pub vp_km_s: Double,
    /// S velocity.
    pub vsh_km_s: Double,
    pub density_g_cm3: Double,
    pub attenuation_p: Single,
    pub attenuation_s: Single,
}

/// One layer as given, its depth and thickness in single precision.
#[derive(Clone, Copy, Debug, PartialEq, Eq, Structural)]
pub struct InputLayer {
    pub depth_km: Single,
    pub thickness_km: Single,
    pub vp_km_s: Double,
    pub vsh_km_s: Double,
    pub density_g_cm3: Double,
    pub attenuation_p: Single,
    pub attenuation_s: Single,
}

/// Why a velocity model cannot be built.
#[derive(Debug, PartialEq, Eq, Structural)]
pub enum ModelError {
    /// There are no layers.
    NoLayers,
    /// The first layer already reaches the Moho velocity, so nothing lies above it.
    MohoAtFirstLayer { vs_moho_km_s: Double },
}

/// The bit pattern of zero, in single precision.
pub const ZERO: u32 = 0;

// ---------------------------------------------------------------------------
// Truncation at the Moho
// ---------------------------------------------------------------------------

/// Whether a layer is at or beyond the Moho.
pub open spec fn reaches_moho(layer: InputLayer, vs_moho_km_s: Double) -> bool {
    vs_moho_km_s.at_most(layer.vsh_km_s)
}

/// The first layer from `at` on that reaches the Moho, or the number of layers.
pub open spec fn moho_layer(layers: Seq<InputLayer>, vs_moho_km_s: Double, at: int) -> int
    decreases layers.len() - at,
{
    if at >= layers.len() || reaches_moho(layers[at], vs_moho_km_s) {
        at
    } else {
        moho_layer(layers, vs_moho_km_s, at + 1)
    }
}

/// A layer with its depth set.
pub open spec fn at_depth(layer: InputLayer, depth_km: Single) -> InputLayer {
    InputLayer { depth_km, ..layer }
}

/// Layer `i` of the model that ends at layer `last`. A layer at the Moho is the half-space: it
/// has no thickness, and its depth is that of the layer above it. Where nothing reaches the Moho
/// the deepest layer is the half-space, at its own depth.
pub open spec fn model_layer(
    layers: Seq<InputLayer>,
    depths: Seq<Single>,
    vs_moho_km_s: Double,
    i: int,
) -> InputLayer {
    let moho = moho_layer(layers, vs_moho_km_s, 0);
    if i == moho {
        InputLayer { thickness_km: Single(ZERO), ..at_depth(layers[i], depths[i - 1]) }
    } else if i == layers.len() - 1 {
        InputLayer { thickness_km: Single(ZERO), ..at_depth(layers[i], depths[i]) }
    } else {
        at_depth(layers[i], depths[i])
    }
}

/// How many layers the model keeps.
pub open spec fn model_length(layers: Seq<InputLayer>, vs_moho_km_s: Double) -> int {
    let moho = moho_layer(layers, vs_moho_km_s, 0);
    if moho < layers.len() {
        moho + 1
    } else {
        layers.len() as int
    }
}

/// Where the Moho layer is: in range, and nothing above it reaches the Moho.
proof fn moho_layer_is_first(layers: Seq<InputLayer>, vs_moho_km_s: Double, at: int)
    requires
        0 <= at <= layers.len(),
    ensures
        at <= moho_layer(layers, vs_moho_km_s, at) <= layers.len(),
        moho_layer(layers, vs_moho_km_s, at) < layers.len() ==> reaches_moho(
            layers[moho_layer(layers, vs_moho_km_s, at)],
            vs_moho_km_s,
        ),
        forall|i: int|
            at <= i < moho_layer(layers, vs_moho_km_s, at) ==> !reaches_moho(
                #[trigger] layers[i],
                vs_moho_km_s,
            ),
    decreases layers.len() - at,
{
    if at < layers.len() && !reaches_moho(layers[at], vs_moho_km_s) {
        moho_layer_is_first(layers, vs_moho_km_s, at + 1);
    }
}

/// Build the velocity model, truncated at the first layer that reaches `vs_moho_km_s`.
///
/// `depths_km` holds the running sum of the thicknesses: what lies above and in each layer.
pub fn build_velocity_model(
    layers: &Vec<InputLayer>,
    depths_km: &Vec<Single>,
    vs_moho_km_s: Double,
) -> (r: Result<Vec<InputLayer>, ModelError>)
    requires
        depths_km.len() == layers.len(),
    ensures
        layers.len() == 0 ==> r == Err::<Vec<InputLayer>, _>(ModelError::NoLayers),
        layers.len() > 0 && reaches_moho(layers@[0], vs_moho_km_s) ==> r == Err::<
            Vec<InputLayer>,
            _,
        >(ModelError::MohoAtFirstLayer { vs_moho_km_s }),
        layers.len() > 0 && !reaches_moho(layers@[0], vs_moho_km_s) ==> {
            &&& r is Ok
            &&& r->Ok_0.len() == model_length(layers@, vs_moho_km_s)
            &&& forall|i: int|
                0 <= i < r->Ok_0.len() ==> #[trigger] r->Ok_0@[i] == model_layer(
                    layers@,
                    depths_km@,
                    vs_moho_km_s,
                    i,
                )
        },
{
    if layers.len() == 0 {
        return Err(ModelError::NoLayers);
    }
    let mut model: Vec<InputLayer> = Vec::new();
    let mut i: usize = 0;
    while i < layers.len()
        invariant
            depths_km.len() == layers.len(),
            i <= layers.len(),
            model.len() == i,
            i > 0 ==> !reaches_moho(layers@[0], vs_moho_km_s),
            moho_layer(layers@, vs_moho_km_s, 0) == moho_layer(layers@, vs_moho_km_s, i as int),
            forall|j: int|
                0 <= j < i ==> #[trigger] model@[j] == at_depth(layers@[j], depths_km@[j]),
        decreases layers.len() - i,
    {
        let mut built: InputLayer = layers[i];
        built.depth_km = depths_km[i];
        if vs_moho_km_s.is_at_most(layers[i].vsh_km_s) {
            if i == 0 {
                return Err(ModelError::MohoAtFirstLayer { vs_moho_km_s });
            }
            built.thickness_km = Single(ZERO);
            built.depth_km = depths_km[i - 1];
            model.push(built);
            return Ok(model);
        }
        model.push(built);
        i += 1;
    }
    let last: usize = model.len() - 1;
    let mut base: InputLayer = model[last];
    base.thickness_km = Single(ZERO);
    model.set(last, base);
    Ok(model)
}

/// Every model that is built ends in a layer without thickness: the half-space marker that the
/// reflected rays turn at. All layers above it are as given, and below the Moho velocity.
pub proof fn a_model_ends_in_the_half_space(
    layers: Seq<InputLayer>,
    depths: Seq<Single>,
    vs_moho_km_s: Double,
)
    requires
        layers.len() > 0,
        depths.len() == layers.len(),
        !reaches_moho(layers[0], vs_moho_km_s),
    ensures
        1 <= model_length(layers, vs_moho_km_s) <= layers.len(),
        model_layer(
            layers,
            depths,
            vs_moho_km_s,
            model_length(layers, vs_moho_km_s) - 1,
        ).thickness_km == Single(ZERO),
        forall|i: int|
            0 <= i < model_length(layers, vs_moho_km_s) - 1 ==> {
                &&& #[trigger] model_layer(layers, depths, vs_moho_km_s, i) == at_depth(
                    layers[i],
                    depths[i],
                )
                &&& !reaches_moho(layers[i], vs_moho_km_s)
            },
{
    moho_layer_is_first(layers, vs_moho_km_s, 0);
}

// ---------------------------------------------------------------------------
// The air layer
//
// The constants are bit patterns: of a single where the model holds a single, else of a double.
// ---------------------------------------------------------------------------

/// 0.001 km: a model whose first layer is no deeper starts at the surface already.
pub const SURFACE_DEPTH_KM: u32 = 0x3a83_126f;

/// 0.01 km/s: a first layer no faster than this is air already.
pub const AIR_SPEED_LIMIT_KM_S: u64 = 0x3f84_7ae1_47ae_147b;

/// 0.0001 km, how thick the air layer is and how deep its base.
pub const AIR_THICKNESS_KM: u32 = 0x38d1_b717;

/// 0.001, rounded to single precision: the air layer's P velocity and its density.
pub const AIR_VP_KM_S: u64 = 0x3f50_624d_e000_0000;

/// 0.0005, rounded to single precision: the air layer's S velocity.
pub const AIR_VSH_KM_S: u64 = 0x3f40_624d_e000_0000;

/// Whether a model needs an air layer above its first.
pub open spec fn needs_air(first: InputLayer) -> bool {
    Single(SURFACE_DEPTH_KM).below(first.depth_km) && Double(AIR_SPEED_LIMIT_KM_S).below(first.vp_km_s)
}

/// The air layer above `first`, whose attenuation it keeps.
pub open spec fn air_above(first: InputLayer) -> InputLayer {
    InputLayer {
        depth_km: Single(AIR_THICKNESS_KM),
        thickness_km: Single(AIR_THICKNESS_KM),
        vp_km_s: Double(AIR_VP_KM_S),
        vsh_km_s: Double(AIR_VSH_KM_S),
        density_g_cm3: Double(AIR_VP_KM_S),
        attenuation_p: first.attenuation_p,
        attenuation_s: first.attenuation_s,
    }
}

/// A model with the air layer it needs.
pub open spec fn with_air(model: Seq<InputLayer>) -> Seq<InputLayer> {
    if needs_air(model[0]) {
        seq![air_above(model[0])] + model
    } else {
        model
    }
}

/// Insert the thin air layer at the top of the model, where it needs one. It gives
/// surface-reflected rays their free-surface coefficient.
pub fn insert_air_layer(model: Vec<InputLayer>) -> (r: Vec<InputLayer>)
    requires
        model.len() > 0,
    ensures
        r@ == with_air(model@),
{
    let first: InputLayer = model[0];
    if !(Single(SURFACE_DEPTH_KM).is_below(first.depth_km) && Double(AIR_SPEED_LIMIT_KM_S).is_below(
        first.vp_km_s,
    )) {
        return model;
    }
    let mut air: InputLayer = first;
    air.depth_km = Single(AIR_THICKNESS_KM);
    air.thickness_km = Single(AIR_THICKNESS_KM);
    air.vp_km_s = Double(AIR_VP_KM_S);
    air.vsh_km_s = Double(AIR_VSH_KM_S);
    air.density_g_cm3 = Double(AIR_VP_KM_S);
    let mut r: Vec<InputLayer> = model;
    r.insert(0, air);
    r
}

/// A model gets at most one air layer: inserting it a second time changes nothing.
pub proof fn air_is_inserted_once(model: Seq<InputLayer>)
    requires
        model.len() > 0,
    ensures
        with_air(with_air(model)) == with_air(model),
{
    if needs_air(model[0]) {
        assert(with_air(model)[0] == air_above(model[0]));
    }
}

// ---------------------------------------------------------------------------
// The working model
// ---------------------------------------------------------------------------

/// Whether `w` is the layer `l`, its depth and thickness widened.
pub open spec fn is_widened(w: Layer, l: InputLayer) -> bool {
    &&& reals::same_number(l.depth_km, w.depth_km)
    &&& reals::same_number(l.thickness_km, w.thickness_km)
    &&& w.vp_km_s == l.vp_km_s
    &&& w.vsh_km_s == l.vsh_km_s
    &&& w.density_g_cm3 == l.density_g_cm3
    &&& w.attenuation_p == l.attenuation_p
    &&& w.attenuation_s == l.attenuation_s
}

impl Layer {
    /// A layer as given, its depth and thickness widened.
    pub fn from_input(l: InputLayer) -> (w: Self)
        ensures
            is_widened(w, l),
    {
        Layer {
            depth_km: widen(l.depth_km),
            thickness_km: widen(l.thickness_km),
            vp_km_s: l.vp_km_s,
            vsh_km_s: l.vsh_km_s,
            density_g_cm3: l.density_g_cm3,
            attenuation_p: l.attenuation_p,
            attenuation_s: l.attenuation_s,
        }
    }
}

/// The working model: the air layer inserted, then every layer widened.
pub fn working_model(input: Vec<InputLayer>) -> (model: Vec<Layer>)
    requires
        input.len() > 0,
    ensures
        model.len() == with_air(input@).len(),
        forall|i: int|
            0 <= i < model.len() ==> is_widened(#[trigger] model@[i], with_air(input@)[i]),
{
    let layers = insert_air_layer(input);
    let mut model: Vec<Layer> = Vec::new();
    let mut i: usize = 0;
    while i < layers.len()
        invariant
            i <= layers.len(),
            model.len() == i,
            forall|j: int| 0 <= j < i ==> is_widened(#[trigger] model@[j], layers@[j]),
        decreases layers.len() - i,
    {
        model.push(Layer::from_input(layers[i]));
        i += 1;
    }
    model
}

// ---------------------------------------------------------------------------
// Lookup
// ---------------------------------------------------------------------------

/// The first layer from `at` on whose base is at or below `depth_km`, or the number of layers.
pub open spec fn first_reaching(model: Seq<Layer>, depth_km: Double, at: int) -> int
    decreases model.len() - at,
{
    if at >= model.len() || depth_km.at_most(model[at].depth_km) {
        at
    } else {
        first_reaching(model, depth_km, at + 1)
    }
}

/// The layer that a source at `depth_km` sits in: the first whose base is at or below it. A
/// source below the whole model is in the half-space, which is the deepest layer.
pub open spec fn containing(model: Seq<Layer>, depth_km: Double) -> int {
    let at = first_reaching(model, depth_km, 0);
    if at < model.len() {
        at
    } else {
        model.len() - 1
    }
}

/// The layer that a source at `depth_km` sits in. See [`containing`].
pub fn layer_containing(model: &Vec<Layer>, depth_km: Single) -> (layer: usize)
    requires
        model.len() > 0,
    ensures
        forall|d: Double| #[trigger]
            reals::same_number(depth_km, d) ==> layer == containing(model@, d),
        layer < model.len(),
{
    let depth: Double = widen(depth_km);
    let mut at: usize = 0;
    while at < model.len()
        invariant_except_break
            first_reaching(model@, depth, 0) == first_reaching(model@, depth, at as int),
            at <= model.len(),
        ensures
            at <= model.len(),
            first_reaching(model@, depth, 0) == at,
        decreases model.len() - at,
    {
        if depth.is_at_most(model[at].depth_km) {
            break;
        }
        at += 1;
    }
    proof {
        assert forall|d: Double| #[trigger] reals::same_number(depth_km, d) implies containing(
            model@,
            d,
        ) == containing(model@, depth) by {
            reals::widening_is_unique(depth_km, depth, d);
            if !depth_km.ordered() {
                reals::widening_is_unique(depth_km, d, depth);
                none_reaches(model@, depth, 0);
                none_reaches(model@, d, 0);
            }
        }
    }
    if at < model.len() {
        at
    } else {
        model.len() - 1
    }
}

/// What is not a number is reached by no layer.
proof fn none_reaches(model: Seq<Layer>, depth_km: Double, at: int)
    requires
        0 <= at <= model.len(),
        !depth_km.ordered(),
    ensures
        first_reaching(model, depth_km, at) == model.len(),
    decreases model.len() - at,
{
    if at < model.len() {
        none_reaches(model, depth_km, at + 1);
    }
}

/// Where the first layer that reaches a depth is.
proof fn first_reaching_is_first(model: Seq<Layer>, depth_km: Double, at: int)
    requires
        0 <= at <= model.len(),
    ensures
        at <= first_reaching(model, depth_km, at) <= model.len(),
        first_reaching(model, depth_km, at) < model.len() ==> depth_km.at_most(
            model[first_reaching(model, depth_km, at)].depth_km,
        ),
        forall|i: int|
            at <= i < first_reaching(model, depth_km, at) ==> !depth_km.at_most(
                (#[trigger] model[i]).depth_km,
            ),
    decreases model.len() - at,
{
    if at < model.len() && !depth_km.at_most(model[at].depth_km) {
        first_reaching_is_first(model, depth_km, at + 1);
    }
}

/// A deeper source never sits in a shallower layer.
pub proof fn deeper_sources_sit_no_higher(model: Seq<Layer>, shallow: Double, deep: Double)
    requires
        model.len() > 0,
        shallow.at_most(deep),
        forall|i: int| 0 <= i < model.len() ==> (#[trigger] model[i]).depth_km.ordered(),
    ensures
        0 <= containing(model, shallow) <= containing(model, deep) < model.len(),
{
    first_reaching_is_first(model, shallow, 0);
    first_reaching_is_first(model, deep, 0);
    let (s, d) = (first_reaching(model, shallow, 0), first_reaching(model, deep, 0));
    if d < s {
        assert(!shallow.at_most(model[d].depth_km));
    }
}

/// What a model keeps of the layers as given: every layer down to the first whose shear speed is
/// that of the Moho or faster, and no further. All but the last are slower than the Moho; the
/// last is as fast, or is the deepest that was given.
pub proof fn a_model_is_cut_at_the_moho(layers: Seq<InputLayer>, vs_moho_km_s: Double)
    requires
        layers.len() > 0,
        !vs_moho_km_s.at_most(layers[0].vsh_km_s),
    ensures
        ({
            let n = model_length(layers, vs_moho_km_s);
            &&& 1 <= n <= layers.len()
            &&& forall|i: int|
                0 <= i < n - 1 ==> !vs_moho_km_s.at_most((#[trigger] layers[i]).vsh_km_s)
            &&& n == layers.len() || vs_moho_km_s.at_most(layers[n - 1].vsh_km_s)
        }),
{
    moho_layer_is_first(layers, vs_moho_km_s, 0);
}

/// A model is built from the layers as given: speeds, density and attenuation are theirs, a
/// thickness is theirs but for that of the last layer, which is nothing, and depths run on
/// without a gap. The last layer starts where the one above it ends, or, where nothing reaches
/// the Moho, ends where its thickness says.
pub proof fn a_model_keeps_its_layers(
    layers: Seq<InputLayer>,
    depths: Seq<Single>,
    vs_moho_km_s: Double,
    i: int,
)
    requires
        layers.len() == depths.len(),
        layers.len() > 0,
        !vs_moho_km_s.at_most(layers[0].vsh_km_s),
        0 <= i < model_length(layers, vs_moho_km_s),
    ensures
        ({
            let n = model_length(layers, vs_moho_km_s);
            let l = model_layer(layers, depths, vs_moho_km_s, i);
            &&& l.vp_km_s == layers[i].vp_km_s
            &&& l.vsh_km_s == layers[i].vsh_km_s
            &&& l.density_g_cm3 == layers[i].density_g_cm3
            &&& l.attenuation_p == layers[i].attenuation_p
            &&& l.attenuation_s == layers[i].attenuation_s
            &&& i < n - 1 ==> l.thickness_km == layers[i].thickness_km && l.depth_km == depths[i]
            &&& i == n - 1 ==> l.thickness_km == Single(0)
            &&& i == n - 1 && vs_moho_km_s.at_most(layers[i].vsh_km_s) ==> l.depth_km == depths[i
                - 1] && l.depth_km == model_layer(layers, depths, vs_moho_km_s, i - 1).depth_km
            &&& i == n - 1 && !vs_moho_km_s.at_most(layers[i].vsh_km_s) ==> l.depth_km == depths[i]
        }),
{
    moho_layer_is_first(layers, vs_moho_km_s, 0);
}

/// The air layer goes on top of what is there, and nothing else changes. It is as thick as it is
/// deep, as dense as its P speed, half as fast in shear as in compression, and has the
/// attenuation of the layer below it.
pub proof fn air_goes_on_top(model: Seq<InputLayer>)
    requires
        model.len() > 0,
    ensures
        ({
            let all = with_air(model);
            let air = all[0];
            ||| all == model
            ||| {
                &&& all.len() == model.len() + 1
                &&& all.skip(1) == model
                &&& air.thickness_km == air.depth_km
                &&& air.density_g_cm3 == air.vp_km_s
                &&& reals::double_parts(air.vp_km_s).0 == reals::double_parts(air.vsh_km_s).0
                &&& reals::double_parts(air.vp_km_s).1 == reals::double_parts(air.vsh_km_s).1 + 1
                &&& air.attenuation_p == all[1].attenuation_p
                &&& air.attenuation_s == all[1].attenuation_s
            }
        }),
{
    if needs_air(model[0]) {
        assert(with_air(model).skip(1) =~= model);
    }
}

/// A model gets its air exactly where its first layer is deeper than a metre and faster than ten
/// metres a second in compression.
pub proof fn air_goes_where_there_is_none(model: Seq<InputLayer>)
    requires
        model.len() > 0,
    ensures
        ({
            let metre = Single(0x3a83_126f);
            let slow = Double(0x3f84_7ae1_47ae_147b);
            &&& reals::is_nearest_single(metre, 1, 1000)
            &&& reals::is_nearest_double(slow, 1, 100)
            &&& with_air(model).len() == model.len() + 1 <==> metre.below(model[0].depth_km)
                && slow.below(model[0].vp_km_s)
            &&& with_air(model).len() == model.len() <==> with_air(model) == model
        }),
{
    lemma2_to64();
    lemma2_to64_rest();
}

/// The air layer is a tenth of a metre thick, and its speeds are, as a single has them, one metre
/// a second and half of that.
pub proof fn air_numbers_are_round()
    ensures
        reals::is_nearest_single(Single(AIR_THICKNESS_KM), 1, 10_000),
        reals::is_nearest_single(Single(0x3a83_126f), 1, 1000),
        reals::same_number(Single(0x3a83_126f), Double(AIR_VP_KM_S)),
        reals::is_nearest_single(Single(0x3a03_126f), 1, 2000),
        reals::same_number(Single(0x3a03_126f), Double(AIR_VSH_KM_S)),
{
    lemma2_to64();
    lemma2_to64_rest();
    assert(reals::single_parts(Single(0x3a83126f)) == (8589935nat, -33int));
    assert(reals::double_parts(Double(AIR_VP_KM_S)) == (4611686237470720nat, -62int));
    assert(8589935 * pow2(29) == 4611686237470720) by {
        assert(pow2(29) == 536870912);
    }
    assert(reals::single_parts(Single(0x3a03126f)) == (8589935nat, -34int));
    assert(reals::double_parts(Double(AIR_VSH_KM_S)) == (4611686237470720nat, -63int));
    assert(8589935 * pow2(29) == 4611686237470720) by {
        assert(pow2(29) == 536870912);
    }
}

/// A source lies in its layer: below the base of every layer above it, and no deeper than its
/// own base, unless it is deeper than all of them. A source on a base lies in the layer above
/// that base.
pub proof fn a_source_lies_in_its_layer(model: Seq<Layer>, depth_km: Double)
    requires
        model.len() > 0,
        depth_km.ordered(),
        forall|i: int| 0 <= i < model.len() ==> (#[trigger] model[i]).depth_km.ordered(),
    ensures
        ({
            let at = containing(model, depth_km);
            &&& 0 <= at < model.len()
            &&& forall|i: int| 0 <= i < at ==> (#[trigger] model[i]).depth_km.below(depth_km)
            &&& depth_km.at_most(model[at].depth_km) || (at == model.len() - 1
                && model[at].depth_km.below(depth_km))
        }),
{
    first_reaching_is_first(model, depth_km, 0);
    let at = containing(model, depth_km);
    assert forall|i: int| 0 <= i < at implies (#[trigger] model[i]).depth_km.below(depth_km) by {
        assert(!depth_km.at_most(model[i].depth_km));
    }
}

} // verus!
