//! Ray topology: which layers a ray crosses, in which direction, and how often.
//!
//! A ray is a list of segments, one layer each. The list is laid out from the ray's shape and
//! the model's half-space marker; everything the travel-time integrals then need of it (how
//! often each layer is crossed in which mode, where the ray turns, how deep it goes, which part
//! of the two end layers it does not travel) follows from the list alone.

use vstd::arithmetic::power2::*;
use vstd::prelude::*;

use crate::reals;
use crate::reals::{Double, Single};
use crate::velocity::Layer;

verus! {

// ---------------------------------------------------------------------------
// Ray codes
// ---------------------------------------------------------------------------

/// One requested ray path.
#[derive(Clone, Copy, Debug, PartialEq, Eq, Structural)]
pub enum RayType {
    /// Not traced: a straight line from subfault to station, with a nominal medium.
    StraightLine,
    /// Traced through the layered model.
    Traced(RayShape),
}

/// The topology of a traced ray.
#[derive(Clone, Copy, Debug, PartialEq, Eq, Structural)]
pub enum RayShape {
    /// Leaves the source upward, then bounces off the Moho `multiples` extra times.
    Upgoing { multiples: u32 },
    /// Leaves the source downward and reflects off the Moho, then bounces `multiples` extra
    /// times.
    DownToMoho { multiples: u32 },
}

/// Take-off direction from the source.
#[derive(Clone, Copy, Debug, PartialEq, Eq, Structural)]
pub enum Takeoff {
    /// The ray leaves the source upward.
    Up,
    /// Down to the Moho, then back up.
    Down,
}

/// The code of a traced ray: odd leaves upward, even downward, and each further pair adds one
/// Moho multiple.
pub open spec fn code_of(shape: RayShape) -> int {
    match shape {
        RayShape::Upgoing { multiples } => 2 * multiples + 1,
        RayShape::DownToMoho { multiples } => 2 * multiples + 2,
    }
}

impl RayType {
    /// Decode a ray code: zero is the straight line, a positive code a traced ray. A negative
    /// code names nothing.
    pub fn from_code(code: i32) -> (r: Option<Self>)
        ensures
            code == 0 ==> r == Some(RayType::StraightLine),
            code > 0 ==> (r matches Some(RayType::Traced(shape)) && code_of(shape) == code),
            code < 0 ==> r is None,
    {
        if code == 0 {
            Some(RayType::StraightLine)
        } else {
            match RayShape::from_code(code) {
                Some(shape) => Some(RayType::Traced(shape)),
                None => None,
            }
        }
    }
}

impl RayShape {
    /// Decode the code of a traced ray. Zero and the negative codes name none.
    pub fn from_code(code: i32) -> (r: Option<Self>)
        ensures
            code > 0 ==> r is Some && code_of(r->0) == code,
            code <= 0 ==> r is None,
    {
        if code <= 0 {
            return None;
        }
        let code: u32 = code as u32;
        Some(
            if code % 2 == 1 {
                RayShape::Upgoing { multiples: (code - 1) / 2 }
            } else {
                RayShape::DownToMoho { multiples: (code - 2) / 2 }
            },
        )
    }

    /// Which way the ray leaves the source.
    pub open spec fn leaves(self) -> Takeoff {
        match self {
            RayShape::Upgoing { .. } => Takeoff::Up,
            RayShape::DownToMoho { .. } => Takeoff::Down,
        }
    }

    /// Which way the ray leaves the source.
    pub fn takeoff(self) -> (t: Takeoff)
        ensures
            t == self.leaves(),
    {
        match self {
            RayShape::Upgoing { .. } => Takeoff::Up,
            RayShape::DownToMoho { .. } => Takeoff::Down,
        }
    }
}

impl Takeoff {
    /// The take-off direction of a ray code: odd is up, even down.
    pub fn from_ray_type(ray_type: i32) -> (t: Self)
        requires
            ray_type >= 0,
        ensures
            t == if ray_type % 2 == 1 {
                Takeoff::Up
            } else {
                Takeoff::Down
            },
    {
        if ray_type % 2 == 1 {
            Takeoff::Up
        } else {
            Takeoff::Down
        }
    }
}

/// A ray code is no less than its shape: two shapes with one code are the same, so decoding
/// loses nothing, and the parity of the code is the take-off direction of the shape.
pub proof fn codes_name_shapes(a: RayShape, b: RayShape)
    ensures
        code_of(a) == code_of(b) <==> a == b,
        code_of(a) > 0,
        (code_of(a) % 2 == 1) == (a.leaves() == Takeoff::Up),
{
}

/// How a ray code of the parameter deck is taken.
#[derive(Clone, Copy, Debug, PartialEq, Eq, Structural)]
pub enum RayKind {
    /// Zero: a straight line.
    StraightRay,
    /// Odd and positive: the ray leaves the source upward.
    Upgoing,
    /// Any other: the ray leaves the source downward.
    Downgoing,
}

impl RayKind {
    /// The kind of a code.
    pub open spec fn named(code: int) -> RayKind {
        if code == 0 {
            RayKind::StraightRay
        } else if code > 0 && code % 2 == 1 {
            RayKind::Upgoing
        } else {
            RayKind::Downgoing
        }
    }

    /// The kind of a code.
    pub fn of(code: i32) -> (k: Self)
        ensures
            k == RayKind::named(code as int),
    {
        if code == 0 {
            RayKind::StraightRay
        } else if code > 0 && code % 2 == 1 {
            RayKind::Upgoing
        } else {
            RayKind::Downgoing
        }
    }

    /// The code to trace with. A straight line is traced too, as the direct ray, although
    /// nothing but the ray parameter is taken from that.
    pub fn trace_type(self, code: i32) -> (t: i32)
        ensures
            t == if self == RayKind::StraightRay {
                1
            } else {
                code
            },
    {
        match self {
            RayKind::StraightRay => 1,
            _ => code,
        }
    }
}

/// The kind of a code agrees with the ray that the code names.
pub proof fn kinds_agree_with_rays(code: int, shape: RayShape)
    requires
        code_of(shape) == code,
    ensures
        RayKind::named(code) == match shape.leaves() {
            Takeoff::Up => RayKind::Upgoing,
            Takeoff::Down => RayKind::Downgoing,
        },
{
}

// ---------------------------------------------------------------------------
// The ray state
// ---------------------------------------------------------------------------

/// Wave mode of a ray segment.
#[derive(Clone, Copy, Debug, PartialEq, Eq, Structural)]
pub enum WaveMode {
    /// Vertically polarised shear.
    Sv,
    /// Horizontally polarised shear.
    Sh,
    /// Compressional.
    P,
}

impl WaveMode {
    /// `Sv` and `Sh`.
    pub open spec fn shear(self) -> bool {
        self is Sv || self is Sh
    }

    /// True for `Sv` and `Sh`.
    pub fn is_shear(self) -> (b: bool)
        ensures
            b == self.shear(),
    {
        match self {
            WaveMode::Sv => true,
            WaveMode::Sh => true,
            WaveMode::P => false,
        }
    }

    /// The number that a mode is stored as.
    pub open spec fn number(self) -> int {
        match self {
            WaveMode::Sv => 3,
            WaveMode::Sh => 4,
            WaveMode::P => 5,
        }
    }

    /// The mode that is stored as `v`.
    pub fn from_fortran(v: i32) -> (m: Self)
        requires
            3 <= v <= 5,
        ensures
            m.number() == v,
    {
        if v == 3 {
            WaveMode::Sv
        } else if v == 4 {
            WaveMode::Sh
        } else {
            WaveMode::P
        }
    }

    /// The number that this mode is stored as.
    pub fn as_fortran(self) -> (v: i32)
        ensures
            v == self.number(),
    {
        match self {
            WaveMode::Sv => 3,
            WaveMode::Sh => 4,
            WaveMode::P => 5,
        }
    }
}

/// Every mode comes back from the number it is stored as, and no other mode has that number.
pub proof fn modes_survive_storage(a: WaveMode, b: WaveMode)
    ensures
        3 <= a.number() <= 5,
        a.number() == b.number() <==> a == b,
{
}

impl Default for WaveMode {
    fn default() -> (m: Self)
        ensures
            m == WaveMode::Sh,
    {
        WaveMode::Sh
    }
}

/// What happens at the interface after a ray segment.
#[derive(Clone, Copy, Debug, PartialEq, Eq, Structural)]
pub enum Interaction {
    /// The ray passes into the next layer.
    Transmission,
    /// The ray reflects, and the next segment goes the other way.
    Reflection,
    /// The ray has a single segment.
    Direct,
}

impl Default for Interaction {
    fn default() -> (i: Self)
        ensures
            i == Interaction::Transmission,
    {
        Interaction::Transmission
    }
}

/// Direction a ray segment travels.
#[derive(Clone, Copy, Debug, PartialEq, Eq, Structural)]
pub enum Direction {
    Up,
    Down,
}

impl Default for Direction {
    fn default() -> (d: Self)
        ensures
            d == Direction::Up,
    {
        Direction::Up
    }
}

impl Direction {
    /// Up for an even number, down for an odd one.
    pub open spec fn of_parity(crossings: int) -> Direction {
        if crossings % 2 == 0 {
            Direction::Up
        } else {
            Direction::Down
        }
    }

    /// The other direction.
    pub open spec fn turned(self) -> Direction {
        match self {
            Direction::Up => Direction::Down,
            Direction::Down => Direction::Up,
        }
    }

    /// Up for an even number of crossings, down for an odd one.
    pub fn from_parity(crossings: i32) -> (d: Self)
        ensures
            d == Direction::of_parity(crossings as int),
    {
        if crossings % 2 == 0 {
            Direction::Up
        } else {
            Direction::Down
        }
    }

    /// The other direction.
    pub fn flipped(self) -> (d: Self)
        ensures
            d == self.turned(),
    {
        match self {
            Direction::Up => Direction::Down,
            Direction::Down => Direction::Up,
        }
    }
}

/// Turning twice is not turning, and one more crossing is one more turn.
pub proof fn two_turns_cancel(d: Direction, crossings: int)
    ensures
        d.turned().turned() == d,
        d.turned() != d,
        Direction::of_parity(crossings + 1) == Direction::of_parity(crossings).turned(),
{
}

/// The segments of a ray.
#[derive(Debug)]
pub struct Rays {
    /// The layer of each segment.
    pub layer_indices: Vec<usize>,
    /// The wave mode of each segment.
    pub wave_modes: Vec<WaveMode>,
    /// Ray degeneracy; a negative one means that the ray goes up.
    pub degeneracy: i32,
}

impl Rays {
    /// Number of segments in the ray.
    pub fn segment_count(&self) -> (n: usize)
        ensures
            n == self.layer_indices.len(),
    {
        self.layer_indices.len()
    }
}

impl Default for Rays {
    fn default() -> (r: Self)
        ensures
            r.layer_indices.len() == 0,
            r.wave_modes.len() == 0,
            r.degeneracy == 0,
    {
        Rays { layer_indices: Vec::new(), wave_modes: Vec::new(), degeneracy: 0 }
    }
}

/// How often the ray crosses each layer.
#[derive(Debug)]
pub struct Travel {
    /// P crossings, one entry per layer of the model.
    pub p_traversals: Vec<usize>,
    /// S crossings, one entry per layer of the model.
    pub s_traversals: Vec<usize>,
    /// Deepest layer the ray enters. The integrals run over `0..=deepest_layer`.
    pub deepest_layer: usize,
}

impl Travel {
    /// One zero entry per layer, so that nothing carries over from the previous ray.
    pub fn reset_for(&mut self, layer_count: usize)
        ensures
            final(self).p_traversals@ == Seq::new(layer_count as nat, |i: int| 0usize),
            final(self).s_traversals@ == Seq::new(layer_count as nat, |i: int| 0usize),
            final(self).deepest_layer == old(self).deepest_layer,
    {
        self.p_traversals.clear();
        self.p_traversals.resize(layer_count, 0);
        self.s_traversals.clear();
        self.s_traversals.resize(layer_count, 0);
    }
}

impl Default for Travel {
    fn default() -> (t: Self)
        ensures
            t.p_traversals.len() == 0,
            t.s_traversals.len() == 0,
            t.deepest_layer == 0,
    {
        Travel { p_traversals: Vec::new(), s_traversals: Vec::new(), deepest_layer: 0 }
    }
}

/// What happens after each segment, and which way each goes.
#[derive(Debug)]
pub struct Coefficients {
    pub interactions: Vec<Interaction>,
    pub directions: Vec<Direction>,
}

impl Coefficients {
    /// One default entry per segment.
    pub fn reset_for(&mut self, segment_count: usize)
        ensures
            final(self).interactions@ == Seq::new(
                segment_count as nat,
                |i: int| Interaction::Transmission,
            ),
            final(self).directions@ == Seq::new(segment_count as nat, |i: int| Direction::Up),
    {
        self.interactions.clear();
        self.interactions.resize(segment_count, Interaction::Transmission);
        self.directions.clear();
        self.directions.resize(segment_count, Direction::Up);
    }
}

impl Default for Coefficients {
    fn default() -> (c: Self)
        ensures
            c.interactions.len() == 0,
            c.directions.len() == 0,
    {
        Coefficients { interactions: Vec::new(), directions: Vec::new() }
    }
}

/// The whole of what is known of one ray.
#[derive(Debug)]
pub struct RayState {
    pub rays: Rays,
    pub travel: Travel,
    pub coefficients: Coefficients,
}

impl Default for RayState {
    fn default() -> (s: Self)
        ensures
            s.rays.layer_indices.len() == 0,
            s.rays.wave_modes.len() == 0,
            s.rays.degeneracy == 0,
            s.travel.p_traversals.len() == 0,
            s.travel.s_traversals.len() == 0,
            s.travel.deepest_layer == 0,
            s.coefficients.interactions.len() == 0,
            s.coefficients.directions.len() == 0,
    {
        RayState {
            rays: Rays::default(),
            travel: Travel::default(),
            coefficients: Coefficients::default(),
        }
    }
}

// ---------------------------------------------------------------------------
// Placing the source
// ---------------------------------------------------------------------------

/// The bit pattern of 0.02 km, as a single holds it: how far a source is kept from an interface.
pub const INTERFACE_CLEARANCE_KM: u64 = 0x3f94_7ae1_4000_0000;

/// Where a source lies beside the base of a layer.
#[derive(Clone, Copy, Debug, PartialEq, Eq, Structural)]
pub enum Beside {
    /// Above it: the source is in the layer, pulled up where it is too near.
    Within { pull_up: bool },
    /// Below it: the source is deeper, pushed down where it is too near.
    Deeper { push_down: bool },
}

/// Where a source at `depth_km` lies beside an interface, `gap_km` being the distance between
/// them.
pub open spec fn beside(depth_km: Double, interface_km: Double, gap_km: Double) -> Beside {
    let near = gap_km.below(Double(INTERFACE_CLEARANCE_KM));
    if depth_km.below(interface_km) {
        Beside::Within { pull_up: near }
    } else {
        Beside::Deeper { push_down: interface_km.at_most(depth_km) && near }
    }
}

/// Where a source at `depth_km` lies beside an interface, `gap_km` being the distance between
/// them. A source on the interface is below it. A depth that is no number is below every one.
pub fn beside_interface(depth_km: Double, interface_km: Double, gap_km: Double) -> (r: Beside)
    ensures
        r == beside(depth_km, interface_km, gap_km),
{
    let near: bool = gap_km.is_below(Double(INTERFACE_CLEARANCE_KM));
    if depth_km.is_below(interface_km) {
        Beside::Within { pull_up: near }
    } else {
        Beside::Deeper { push_down: interface_km.is_at_most(depth_km) && near }
    }
}

/// Whether a layer has thickness.
pub open spec fn has_thickness(layer: Layer) -> bool {
    Double(0).below(layer.thickness_km)
}

/// The deepest layer that a source can be placed in: the last that has thickness. The half-space
/// has none. The first layer stands in where no layer has any.
pub fn deepest_with_thickness(model: &Vec<Layer>) -> (deepest: usize)
    ensures
        has_thickness(model@[deepest as int]) && deepest < model.len() || deepest == 0,
        forall|i: int| deepest < i < model.len() ==> !has_thickness(#[trigger] model@[i]),
{
    let mut i: usize = model.len();
    while i > 0
        invariant
            i <= model.len(),
            forall|j: int| i <= j < model.len() ==> !has_thickness(#[trigger] model@[j]),
        decreases i,
    {
        i -= 1;
        if Double(0).is_below(model[i].thickness_km) {
            return i;
        }
    }
    0
}

// ---------------------------------------------------------------------------
// Laying out the segments
// ---------------------------------------------------------------------------

/// The layer that the receiver sits in: the first below the air.
pub const RECEIVER_LAYER: usize = 1;

/// `from`, then every shallower layer down to index `to`.
pub open spec fn ascent(from: int, to: int) -> Seq<usize> {
    Seq::new((if from >= to { from - to + 1 } else { 0 }) as nat, |i: int| (from - i) as usize)
}

/// `from`, then every deeper layer up to index `to`.
pub open spec fn descent(from: int, to: int) -> Seq<usize> {
    Seq::new((if to >= from { to - from + 1 } else { 0 }) as nat, |i: int| (from + i) as usize)
}

/// Whether a layer has no thickness, as the half-space does.
pub open spec fn no_thickness(layer: Layer) -> bool {
    layer.thickness_km.same(Double(0))
}

/// The layer that a descent from `from` turns in: the first with a layer without thickness below
/// it, or the bottom layer.
pub open spec fn turning(model: Seq<Layer>, from: int) -> int
    decreases model.len() - from,
{
    if from >= model.len() - 1 || no_thickness(model[from + 1]) {
        from
    } else {
        turning(model, from + 1)
    }
}

/// The segments of a descent from `from`. The bottom layer is turned in, not crossed downward.
pub open spec fn down_to_moho(model: Seq<Layer>, from: int) -> Seq<usize> {
    let t = turning(model, from);
    descent(from, if t < model.len() - 1 { t } else { model.len() - 2 })
}

/// One Moho bounce from the receiver layer and back to it.
pub open spec fn bounce(model: Seq<Layer>) -> Seq<usize> {
    down_to_moho(model, RECEIVER_LAYER as int) + ascent(
        turning(model, RECEIVER_LAYER as int),
        RECEIVER_LAYER as int,
    )
}

/// `n` bounces.
pub open spec fn bounces(model: Seq<Layer>, n: nat) -> Seq<usize>
    decreases n,
{
    if n == 0 {
        Seq::empty()
    } else {
        bounces(model, (n - 1) as nat) + bounce(model)
    }
}

/// The layers that a ray of `shape` crosses from a source in `source_layer`, in order.
pub open spec fn laid_out(model: Seq<Layer>, shape: RayShape, source_layer: int) -> Seq<usize> {
    match shape {
        RayShape::Upgoing { multiples } => ascent(source_layer, RECEIVER_LAYER as int) + bounces(
            model,
            multiples as nat,
        ),
        RayShape::DownToMoho { multiples } => down_to_moho(model, source_layer) + ascent(
            turning(model, source_layer),
            RECEIVER_LAYER as int,
        ) + bounces(model, multiples as nat),
    }
}

/// Where a descent turns.
proof fn turning_is_in_the_model(model: Seq<Layer>, from: int)
    requires
        0 <= from < model.len(),
    ensures
        from <= turning(model, from) < model.len(),
        forall|i: int| from <= i < turning(model, from) ==> !no_thickness(#[trigger] model[i + 1]),
        turning(model, from) < model.len() - 1 ==> no_thickness(model[turning(model, from) + 1]),
    decreases model.len() - from,
{
    if from < model.len() - 1 && !no_thickness(model[from + 1]) {
        turning_is_in_the_model(model, from + 1);
        assert forall|i: int| from <= i < turning(model, from) implies !no_thickness(
            #[trigger] model[i + 1],
        ) by {
            if i > from {
                assert(!no_thickness(model[i + 1]));
            }
        }
    }
}

impl Rays {
    /// Whether these are the segments `layers`, all in `mode`.
    pub open spec fn are(self, layers: Seq<usize>, mode: WaveMode) -> bool {
        &&& self.layer_indices@ =~= layers
        &&& self.wave_modes@ =~= Seq::new(layers.len(), |i: int| mode)
    }

    /// Append one segment.
    fn push(&mut self, layer: usize, mode: WaveMode)
        ensures
            final(self).layer_indices@ == old(self).layer_indices@.push(layer),
            final(self).wave_modes@ == old(self).wave_modes@.push(mode),
            final(self).degeneracy == old(self).degeneracy,
    {
        self.layer_indices.push(layer);
        self.wave_modes.push(mode);
    }

    /// Segments from `from` up to `receiver`, shallowing.
    fn ascend_to(&mut self, from: usize, receiver: usize, mode: WaveMode)
        requires
            old(self).are(old(self).layer_indices@, mode),
        ensures
            final(self).are(
                old(self).layer_indices@ + ascent(from as int, receiver as int),
                mode,
            ),
            final(self).degeneracy == old(self).degeneracy,
    {
        let ghost had = self.layer_indices@;
        let ghost all = ascent(from as int, receiver as int);
        let mut left: usize = if from >= receiver { from - receiver } else { 0 };
        if from < receiver {
            assert(had + all == had);
            return;
        }
        let mut layer: usize = from;
        assert(had + all.take(0) == had);
        loop
            invariant_except_break
                self.are(had + all.take(from - layer), mode),
            invariant
                from >= receiver,
                layer == receiver + left,
                layer <= from,
                all == ascent(from as int, receiver as int),
                self.degeneracy == old(self).degeneracy,
            ensures
                self.are(had + all, mode),
            decreases left,
        {
            proof {
                assert(all.take(from - layer + 1) == all.take(from - layer).push(layer));
                assert((had + all.take(from - layer)).push(layer) == had + all.take(
                    from - layer + 1,
                ));
            }
            self.push(layer, mode);
            if left == 0 {
                assert(all.take(from - layer + 1) == all);
                break;
            }
            layer -= 1;
            left -= 1;
        }
    }

    /// Segments from `from` down to the layer that the ray turns in, which is returned.
    fn descend_to_moho(&mut self, model: &Vec<Layer>, from: usize, mode: WaveMode) -> (t: usize)
        requires
            old(self).are(old(self).layer_indices@, mode),
            from < model.len(),
            model.len() >= 2,
        ensures
            t == turning(model@, from as int),
            t < model.len(),
            final(self).are(
                old(self).layer_indices@ + down_to_moho(model@, from as int),
                mode,
            ),
            final(self).degeneracy == old(self).degeneracy,
    {
        let bottom: usize = model.len() - 1;
        let ghost had = self.layer_indices@;
        let mut layer: usize = from;
        assert(had + descent(from as int, from - 1) == had);
        while layer < bottom
            invariant
                bottom == model.len() - 1,
                from <= layer <= bottom,
                turning(model@, from as int) == turning(model@, layer as int),
                self.are(had + descent(from as int, layer - 1), mode),
                self.degeneracy == old(self).degeneracy,
                had == old(self).layer_indices@,
            decreases bottom - layer,
        {
            proof {
                assert(descent(from as int, layer as int) == descent(from as int, layer - 1).push(
                    layer,
                ));
                assert((had + descent(from as int, layer - 1)).push(layer) == had + descent(
                    from as int,
                    layer as int,
                ));
            }
            self.push(layer, mode);
            if model[layer + 1].thickness_km.equals(Double(0)) {
                return layer;
            }
            layer += 1;
        }
        proof {
            if from == bottom {
                assert(descent(from as int, from - 1) == descent(from as int, model.len() - 2));
            }
        }
        layer
    }

    /// One bounce off the Moho, from the receiver layer and back.
    fn moho_multiple(&mut self, model: &Vec<Layer>, mode: WaveMode)
        requires
            old(self).are(old(self).layer_indices@, mode),
            model.len() >= 2,
        ensures
            final(self).are(old(self).layer_indices@ + bounce(model@), mode),
            final(self).degeneracy == old(self).degeneracy,
    {
        let ghost had = self.layer_indices@;
        let t = self.descend_to_moho(model, RECEIVER_LAYER, mode);
        self.ascend_to(t, RECEIVER_LAYER, mode);
        assert(had + down_to_moho(model@, RECEIVER_LAYER as int) + ascent(
            t as int,
            RECEIVER_LAYER as int,
        ) == had + bounce(model@));
    }

    /// Lay out a ray of `shape` in `mode` from a source in `source_layer`, in place of what was
    /// there.
    pub fn lay_out(
        &mut self,
        model: &Vec<Layer>,
        shape: RayShape,
        source_layer: usize,
        mode: WaveMode,
    )
        requires
            model.len() >= 2,
            source_layer < model.len(),
        ensures
            final(self).are(laid_out(model@, shape, source_layer as int), mode),
            final(self).degeneracy == 1,
    {
        self.degeneracy = 1;
        self.layer_indices.clear();
        self.wave_modes.clear();
        let multiples: u32 = match shape {
            RayShape::Upgoing { multiples } => {
                self.ascend_to(source_layer, RECEIVER_LAYER, mode);
                multiples
            },
            RayShape::DownToMoho { multiples } => {
                let t = self.descend_to_moho(model, source_layer, mode);
                self.ascend_to(t, RECEIVER_LAYER, mode);
                multiples
            },
        };
        let ghost first = self.layer_indices@;
        assert(first + bounces(model@, 0) == first);
        let mut i: u32 = 0;
        while i < multiples
            invariant
                i <= multiples,
                model.len() >= 2,
                self.are(first + bounces(model@, i as nat), mode),
                self.degeneracy == 1,
            decreases multiples - i,
        {
            self.moho_multiple(model, mode);
            assert(first + bounces(model@, i as nat) + bounce(model@) == first + bounces(
                model@,
                (i + 1) as nat,
            ));
            i += 1;
        }
        assert(self.layer_indices@ == laid_out(model@, shape, source_layer as int));
    }
}

// ---------------------------------------------------------------------------
// What follows from the segments
// ---------------------------------------------------------------------------

/// The part of an end layer, seen from the end point.
#[derive(Clone, Copy, Debug, PartialEq, Eq, Structural)]
pub enum Share {
    /// The part above the point.
    Above,
    /// The part below the point.
    Below,
}

/// What an end point takes off a layer's crossings: the share of the layer that the ray does not
/// travel, off the S crossings or the P crossings.
#[derive(Clone, Copy, Debug, PartialEq, Eq, Structural)]
pub struct Trim {
    pub layer: usize,
    pub shear: bool,
    pub share: Share,
}

/// The trims at both ends of a ray.
#[derive(Clone, Copy, Debug, PartialEq, Eq, Structural)]
pub struct EndTrims {
    pub receiver: Trim,
    pub source: Trim,
}

/// How many segments cross `layer` in a shear mode, or in another.
pub open spec fn crossings(
    layers: Seq<usize>,
    modes: Seq<WaveMode>,
    layer: int,
    shear: bool,
) -> nat
    decreases layers.len(),
{
    if layers.len() == 0 {
        0
    } else {
        crossings(layers.drop_last(), modes, layer, shear) + if layers.last() == layer
            && modes[layers.len() - 1].shear() == shear {
            1nat
        } else {
            0nat
        }
    }
}

/// How many segments are in `layer`.
pub open spec fn visits(layers: Seq<usize>, layer: int) -> nat
    decreases layers.len(),
{
    if layers.len() == 0 {
        0
    } else {
        visits(layers.drop_last(), layer) + if layers.last() == layer {
            1nat
        } else {
            0nat
        }
    }
}

/// Which way a ray leaves its source.
///
/// The parity of the visits to the source layer decides, seen from below where the receiver is
/// deeper. A negative degeneracy overrides that, and so does a single-segment ray whose receiver
/// is no shallower than its source.
pub open spec fn departure(rays: Rays, receiver_km: Double, source_km: Double) -> Direction {
    let layers = rays.layer_indices@;
    let by_parity = Direction::of_parity((1 + visits(layers, layers[0] as int)) as int);
    if layers.len() == 1 && source_km.at_most(receiver_km) {
        Direction::Down
    } else if rays.degeneracy < 0 {
        Direction::Up
    } else if layers.last() > layers[0] {
        by_parity.turned()
    } else {
        by_parity
    }
}

/// Which way segment `i` goes on a ray that starts out as `start`: two segments in one layer are
/// a turn between them.
pub open spec fn direction_at(layers: Seq<usize>, start: Direction, i: int) -> Direction
    decreases i,
{
    if i <= 0 {
        start
    } else if layers[i] == layers[i - 1] {
        direction_at(layers, start, i - 1).turned()
    } else {
        direction_at(layers, start, i - 1)
    }
}

/// What happens after segment `i`.
pub open spec fn interaction_at(layers: Seq<usize>, i: int) -> Interaction {
    if layers.len() == 1 {
        Interaction::Direct
    } else if i + 1 < layers.len() && layers[i + 1] == layers[i] {
        Interaction::Reflection
    } else {
        Interaction::Transmission
    }
}

/// The trim at the receiver. Its share is the one that the last segment goes toward.
pub open spec fn receiver_trim(rays: Rays, last: Direction) -> Trim {
    Trim {
        layer: rays.layer_indices@.last(),
        shear: rays.wave_modes@.last().shear(),
        share: match last {
            Direction::Up => Share::Above,
            Direction::Down => Share::Below,
        },
    }
}

/// The trim at the source. Its share is the one that the first segment leaves behind.
pub open spec fn source_trim(rays: Rays, first: Direction) -> Trim {
    Trim {
        layer: rays.layer_indices@[0],
        shear: rays.wave_modes@[0].shear(),
        share: match first {
            Direction::Up => Share::Below,
            Direction::Down => Share::Above,
        },
    }
}

/// Derive a ray's crossings, turns and directions from its segments.
///
/// What is left to the caller is the trims: each takes the given share of the given layer off
/// that layer's crossings, the receiver's first.
pub fn build_ray_path(
    state: &mut RayState,
    layer_count: usize,
    source_depth_km: Double,
    receiver_depth_km: Double,
) -> (trims: EndTrims)
    requires
        old(state).rays.layer_indices.len() >= 1,
        old(state).rays.wave_modes.len() == old(state).rays.layer_indices.len(),
        forall|i: int|
            0 <= i < old(state).rays.layer_indices.len() ==> (#[trigger] old(state).rays.layer_indices@[i]) < layer_count,
    ensures
        final(state).rays == old(state).rays,
        ({
            let rays = old(state).rays;
            let layers = rays.layer_indices@;
            let start = departure(rays, receiver_depth_km, source_depth_km);
            &&& final(state).travel.p_traversals.len() == layer_count
            &&& final(state).travel.s_traversals.len() == layer_count
            &&& forall|l: int|
                0 <= l < layer_count ==> #[trigger] final(state).travel.p_traversals@[l]
                    == crossings(layers, rays.wave_modes@, l, false)
            &&& forall|l: int|
                0 <= l < layer_count ==> #[trigger] final(state).travel.s_traversals@[l]
                    == crossings(layers, rays.wave_modes@, l, true)
            &&& forall|l: int|
                0 <= l < layer_count ==> #[trigger] final(state).travel.p_traversals@[l]
                    == segments_in(layers, rays.wave_modes@, l, false).len()
            &&& forall|l: int|
                0 <= l < layer_count ==> #[trigger] final(state).travel.s_traversals@[l]
                    == segments_in(layers, rays.wave_modes@, l, true).len()
            &&& layers.contains(final(state).travel.deepest_layer)
            &&& forall|i: int|
                0 <= i < layers.len() ==> #[trigger] layers[i] <= final(state).travel.deepest_layer
            &&& final(state).coefficients.directions@ == Seq::new(
                layers.len(),
                |i: int| direction_at(layers, start, i),
            )
            &&& final(state).coefficients.interactions@ == Seq::new(
                layers.len(),
                |i: int| interaction_at(layers, i),
            )
            &&& trims.receiver == receiver_trim(
                rays,
                direction_at(layers, start, layers.len() - 1),
            )
            &&& trims.source == source_trim(rays, start)
        }),
{
    let n: usize = state.rays.segment_count();
    let ghost rays = state.rays;
    let ghost layers = rays.layer_indices@;
    let ghost modes = rays.wave_modes@;
    state.travel.reset_for(layer_count);
    state.coefficients.reset_for(n);

    let source_layer: usize = state.rays.layer_indices[0];
    let receiver_layer: usize = state.rays.layer_indices[n - 1];
    let mut even_visits: bool = true;
    let mut deepest: usize = source_layer;
    let mut i: usize = 0;
    assert(layers.take(0) == Seq::<usize>::empty());
    while i < n
        invariant
            i <= n,
            n == layers.len(),
            state.rays == rays,
            layers == rays.layer_indices@,
            modes == rays.wave_modes@,
            modes.len() == n,
            n >= 1,
            source_layer == layers[0],
            forall|j: int| 0 <= j < n ==> (#[trigger] layers[j]) < layer_count,
            state.travel.p_traversals.len() == layer_count,
            state.travel.s_traversals.len() == layer_count,
            forall|l: int|
                0 <= l < layer_count ==> #[trigger] state.travel.p_traversals@[l] == crossings(
                    layers.take(i as int),
                    modes,
                    l,
                    false,
                ),
            forall|l: int|
                0 <= l < layer_count ==> #[trigger] state.travel.s_traversals@[l] == crossings(
                    layers.take(i as int),
                    modes,
                    l,
                    true,
                ),
            forall|l: int|
                0 <= l < layer_count ==> #[trigger] state.travel.p_traversals@[l] <= i,
            forall|l: int|
                0 <= l < layer_count ==> #[trigger] state.travel.s_traversals@[l] <= i,
            even_visits == (visits(layers.take(i as int), source_layer as int) % 2 == 0),
            layers.contains(deepest),
            forall|j: int| 0 <= j < i ==> #[trigger] layers[j] <= deepest,
            state.coefficients.interactions@ == Seq::new(
                n as nat,
                |j: int| Interaction::Transmission,
            ),
            state.coefficients.directions@ == Seq::new(n as nat, |j: int| Direction::Up),
        decreases n - i,
    {
        let layer: usize = state.rays.layer_indices[i];
        let mode: WaveMode = state.rays.wave_modes[i];
        proof {
            assert(layers.take(i + 1).drop_last() == layers.take(i as int));
            assert(layers.take(i + 1).last() == layers[i as int]);
        }
        if mode.is_shear() {
            let c: usize = state.travel.s_traversals[layer];
            state.travel.s_traversals.set(layer, c + 1);
        } else {
            let c: usize = state.travel.p_traversals[layer];
            state.travel.p_traversals.set(layer, c + 1);
        }
        if layer == source_layer {
            even_visits = !even_visits;
        }
        if layer > deepest {
            deepest = layer;
        }
        i += 1;
    }
    assert(layers.take(n as int) == layers);
    proof {
        assert forall|l: int| 0 <= l < layer_count implies #[trigger] state.travel.p_traversals@[l]
            == segments_in(layers, modes, l, false).len() by {
            crossings_are_segments(layers, modes, l, false);
        }
        assert forall|l: int| 0 <= l < layer_count implies #[trigger] state.travel.s_traversals@[l]
            == segments_in(layers, modes, l, true).len() by {
            crossings_are_segments(layers, modes, l, true);
        }
    }
    state.travel.deepest_layer = deepest;

    let mut start: Direction = Direction::from_parity(if even_visits { 1 } else { 0 });
    if receiver_layer > source_layer {
        start = start.flipped();
    }
    if state.rays.degeneracy < 0 {
        start = Direction::Up;
    }
    if n == 1 && source_depth_km.is_at_most(receiver_depth_km) {
        start = Direction::Down;
    }
    assert(start == departure(rays, receiver_depth_km, source_depth_km));

    state.coefficients.directions.set(0, start);
    if n == 1 {
        state.coefficients.interactions.set(0, Interaction::Direct);
    }
    let ghost travel = state.travel;
    let mut k: usize = 0;
    while k < n - 1
        invariant
            n >= 1,
            n == layers.len(),
            k <= n - 1,
            state.rays == rays,
            state.travel == travel,
            layers == rays.layer_indices@,
            state.coefficients.directions.len() == n,
            state.coefficients.interactions.len() == n,
            n == 1 ==> state.coefficients.interactions@[0] == Interaction::Direct,
            forall|j: int|
                0 <= j <= k ==> #[trigger] state.coefficients.directions@[j] == direction_at(
                    layers,
                    start,
                    j,
                ),
            forall|j: int|
                0 <= j < k ==> #[trigger] state.coefficients.interactions@[j] == interaction_at(
                    layers,
                    j,
                ),
            forall|j: int|
                k <= j < n && n > 1 ==> #[trigger] state.coefficients.interactions@[j]
                    == Interaction::Transmission,
        decreases n - k,
    {
        let turns: bool = state.rays.layer_indices[k + 1] == state.rays.layer_indices[k];
        let d: Direction = state.coefficients.directions[k];
        if turns {
            state.coefficients.interactions.set(k, Interaction::Reflection);
            state.coefficients.directions.set(k + 1, d.flipped());
        } else {
            state.coefficients.interactions.set(k, Interaction::Transmission);
            state.coefficients.directions.set(k + 1, d);
        }
        k += 1;
    }
    assert(state.coefficients.directions@ =~= Seq::new(
        layers.len(),
        |i: int| direction_at(layers, start, i),
    ));
    assert(state.coefficients.interactions@ =~= Seq::new(
        layers.len(),
        |i: int| interaction_at(layers, i),
    ));

    EndTrims {
        receiver: Trim {
            layer: receiver_layer,
            shear: state.rays.wave_modes[n - 1].is_shear(),
            share: match state.coefficients.directions[n - 1] {
                Direction::Up => Share::Above,
                Direction::Down => Share::Below,
            },
        },
        source: Trim {
            layer: source_layer,
            shear: state.rays.wave_modes[0].is_shear(),
            share: match start {
                Direction::Up => Share::Below,
                Direction::Down => Share::Above,
            },
        },
    }
}

// ---------------------------------------------------------------------------
// Laws
// ---------------------------------------------------------------------------

/// Whether a step from layer `a` to layer `b` goes in direction `d`, or is a turn.
pub open spec fn steps_toward(a: usize, b: usize, d: Direction) -> bool {
    ||| b == a
    ||| d is Up && b == a - 1
    ||| d is Down && b == a + 1
}

/// Whether every step of a ray goes the way its segment does.
pub open spec fn follows(layers: Seq<usize>, start: Direction) -> bool {
    forall|i: int|
        0 <= i < layers.len() - 1 ==> steps_toward(
            layers[i],
            layers[i + 1],
            #[trigger] direction_at(layers, start, i),
        )
}

/// The directions of a joined ray: those of its first part, then those of its second.
proof fn directions_join(a: Seq<usize>, b: Seq<usize>, start: Direction, mid: Direction, i: int)
    requires
        a.len() >= 1,
        b.len() >= 1,
        b[0] == a.last(),
        mid == direction_at(a, start, a.len() - 1).turned(),
        0 <= i < (a + b).len(),
    ensures
        i < a.len() ==> direction_at(a + b, start, i) == direction_at(a, start, i),
        i >= a.len() ==> direction_at(a + b, start, i) == direction_at(b, mid, i - a.len()),
    decreases i,
{
    if i > 0 {
        directions_join(a, b, start, mid, i - 1);
        if i < a.len() {
            assert((a + b)[i] == a[i] && (a + b)[i - 1] == a[i - 1]);
        } else if i == a.len() {
            assert((a + b)[i] == b[0] && (a + b)[i - 1] == a.last());
        } else {
            assert((a + b)[i] == b[i - a.len()] && (a + b)[i - 1] == b[i - 1 - a.len()]);
        }
    }
}

/// Two parts that meet in one layer, the second turned, follow their directions together.
proof fn parts_join(a: Seq<usize>, b: Seq<usize>, start: Direction, mid: Direction)
    requires
        a.len() >= 1,
        b.len() >= 1,
        b[0] == a.last(),
        mid == direction_at(a, start, a.len() - 1).turned(),
        follows(a, start),
        follows(b, mid),
    ensures
        follows(a + b, start),
        direction_at(a + b, start, (a + b).len() - 1) == direction_at(b, mid, b.len() - 1),
{
    let c = a + b;
    assert forall|i: int| 0 <= i < c.len() - 1 implies steps_toward(
        c[i],
        c[i + 1],
        #[trigger] direction_at(c, start, i),
    ) by {
        directions_join(a, b, start, mid, i);
        if i < a.len() - 1 {
            assert(c[i] == a[i] && c[i + 1] == a[i + 1]);
            assert(steps_toward(a[i], a[i + 1], direction_at(a, start, i)));
        } else if i == a.len() - 1 {
            assert(c[i] == a.last() && c[i + 1] == b[0]);
        } else {
            let j = i - a.len();
            assert(c[i] == b[j] && c[i + 1] == b[j + 1]);
            assert(steps_toward(b[j], b[j + 1], direction_at(b, mid, j)));
        }
    }
    directions_join(a, b, start, mid, c.len() - 1);
}

/// A run without a turn keeps its direction.
proof fn runs_keep_direction(layers: Seq<usize>, start: Direction, i: int)
    requires
        0 <= i < layers.len(),
        forall|j: int| 0 < j < layers.len() ==> #[trigger] layers[j] != layers[j - 1],
    ensures
        direction_at(layers, start, i) == start,
    decreases i,
{
    if i > 0 {
        runs_keep_direction(layers, start, i - 1);
    }
}

/// An ascent goes up throughout, and a descent down.
proof fn runs_follow(shallow: int, deep: int)
    requires
        0 <= shallow <= deep <= usize::MAX,
    ensures
        follows(ascent(deep, shallow), Direction::Up),
        direction_at(ascent(deep, shallow), Direction::Up, deep - shallow) == Direction::Up,
        follows(descent(shallow, deep), Direction::Down),
        direction_at(descent(shallow, deep), Direction::Down, deep - shallow) == Direction::Down,
{
    let (up, down) = (ascent(deep, shallow), descent(shallow, deep));
    assert forall|j: int| 0 < j < up.len() implies #[trigger] up[j] != up[j - 1] by {
        assert(up[j - 1] == deep - (j - 1));
    }
    assert forall|j: int| 0 < j < down.len() implies #[trigger] down[j] != down[j - 1] by {
        assert(down[j - 1] == shallow + (j - 1));
    }
    assert forall|i: int| 0 <= i < up.len() - 1 implies steps_toward(
        up[i],
        up[i + 1],
        #[trigger] direction_at(up, Direction::Up, i),
    ) by {
        runs_keep_direction(up, Direction::Up, i);
    }
    assert forall|i: int| 0 <= i < down.len() - 1 implies steps_toward(
        down[i],
        down[i + 1],
        #[trigger] direction_at(down, Direction::Down, i),
    ) by {
        runs_keep_direction(down, Direction::Down, i);
    }
    runs_keep_direction(up, Direction::Up, deep - shallow);
    runs_keep_direction(down, Direction::Down, deep - shallow);
}

/// A model that a reflected ray can turn in: its deepest layer is the half-space, and it is below
/// the receiver's.
pub open spec fn has_half_space(model: Seq<Layer>) -> bool {
    RECEIVER_LAYER + 1 < model.len() <= usize::MAX && no_thickness(model.last())
}

/// Down to the Moho and up to the receiver again: it follows its directions and ends going up.
proof fn reflections_follow(model: Seq<Layer>, from: int)
    requires
        has_half_space(model),
        RECEIVER_LAYER <= from < model.len() - 1,
    ensures
        ({
            let l = down_to_moho(model, from) + ascent(
                turning(model, from),
                RECEIVER_LAYER as int,
            );
            &&& l.len() >= 2
            &&& l[0] == from
            &&& l.last() == RECEIVER_LAYER
            &&& follows(l, Direction::Down)
            &&& direction_at(l, Direction::Down, l.len() - 1) == Direction::Up
        }),
{
    turning_is_in_the_model(model, from);
    let t = turning(model, from);
    if t == model.len() - 1 {
        assert(!no_thickness(model[(t - 1) + 1]));
    }
    let (down, up) = (descent(from, t), ascent(t, RECEIVER_LAYER as int));
    runs_follow(from, t);
    runs_follow(RECEIVER_LAYER as int, t);
    parts_join(down, up, Direction::Down, Direction::Up);
    assert((down + up).last() == up.last());
}

/// Bounces follow their directions: each starts down and ends up.
proof fn bounces_follow(model: Seq<Layer>, head: Seq<usize>, start: Direction, n: nat)
    requires
        has_half_space(model),
        head.len() >= 1,
        head.last() == RECEIVER_LAYER,
        follows(head, start),
        direction_at(head, start, head.len() - 1) == Direction::Up,
    ensures
        ({
            let l = head + bounces(model, n);
            &&& l.len() >= head.len()
            &&& l[0] == head[0]
            &&& l.last() == RECEIVER_LAYER
            &&& follows(l, start)
            &&& direction_at(l, start, l.len() - 1) == Direction::Up
        }),
    decreases n,
{
    if n == 0 {
        assert(head + bounces(model, 0) == head);
    } else {
        bounces_follow(model, head, start, (n - 1) as nat);
        let before = head + bounces(model, (n - 1) as nat);
        reflections_follow(model, RECEIVER_LAYER as int);
        parts_join(before, bounce(model), start, Direction::Down);
        assert(before + bounce(model) == head + bounces(model, n));
    }
}

/// A traced ray goes where its directions say: every segment leads to the layer above it on the
/// way up and to the layer below it on the way down, or turns. It starts in the source layer,
/// leaves as its shape says, and arrives in the receiver layer going up.
pub proof fn rays_go_where_their_directions_say(
    model: Seq<Layer>,
    shape: RayShape,
    source_layer: int,
)
    requires
        has_half_space(model),
        RECEIVER_LAYER <= source_layer < model.len(),
        shape is DownToMoho ==> source_layer < model.len() - 1,
    ensures
        ({
            let layers = laid_out(model, shape, source_layer);
            let start = match shape.leaves() {
                Takeoff::Up => Direction::Up,
                Takeoff::Down => Direction::Down,
            };
            &&& layers.len() >= 1
            &&& layers[0] == source_layer
            &&& layers.last() == RECEIVER_LAYER
            &&& follows(layers, start)
            &&& direction_at(layers, start, layers.len() - 1) == Direction::Up
        }),
{
    match shape {
        RayShape::Upgoing { multiples } => {
            let head = ascent(source_layer, RECEIVER_LAYER as int);
            runs_follow(RECEIVER_LAYER as int, source_layer);
            bounces_follow(model, head, Direction::Up, multiples as nat);
        },
        RayShape::DownToMoho { multiples } => {
            let head = down_to_moho(model, source_layer) + ascent(
                turning(model, source_layer),
                RECEIVER_LAYER as int,
            );
            reflections_follow(model, source_layer);
            bounces_follow(model, head, Direction::Down, multiples as nat);
        },
    }
}

/// The visits of a joined ray are those of its parts together.
proof fn visits_join(a: Seq<usize>, b: Seq<usize>, layer: int)
    ensures
        visits(a + b, layer) == visits(a, layer) + visits(b, layer),
    decreases b.len(),
{
    if b.len() == 0 {
        assert(a + b == a);
    } else {
        assert((a + b).drop_last() == a + b.drop_last());
        assert((a + b).last() == b.last());
        visits_join(a, b.drop_last(), layer);
    }
}

/// A run visits each of its layers once.
proof fn runs_visit_once(shallow: int, deep: int, layer: int)
    requires
        0 <= shallow,
        deep <= usize::MAX,
    ensures
        visits(ascent(deep, shallow), layer) == if shallow <= layer <= deep {
            1nat
        } else {
            0nat
        },
        visits(descent(shallow, deep), layer) == if shallow <= layer <= deep {
            1nat
        } else {
            0nat
        },
    decreases deep - shallow + 1,
{
    if shallow <= deep {
        assert(ascent(deep, shallow).drop_last() == ascent(deep, shallow + 1));
        assert(descent(shallow, deep).drop_last() == descent(shallow, deep - 1));
        runs_visit_once(shallow + 1, deep, layer);
        runs_visit_once(shallow, deep - 1, layer);
    }
}

/// Bounces visit each layer an even number of times.
proof fn bounces_visit_in_pairs(model: Seq<Layer>, n: nat, layer: int)
    requires
        has_half_space(model),
    ensures
        visits(bounces(model, n), layer) % 2 == 0,
    decreases n,
{
    if n > 0 {
        bounces_visit_in_pairs(model, (n - 1) as nat, layer);
        reflections_visit_in_pairs(model, RECEIVER_LAYER as int, layer);
        visits_join(bounces(model, (n - 1) as nat), bounce(model), layer);
    }
}

/// A reflection visits each layer at or below its start twice.
proof fn reflections_visit_in_pairs(model: Seq<Layer>, from: int, layer: int)
    requires
        has_half_space(model),
        RECEIVER_LAYER <= from < model.len() - 1,
    ensures
        from <= layer || from == RECEIVER_LAYER ==> visits(
            down_to_moho(model, from) + ascent(turning(model, from), RECEIVER_LAYER as int),
            layer,
        ) % 2 == 0,
{
    turning_is_in_the_model(model, from);
    let t = turning(model, from);
    if t == model.len() - 1 {
        assert(!no_thickness(model[(t - 1) + 1]));
    }
    visits_join(descent(from, t), ascent(t, RECEIVER_LAYER as int), layer);
    runs_visit_once(from, t, layer);
    runs_visit_once(RECEIVER_LAYER as int, t, layer);
}

/// The direction that is derived from the segments is the one the shape asks for, wherever the
/// receiver is above the source.
pub proof fn rays_leave_as_their_shape_says(
    model: Seq<Layer>,
    shape: RayShape,
    source_layer: int,
    rays: Rays,
    receiver_km: Double,
    source_km: Double,
)
    requires
        has_half_space(model),
        RECEIVER_LAYER <= source_layer < model.len(),
        shape is DownToMoho ==> source_layer < model.len() - 1,
        rays.layer_indices@ == laid_out(model, shape, source_layer),
        rays.degeneracy == 1,
        receiver_km.below(source_km),
    ensures
        departure(rays, receiver_km, source_km) == match shape.leaves() {
            Takeoff::Up => Direction::Up,
            Takeoff::Down => Direction::Down,
        },
{
    rays_go_where_their_directions_say(model, shape, source_layer);
    let layers = rays.layer_indices@;
    match shape {
        RayShape::Upgoing { multiples } => {
            let head = ascent(source_layer, RECEIVER_LAYER as int);
            visits_join(head, bounces(model, multiples as nat), source_layer);
            runs_visit_once(RECEIVER_LAYER as int, source_layer, source_layer);
            bounces_visit_in_pairs(model, multiples as nat, source_layer);
        },
        RayShape::DownToMoho { multiples } => {
            let head = down_to_moho(model, source_layer) + ascent(
                turning(model, source_layer),
                RECEIVER_LAYER as int,
            );
            visits_join(head, bounces(model, multiples as nat), source_layer);
            reflections_visit_in_pairs(model, source_layer, source_layer);
            bounces_visit_in_pairs(model, multiples as nat, source_layer);
        },
    }
}

/// A ray from below the air stays below it and within the model: no segment is in the air layer,
/// whose attenuation is therefore never asked for.
pub proof fn rays_stay_out_of_the_air(model: Seq<Layer>, shape: RayShape, source_layer: int)
    requires
        2 <= model.len() <= usize::MAX,
        RECEIVER_LAYER <= source_layer < model.len(),
    ensures
        forall|i: int|
            0 <= i < laid_out(model, shape, source_layer).len() ==> RECEIVER_LAYER
                <= #[trigger] laid_out(model, shape, source_layer)[i] < model.len(),
{
    turning_is_in_the_model(model, source_layer);
    match shape {
        RayShape::Upgoing { multiples } => {
            bounces_stay_out_of_the_air(model, multiples as nat);
        },
        RayShape::DownToMoho { multiples } => {
            bounces_stay_out_of_the_air(model, multiples as nat);
        },
    }
}

/// Bounces stay within the model and out of the air.
proof fn bounces_stay_out_of_the_air(model: Seq<Layer>, n: nat)
    requires
        2 <= model.len() <= usize::MAX,
    ensures
        forall|i: int|
            0 <= i < bounces(model, n).len() ==> RECEIVER_LAYER <= #[trigger] bounces(model, n)[i]
                < model.len(),
    decreases n,
{
    if n > 0 {
        bounces_stay_out_of_the_air(model, (n - 1) as nat);
        turning_is_in_the_model(model, RECEIVER_LAYER as int);
        let before = bounces(model, (n - 1) as nat);
        assert forall|i: int| 0 <= i < bounces(model, n).len() implies RECEIVER_LAYER
            <= #[trigger] bounces(model, n)[i] < model.len() by {
            if i < before.len() {
                assert(bounces(model, n)[i] == before[i]);
            } else {
                assert(bounces(model, n)[i] == bounce(model)[i - before.len()]);
            }
        }
    }
}

// ---------------------------------------------------------------------------
// Laws of the crossings
// ---------------------------------------------------------------------------

/// The numbers of the segments in `layer` that go in a shear mode, or in another.
pub open spec fn segments_in(
    layers: Seq<usize>,
    modes: Seq<WaveMode>,
    layer: int,
    shear: bool,
) -> Set<int> {
    Set::new(
        |i: int|
            0 <= i < layers.len() && layers[i] == layer && (modes[i] == WaveMode::P) == !shear,
    )
}

/// A crossing is a segment: a layer is crossed as often as there are segments in it, each of them
/// once, whatever came before it. Only compressional segments are not shear.
pub proof fn crossings_are_segments(
    layers: Seq<usize>,
    modes: Seq<WaveMode>,
    layer: int,
    shear: bool,
)
    requires
        layers.len() <= modes.len(),
    ensures
        segments_in(layers, modes, layer, shear).finite(),
        crossings(layers, modes, layer, shear) == segments_in(layers, modes, layer, shear).len(),
    decreases layers.len(),
{
    let all = segments_in(layers, modes, layer, shear);
    if layers.len() == 0 {
        assert(all =~= Set::empty());
    } else {
        let (head, last) = (layers.drop_last(), layers.len() - 1);
        crossings_are_segments(head, modes, layer, shear);
        let before = segments_in(head, modes, layer, shear);
        if layers[last] == layer && modes[last].shear() == shear {
            assert(all =~= before.insert(last));
        } else {
            assert(all =~= before);
        }
    }
}

/// How often the first `n` layers are crossed, in shear modes and in others together.
pub open spec fn crossings_above(layers: Seq<usize>, modes: Seq<WaveMode>, n: nat) -> nat
    decreases n,
{
    if n == 0 {
        0
    } else {
        crossings_above(layers, modes, (n - 1) as nat) + crossings(
            layers,
            modes,
            n - 1,
            true,
        ) + crossings(layers, modes, n - 1, false)
    }
}

/// A segment more is a crossing more, of the layer that it is in.
proof fn a_segment_is_a_crossing(layers: Seq<usize>, modes: Seq<WaveMode>, n: nat)
    requires
        layers.len() > 0,
    ensures
        crossings_above(layers, modes, n) == crossings_above(layers.drop_last(), modes, n) + if (
        layers.last() < n) {
            1nat
        } else {
            0nat
        },
    decreases n,
{
    if n > 0 {
        a_segment_is_a_crossing(layers, modes, (n - 1) as nat);
    }
}

/// No segment is lost and none counts twice: over all layers of a model there are as many
/// crossings as segments.
pub proof fn every_segment_crosses_one_layer(
    layers: Seq<usize>,
    modes: Seq<WaveMode>,
    layer_count: nat,
)
    requires
        forall|i: int| 0 <= i < layers.len() ==> (#[trigger] layers[i]) < layer_count,
    ensures
        crossings_above(layers, modes, layer_count) == layers.len(),
    decreases layers.len(),
{
    if layers.len() == 0 {
        nothing_crosses_nothing(modes, layer_count);
        assert(layers =~= Seq::empty());
    } else {
        let head = layers.drop_last();
        assert forall|i: int| 0 <= i < head.len() implies (#[trigger] head[i]) < layer_count by {
            assert(head[i] == layers[i]);
        }
        every_segment_crosses_one_layer(head, modes, layer_count);
        a_segment_is_a_crossing(layers, modes, layer_count);
    }
}

/// A ray without segments crosses nothing.
proof fn nothing_crosses_nothing(modes: Seq<WaveMode>, n: nat)
    ensures
        crossings_above(Seq::empty(), modes, n) == 0,
    decreases n,
{
    if n > 0 {
        nothing_crosses_nothing(modes, (n - 1) as nat);
    }
}

/// In one mode a layer is crossed as often as it is visited.
proof fn one_mode_crosses_what_it_visits(layers: Seq<usize>, mode: WaveMode, n: nat, layer: int)
    requires
        layers.len() <= n,
    ensures
        crossings(layers, Seq::new(n, |i: int| mode), layer, mode.shear()) == visits(layers, layer),
        crossings(layers, Seq::new(n, |i: int| mode), layer, !mode.shear()) == 0,
    decreases layers.len(),
{
    if layers.len() > 0 {
        one_mode_crosses_what_it_visits(layers.drop_last(), mode, n, layer);
    }
}

/// The first layer with none of thickness below it is where a descent turns.
proof fn a_descent_turns_above_the_half_space(model: Seq<Layer>, from: int, moho: int)
    requires
        0 <= from <= moho < model.len() - 1,
        forall|k: int| from < k <= moho ==> !no_thickness(#[trigger] model[k]),
        no_thickness(model[moho + 1]),
    ensures
        turning(model, from) == moho,
    decreases moho - from,
{
    if from < moho {
        assert(!no_thickness(model[from + 1]));
        a_descent_turns_above_the_half_space(model, from + 1, moho);
    }
}

/// How often the bounces between the receiver layer and the Moho visit a layer.
proof fn bounces_visit_twice_each(model: Seq<Layer>, moho: int, n: nat, layer: int)
    requires
        RECEIVER_LAYER <= moho < model.len() - 1,
        model.len() <= usize::MAX,
        turning(model, RECEIVER_LAYER as int) == moho,
    ensures
        visits(bounces(model, n), layer) == if RECEIVER_LAYER <= layer <= moho {
            2 * n
        } else {
            0
        },
    decreases n,
{
    if n > 0 {
        bounces_visit_twice_each(model, moho, (n - 1) as nat, layer);
        let r = RECEIVER_LAYER as int;
        visits_join(bounces(model, (n - 1) as nat), bounce(model), layer);
        visits_join(descent(r, moho), ascent(moho, r), layer);
        runs_visit_once(r, moho, layer);
    }
}

/// How often a traced ray crosses a layer, `moho` being the last layer above the half-space.
///
/// A ray that leaves upward crosses each layer from the source's to the receiver's once. One that
/// leaves downward crosses each layer from the source's to the Moho twice, once on its way down
/// and once on its way up, and each above the source once. Every multiple crosses each layer
/// between the receiver and the Moho twice more. Nothing else is crossed, and nothing in another
/// mode.
pub proof fn traced_rays_cross_each_layer(
    model: Seq<Layer>,
    shape: RayShape,
    source_layer: int,
    moho: int,
    mode: WaveMode,
    layer: int,
)
    requires
        RECEIVER_LAYER <= source_layer <= moho < model.len() - 1,
        model.len() <= usize::MAX,
        forall|k: int| RECEIVER_LAYER < k <= moho ==> !no_thickness(#[trigger] model[k]),
        no_thickness(model[moho + 1]),
    ensures
        ({
            let layers = laid_out(model, shape, source_layer);
            let modes = Seq::new(layers.len(), |i: int| mode);
            let shear = mode != WaveMode::P;
            let above_source = RECEIVER_LAYER <= layer < source_layer;
            let at_source = layer == source_layer;
            let below_source = source_layer < layer <= moho;
            let times = crossings(layers, modes, layer, shear);
            &&& crossings(layers, modes, layer, !shear) == 0
            &&& match shape {
                RayShape::Upgoing { multiples } => {
                    &&& above_source || at_source ==> times == 1 + 2 * multiples
                    &&& below_source ==> times == 2 * multiples
                },
                RayShape::DownToMoho { multiples } => {
                    &&& above_source ==> times == 1 + 2 * multiples
                    &&& at_source || below_source ==> times == 2 + 2 * multiples
                },
            }
            &&& layer < RECEIVER_LAYER || layer > moho ==> times == 0
        }),
{
    let layers = laid_out(model, shape, source_layer);
    let r = RECEIVER_LAYER as int;
    one_mode_crosses_what_it_visits(layers, mode, layers.len(), layer);
    a_descent_turns_above_the_half_space(model, r, moho);
    a_descent_turns_above_the_half_space(model, source_layer, moho);
    match shape {
        RayShape::Upgoing { multiples } => {
            visits_join(ascent(source_layer, r), bounces(model, multiples as nat), layer);
            runs_visit_once(r, source_layer, layer);
            bounces_visit_twice_each(model, moho, multiples as nat, layer);
        },
        RayShape::DownToMoho { multiples } => {
            let head = descent(source_layer, moho) + ascent(moho, r);
            visits_join(head, bounces(model, multiples as nat), layer);
            visits_join(descent(source_layer, moho), ascent(moho, r), layer);
            runs_visit_once(source_layer, moho, layer);
            runs_visit_once(r, moho, layer);
            bounces_visit_twice_each(model, moho, multiples as nat, layer);
        },
    }
}

/// A ray turns where it is reflected and nowhere else: the direction changes after a segment just
/// where the next one is in the same layer, and that is what a reflection is. What is not
/// reflected goes on into another layer.
pub proof fn rays_turn_where_they_are_reflected(layers: Seq<usize>, start: Direction, i: int)
    requires
        0 <= i < layers.len(),
    ensures
        layers.len() == 1 <==> interaction_at(layers, i) == Interaction::Direct,
        i + 1 < layers.len() ==> {
            &&& interaction_at(layers, i) == Interaction::Reflection <==> layers[i] == layers[i + 1]
            &&& direction_at(layers, start, i + 1) != direction_at(layers, start, i)
                <==> layers[i] == layers[i + 1]
        },
        direction_at(layers, start, 0) == start,
        i + 1 == layers.len() ==> interaction_at(layers, i) != Interaction::Reflection,
{
}

/// What is trimmed off a traced ray is what it does not travel: above the receiver, which it
/// reaches from below, and on the side of the source that it turns its back on.
pub proof fn trims_are_what_is_not_travelled(
    model: Seq<Layer>,
    shape: RayShape,
    source_layer: int,
    rays: Rays,
    mode: WaveMode,
    receiver_km: Double,
    source_km: Double,
)
    requires
        has_half_space(model),
        RECEIVER_LAYER <= source_layer < model.len(),
        shape is DownToMoho ==> source_layer < model.len() - 1,
        rays.are(laid_out(model, shape, source_layer), mode),
        rays.degeneracy == 1,
        receiver_km.below(source_km),
    ensures
        ({
            let layers = rays.layer_indices@;
            let start = departure(rays, receiver_km, source_km);
            let last = direction_at(layers, start, layers.len() - 1);
            let shear = mode != WaveMode::P;
            &&& receiver_trim(rays, last) == (Trim {
                layer: RECEIVER_LAYER,
                shear,
                share: Share::Above,
            })
            &&& source_trim(rays, start).layer == source_layer
            &&& source_trim(rays, start).shear == shear
            &&& source_trim(rays, start).share == Share::Below <==> shape is Upgoing
        }),
{
    rays_go_where_their_directions_say(model, shape, source_layer);
    rays_leave_as_their_shape_says(model, shape, source_layer, rays, receiver_km, source_km);
    let layers = rays.layer_indices@;
    assert(rays.wave_modes@[0] == mode);
    assert(rays.wave_modes@[layers.len() - 1] == mode);
}

/// A ray without a turn leaves toward its receiver: up where the receiver's layer is shallower,
/// down where it is deeper, and by the depths where the two share a layer. A negative degeneracy
/// sends any ray of more than one segment up.
pub proof fn straight_rays_leave_toward_the_receiver(
    rays: Rays,
    shallow: int,
    deep: int,
    receiver_km: Double,
    source_km: Double,
)
    requires
        0 <= shallow <= deep <= usize::MAX,
        rays.layer_indices@ == ascent(deep, shallow) || rays.layer_indices@ == descent(
            shallow,
            deep,
        ),
    ensures
        shallow < deep && rays.degeneracy >= 0 ==> departure(rays, receiver_km, source_km) == if (
        rays.layer_indices@[0] > rays.layer_indices@.last()) {
            Direction::Up
        } else {
            Direction::Down
        },
        shallow < deep && rays.degeneracy < 0 ==> departure(rays, receiver_km, source_km)
            == Direction::Up,
        shallow == deep ==> (departure(rays, receiver_km, source_km) == Direction::Down
            <==> source_km.at_most(receiver_km)),
{
    let layers = rays.layer_indices@;
    runs_visit_once(shallow, deep, layers[0] as int);
}

/// A source is kept a fiftieth of a kilometre, as a single has it, from an interface.
pub proof fn the_clearance_is_twenty_metres()
    ensures
        reals::is_nearest_single(Single(0x3ca3_d70a), 2, 100),
        reals::same_number(Single(0x3ca3_d70a), Double(INTERFACE_CLEARANCE_KM)),
{
    lemma2_to64();
    lemma2_to64_rest();
    assert(reals::single_parts(Single(0x3ca3d70a)) == (10737418nat, -29int));
    assert(reals::double_parts(Double(INTERFACE_CLEARANCE_KM)) == (5764607394185216nat, -58int));
    assert(10737418 * pow2(29) == 5764607394185216) by {
        assert(pow2(29) == 536870912);
    }
}

/// A ray's code, halved, is how often the ray comes to the Moho and back: so often is the layer
/// above it crossed each way, by a ray from a source further up. And whatever its code, a ray
/// ends in layer 1, just below the air.
pub proof fn codes_count_the_ways_to_the_moho(
    model: Seq<Layer>,
    shape: RayShape,
    source_layer: int,
    moho: int,
    mode: WaveMode,
)
    requires
        1 <= source_layer < moho < model.len() - 1,
        model.len() <= usize::MAX,
        forall|k: int| 1 < k <= moho ==> !no_thickness(#[trigger] model[k]),
        no_thickness(model[moho + 1]),
    ensures
        ({
            let layers = laid_out(model, shape, source_layer);
            let modes = Seq::new(layers.len(), |i: int| mode);
            &&& crossings(layers, modes, moho, mode != WaveMode::P) == 2 * (code_of(shape) / 2)
            &&& layers.len() > 0
            &&& layers[0] == source_layer
            &&& layers.last() == 1
        }),
{
    traced_rays_cross_each_layer(model, shape, source_layer, moho, mode, moho);
    a_descent_turns_above_the_half_space(model, 1, moho);
    a_descent_turns_above_the_half_space(model, source_layer, moho);
    match shape {
        RayShape::Upgoing { multiples } => {
            bounces_end_at_the_receiver(model, moho, multiples as nat);
        },
        RayShape::DownToMoho { multiples } => {
            bounces_end_at_the_receiver(model, moho, multiples as nat);
        },
    }
}

/// Bounces, where there are any, end in the receiver's layer.
proof fn bounces_end_at_the_receiver(model: Seq<Layer>, moho: int, n: nat)
    requires
        RECEIVER_LAYER <= moho < model.len() - 1,
        model.len() <= usize::MAX,
        turning(model, RECEIVER_LAYER as int) == moho,
    ensures
        n > 0 ==> bounces(model, n).len() > 0 && bounces(model, n).last() == RECEIVER_LAYER,
        n == 0 ==> bounces(model, n).len() == 0,
{
    if n > 0 {
        let r = RECEIVER_LAYER as int;
        assert(bounce(model).len() > 0);
        assert(bounce(model).last() == ascent(moho, r).last());
    }
}

/// A source is moved away from an interface, never across it, and only from within twenty metres:
/// one that is above it is pulled up, one that is on it or below is pushed down, and one that is
/// twenty metres away or more stays.
pub proof fn sources_are_moved_off_interfaces(depth_km: Double, interface_km: Double, gap_km: Double)
    requires
        depth_km.ordered(),
        interface_km.ordered(),
        gap_km.ordered(),
    ensures
        ({
            let clearance = Double(0x3f94_7ae1_4000_0000);
            let place = beside(depth_km, interface_km, gap_km);
            &&& reals::same_number(Single(0x3ca3_d70a), clearance)
            &&& place is Within <==> depth_km.value() < interface_km.value()
            &&& place == (Beside::Within { pull_up: true }) || place == (Beside::Deeper {
                push_down: true,
            }) <==> gap_km.value() < clearance.value()
        }),
{
    the_clearance_is_twenty_metres();
    reals::doubles_are_ordered_by_value(depth_km, interface_km);
    reals::doubles_are_ordered_by_value(interface_km, depth_km);
    reals::doubles_are_ordered_by_value(gap_km, Double(INTERFACE_CLEARANCE_KM));
}

} // verus!
