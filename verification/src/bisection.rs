//! The search for a ray's own ray parameter.
//!
//! The travel time is stationary where its derivative is zero. The search starts just inside the
//! branch cut of the fastest layer that the ray crosses and, where the derivative is negative
//! there, halves the interval down to zero slowness.

use vstd::arithmetic::power2::*;
use vstd::prelude::*;

use crate::reals;
use crate::reals::{Double, Single};
use crate::velocity::Layer;

verus! {

/// The bit pattern of 0.01: a derivative no further from zero than this is zero.
pub const SETTLED_DERIVATIVE: u64 = 0x3f84_7ae1_47ae_147b;

/// How many halvings the search makes at most.
pub const HALVINGS: u32 = 40;

/// The sign bit.
pub const SIGN: u64 = 0x8000_0000_0000_0000;

/// A number without its sign.
pub open spec fn unsigned(x: Double) -> Double {
    if x.0 >= SIGN {
        Double((x.0 - SIGN) as u64)
    } else {
        x
    }
}

/// Whether a derivative is as good as zero.
pub open spec fn settled(derivative: Double) -> bool {
    unsigned(derivative).at_most(Double(SETTLED_DERIVATIVE))
}

/// The interval under search.
#[derive(Clone, Copy, Debug, PartialEq, Eq, Structural)]
pub struct Bisection {
    /// The end where the derivative is positive, or zero slowness.
    pub low: Double,
    /// The end where it is not.
    pub high: Double,
    /// How many halvings have been made.
    pub made: u32,
}

impl Bisection {
    /// The search that starts at `high`, where the derivative is `derivative`: there is one only
    /// where that is negative.
    pub fn start(high: Double, derivative: Double) -> (r: Option<Self>)
        ensures
            r == if derivative.below(Double(0)) {
                Some(Bisection { low: Double(0), high, made: 0 })
            } else {
                None
            },
    {
        if derivative.is_below(Double(0)) {
            Some(Bisection { low: Double(0), high, made: 0 })
        } else {
            None
        }
    }

    /// The search after the derivative at `middle` has been found: `None` where the search is
    /// over with `middle`.
    pub open spec fn after(self, middle: Double, derivative: Double) -> Option<Bisection> {
        if settled(derivative) || self.made + 1 >= HALVINGS {
            None
        } else if Double(0).below(derivative) {
            Some(Bisection { low: middle, made: (self.made + 1) as u32, ..self })
        } else {
            Some(Bisection { high: middle, made: (self.made + 1) as u32, ..self })
        }
    }

    /// Take the derivative at the middle of the interval: keep the half that the zero is in, or
    /// end with `None` where the derivative is as good as zero or the halvings are used up.
    pub fn halve(self, middle: Double, derivative: Double) -> (r: Option<Self>)
        requires
            self.made < HALVINGS,
        ensures
            r == self.after(middle, derivative),
    {
        let made: u32 = self.made + 1;
        let size: Double = if derivative.0 >= SIGN {
            Double(derivative.0 - SIGN)
        } else {
            derivative
        };
        if size.is_at_most(Double(SETTLED_DERIVATIVE)) || made >= HALVINGS {
            None
        } else if Double(0).is_below(derivative) {
            Some(Bisection { low: middle, high: self.high, made })
        } else {
            Some(Bisection { low: self.low, high: middle, made })
        }
    }
}

/// The interval only shrinks, the search comes nearer its end, and it can always be taken on.
pub proof fn halving_narrows(b: Bisection, middle: Double, derivative: Double)
    requires
        b.made < HALVINGS,
        b.low.at_most(middle),
        middle.at_most(b.high),
    ensures
        b.after(middle, derivative) matches Some(n) ==> {
            &&& b.low.at_most(n.low)
            &&& n.high.at_most(b.high)
            &&& n.low.at_most(n.high)
            &&& b.made < n.made < HALVINGS
        },
        settled(derivative) ==> b.after(middle, derivative) is None,
{
}

// ---------------------------------------------------------------------------
// The branch cut
// ---------------------------------------------------------------------------

/// The larger of two speeds. What is not a number gives way.
pub open spec fn faster(a: Double, b: Double) -> Double {
    if !a.ordered() || a.below(b) {
        b
    } else {
        a
    }
}

/// The faster of a speed and one layer's speeds, each where the ray crosses the layer in its mode.
pub open spec fn faster_in(fastest: Double, layer: Layer, p: Single, s: Single) -> Double {
    let with_p = if Single(0).below(p) {
        faster(fastest, layer.vp_km_s)
    } else {
        fastest
    };
    if Single(0).below(s) {
        faster(with_p, layer.vsh_km_s)
    } else {
        with_p
    }
}

/// The fastest speed that a ray meets in the first `n` layers, crossing layer `i` `p[i]` times as
/// P and `s[i]` times as S.
pub open spec fn fastest_met(
    model: Seq<Layer>,
    p: Seq<Single>,
    s: Seq<Single>,
    n: nat,
) -> Double
    decreases n,
{
    if n == 0 {
        Double(0)
    } else {
        faster_in(fastest_met(model, p, s, (n - 1) as nat), model[n - 1], p[n - 1], s[n - 1])
    }
}

/// The faster of two speeds.
fn faster_of(a: Double, b: Double) -> (r: Double)
    ensures
        r == faster(a, b),
{
    if !a.equals(a) || a.is_below(b) {
        b
    } else {
        a
    }
}

/// The fastest speed that a ray meets, down to the deepest layer that it reaches: the nearest
/// branch cut is at its inverse.
pub fn branch_velocity(
    model: &Vec<Layer>,
    p: &Vec<Single>,
    s: &Vec<Single>,
    deepest_layer: usize,
) -> (fastest: Double)
    requires
        deepest_layer < model.len(),
        deepest_layer < p.len(),
        deepest_layer < s.len(),
    ensures
        fastest == fastest_met(model@, p@, s@, (deepest_layer + 1) as nat),
{
    let mut fastest: Double = Double(0);
    let mut i: usize = 0;
    while i <= deepest_layer
        invariant
            deepest_layer < model.len(),
            deepest_layer < p.len(),
            deepest_layer < s.len(),
            i <= deepest_layer + 1,
            fastest == fastest_met(model@, p@, s@, i as nat),
        decreases deepest_layer + 1 - i,
    {
        if Single(0).is_below(p[i]) {
            fastest = faster_of(fastest, model[i].vp_km_s);
        }
        if Single(0).is_below(s[i]) {
            fastest = faster_of(fastest, model[i].vsh_km_s);
        }
        i += 1;
    }
    fastest
}

/// Nothing that the ray meets is faster: the search starts inside every branch cut.
pub proof fn no_layer_is_faster(
    model: Seq<Layer>,
    p: Seq<Single>,
    s: Seq<Single>,
    n: nat,
    i: int,
)
    requires
        0 <= i < n,
    ensures
        fastest_met(model, p, s, n).ordered(),
        Single(0).below(p[i]) && model[i].vp_km_s.ordered() ==> model[i].vp_km_s.at_most(
            fastest_met(model, p, s, n),
        ),
        Single(0).below(s[i]) && model[i].vsh_km_s.ordered() ==> model[i].vsh_km_s.at_most(
            fastest_met(model, p, s, n),
        ),
    decreases n,
{
    if i < n - 1 {
        no_layer_is_faster(model, p, s, (n - 1) as nat, i);
    } else {
        fastest_is_ordered(model, p, s, (n - 1) as nat);
    }
}

/// The fastest speed is a number, whatever the layers hold.
proof fn fastest_is_ordered(model: Seq<Layer>, p: Seq<Single>, s: Seq<Single>, n: nat)
    ensures
        fastest_met(model, p, s, n).ordered(),
    decreases n,
{
    if n > 0 {
        fastest_is_ordered(model, p, s, (n - 1) as nat);
    }
}

/// The derivative that is as good as zero is a hundredth, on either side of zero, itself included.
pub proof fn a_hundredth_is_settled(derivative: Double)
    ensures
        reals::is_nearest_double(Double(SETTLED_DERIVATIVE), 1, 100),
        derivative.ordered() ==> (settled(derivative) <==> {
            &&& -Double(SETTLED_DERIVATIVE).rank() <= derivative.rank()
            &&& derivative.rank() <= Double(SETTLED_DERIVATIVE).rank()
        }),
        !derivative.ordered() ==> !settled(derivative),
{
    lemma2_to64();
    lemma2_to64_rest();
}

/// The fastest speed is one that the ray does meet: the P speed of a layer that it crosses as P, or
/// the S speed of one that it crosses as S, or zero where it meets none.
pub proof fn the_fastest_is_met(model: Seq<Layer>, p: Seq<Single>, s: Seq<Single>, n: nat)
    ensures
        fastest_met(model, p, s, n) == Double(0) || exists|i: int|
            0 <= i < n && (#[trigger] is_speed_met(model, p, s, i, fastest_met(model, p, s, n))),
    decreases n,
{
    if n > 0 {
        the_fastest_is_met(model, p, s, (n - 1) as nat);
        let before = fastest_met(model, p, s, (n - 1) as nat);
        let now = fastest_met(model, p, s, n);
        if now != before {
            assert(is_speed_met(model, p, s, n - 1, now));
        } else if before != Double(0) {
            let i = choose|i: int|
                0 <= i < n - 1 && (#[trigger] is_speed_met(model, p, s, i, before));
            assert(is_speed_met(model, p, s, i, now));
        }
    }
}

/// Whether a ray meets a speed in layer `i`.
pub open spec fn is_speed_met(
    model: Seq<Layer>,
    p: Seq<Single>,
    s: Seq<Single>,
    i: int,
    speed: Double,
) -> bool {
    ||| Single(0).below(p[i]) && speed == model[i].vp_km_s
    ||| Single(0).below(s[i]) && speed == model[i].vsh_km_s
}

impl Bisection {
    /// Whether the zero of a derivative is between the two ends: it is positive at the lower one,
    /// which may be zero slowness instead, and it is not at the upper one.
    pub open spec fn encloses(self, derivative: spec_fn(Double) -> Double) -> bool {
        &&& self.low == Double(0) || Double(0).below(derivative(self.low))
        &&& !Double(0).below(derivative(self.high))
    }
}

/// A halving keeps the zero enclosed, whatever the derivative is, from a start at which it is
/// negative to the end of the search, which comes with the fortieth halving at the latest.
pub proof fn the_zero_stays_enclosed(
    b: Bisection,
    middle: Double,
    derivative: spec_fn(Double) -> Double,
)
    requires
        b.made < 40,
    ensures
        b.encloses(derivative) ==> (b.after(middle, derivative(middle)) matches Some(n)
            ==> n.encloses(derivative)),
        b.after(middle, derivative(middle)) matches Some(n) ==> {
            &&& n.low == middle || n.high == middle
            &&& n.low == b.low || n.high == b.high
            &&& n.made == b.made + 1
        },
        b.after(middle, derivative(middle)) is None <==> settled(derivative(middle)) || b.made
            == 39,
        derivative(b.high).below(Double(0)) ==> (Bisection {
            low: Double(0),
            high: b.high,
            made: 0,
        }).encloses(derivative),
{
}

} // verus!
