//! The station record: its sample grid, where a contribution lands on it, and the reports on
//! what did not fit.

use vstd::prelude::*;

use crate::fort;
use crate::fort::int_trunc;
use crate::reals;
use crate::reals::Single;

verus! {

/// The record's time axis: `ndata` samples, `dt` apart, sample 1 at the origin time.
#[derive(Clone, Copy, Debug, PartialEq, Eq, Structural)]
pub struct SampleGrid {
    pub dt: Single,
    pub ndata: usize,
}

/// Where a contribution's window lands in the record, after clipping to it.
#[derive(Clone, Copy, Debug, PartialEq, Eq, Structural)]
pub struct Placement {
    /// How many of the contribution's own samples fall before the record starts.
    pub skip: usize,
    /// 0-based index in the record where the first surviving sample lands.
    pub offset: usize,
    /// How many samples land.
    pub count: usize,
}

/// Whether sample `i` of a window that starts at `start` lands on record index `at`: it has the
/// sample number `start + i`, and record index `at` has the number `at + 1`.
pub open spec fn lands_on(start: int, length: int, ndata: int, i: int, at: int) -> bool {
    0 <= i < length && 0 <= at < ndata && start + i == at + 1
}

/// The window's samples that land, as a placement: `None` where none does.
pub open spec fn placed(start: int, length: int, ndata: int) -> Option<Placement> {
    let first = if start > 1 { start } else { 1 };
    let last = if start + length - 1 < ndata { start + length - 1 } else { ndata };
    if last < first {
        None
    } else {
        Some(
            Placement {
                skip: (first - start) as usize,
                offset: (first - 1) as usize,
                count: (last - first + 1) as usize,
            },
        )
    }
}

impl Placement {
    /// Clip a window of `np2` samples to a record of `ndata`, or `None` if none of it lands.
    ///
    /// `start_sample` is a 1-based sample number and can be negative. Both ends can miss: the
    /// window may end before the record begins, or begin after it ends.
    pub fn clip(start_sample: i32, np2: usize, ndata: usize) -> (r: Option<Self>)
        requires
            np2 <= i32::MAX,
            ndata <= i32::MAX,
        ensures
            r == placed(start_sample as int, np2 as int, ndata as int),
    {
        let start: i64 = start_sample as i64;
        let end: i64 = start + np2 as i64 - 1;
        let last: i64 = if end < ndata as i64 { end } else { ndata as i64 };
        let first: i64 = if start > 1 { start } else { 1 };
        if last < first {
            return None;
        }
        Some(
            Placement {
                skip: (first - start) as usize,
                offset: (first - 1) as usize,
                count: (last - first + 1) as usize,
            },
        )
    }
}

impl SampleGrid {
    /// The 1-based sample that a contribution's first sample lands on: the samples to the
    /// rupture and from there to the window, each cut toward zero on its own. It can be negative.
    pub fn start_sample(&self, to_rupture: Single, to_window: Single) -> (start: i32)
        requires
            i32::MIN <= fort::cut(to_rupture) + fort::cut(to_window) <= i32::MAX,
        ensures
            start == fort::cut(to_rupture) + fort::cut(to_window),
    {
        int_trunc(to_rupture) + int_trunc(to_window)
    }

    /// Whether a contribution that starts at `start_sample` begins after the record ends.
    pub fn starts_after_end(&self, start_sample: i32) -> (b: bool)
        requires
            self.ndata <= i32::MAX,
        ensures
            b == (start_sample > self.ndata),
    {
        start_sample > self.ndata as i32
    }

    /// Where a window of `np2` samples that starts at `start_sample` lands.
    pub fn place(&self, start_sample: i32, np2: usize) -> (r: Option<Placement>)
        requires
            np2 <= i32::MAX,
            self.ndata <= i32::MAX,
        ensures
            r == placed(start_sample as int, np2 as int, self.ndata as int),
    {
        Placement::clip(start_sample, np2, self.ndata)
    }
}

/// A placement holds just the samples that land: sample `skip + k` goes to index `offset + k`,
/// for each `k` below `count`, and nothing else lands anywhere. Where there is no placement, no
/// sample lands.
pub proof fn placements_hold_what_lands(start: int, length: int, ndata: int, i: int, at: int)
    requires
        i32::MIN <= start <= i32::MAX,
        0 <= length <= i32::MAX,
        0 <= ndata <= i32::MAX,
    ensures
        match placed(start, length, ndata) {
            Some(p) => {
                &&& lands_on(start, length, ndata, i, at) <==> exists|k: int|
                    0 <= k < p.count && i == p.skip + k && at == #[trigger] (p.offset + k)
                &&& p.count >= 1
                &&& p.skip + p.count <= length
                &&& p.offset + p.count <= ndata
            },
            None => !lands_on(start, length, ndata, i, at),
        },
{
    match placed(start, length, ndata) {
        Some(p) => {
            if lands_on(start, length, ndata, i, at) {
                let k = at - p.offset;
                assert(0 <= k < p.count && i == p.skip + k && at == p.offset + k);
            }
        },
        None => {},
    }
}

/// A window that begins after the record ends has no placement, whatever its length.
pub proof fn nothing_lands_past_the_end(start: int, length: int, ndata: int)
    requires
        start > ndata,
    ensures
        placed(start, length, ndata) is None,
{
}

// ---------------------------------------------------------------------------
// Reports
// ---------------------------------------------------------------------------

/// How much of what a run computed reached the record.
#[derive(Clone, Copy, Debug, PartialEq, Eq, Structural)]
pub struct Census {
    /// `(subfault, ray)` pairs that passed the moment-weight threshold.
    pub pairs_attempted: usize,
    /// Of those, the ones whose window landed entirely outside the record.
    pub pairs_outside_record: usize,
    /// Transform samples computed, summed over pairs.
    pub samples_computed: usize,
    /// Transform samples that landed in the record.
    pub samples_accumulated: usize,
    /// Distinct transform lengths that were built.
    pub transform_lengths: usize,
}

impl Default for Census {
    fn default() -> (c: Self)
        ensures
            c == Census::none(),
    {
        Census {
            pairs_attempted: 0,
            pairs_outside_record: 0,
            samples_computed: 0,
            samples_accumulated: 0,
            transform_lengths: 0,
        }
    }
}

impl Census {
    /// Nothing counted.
    pub open spec fn none() -> Census {
        Census {
            pairs_attempted: 0,
            pairs_outside_record: 0,
            samples_computed: 0,
            samples_accumulated: 0,
            transform_lengths: 0,
        }
    }

    /// What a census can be: no more pairs outside than were attempted, and no more samples in
    /// the record than were computed.
    pub open spec fn possible(self) -> bool {
        &&& self.pairs_outside_record <= self.pairs_attempted
        &&& self.samples_accumulated <= self.samples_computed
    }

    /// Two censuses together. The lengths are a property of one cache, so they are not summed:
    /// the larger stands.
    pub open spec fn with(self, other: Census) -> Census {
        Census {
            pairs_attempted: (self.pairs_attempted + other.pairs_attempted) as usize,
            pairs_outside_record: (self.pairs_outside_record
                + other.pairs_outside_record) as usize,
            samples_computed: (self.samples_computed + other.samples_computed) as usize,
            samples_accumulated: (self.samples_accumulated + other.samples_accumulated) as usize,
            transform_lengths: if self.transform_lengths >= other.transform_lengths {
                self.transform_lengths
            } else {
                other.transform_lengths
            },
        }
    }

    /// Whether two censuses can be taken together.
    pub open spec fn fits(self, other: Census) -> bool {
        &&& self.pairs_attempted + other.pairs_attempted <= usize::MAX
        &&& self.pairs_outside_record + other.pairs_outside_record <= usize::MAX
        &&& self.samples_computed + other.samples_computed <= usize::MAX
        &&& self.samples_accumulated + other.samples_accumulated <= usize::MAX
    }

    /// Add what another census counted.
    pub fn absorb(&mut self, other: Census)
        requires
            old(self).fits(other),
        ensures
            *final(self) == old(self).with(other),
    {
        self.pairs_attempted = self.pairs_attempted + other.pairs_attempted;
        self.pairs_outside_record = self.pairs_outside_record + other.pairs_outside_record;
        self.samples_computed = self.samples_computed + other.samples_computed;
        self.samples_accumulated = self.samples_accumulated + other.samples_accumulated;
        if self.transform_lengths < other.transform_lengths {
            self.transform_lengths = other.transform_lengths;
        }
    }

    /// The fraction of computed samples that reached the record, as numerator and denominator:
    /// nothing over one for a station that computed nothing.
    pub fn useful_fraction(&self) -> (r: (usize, usize))
        ensures
            self.samples_computed == 0 ==> r == (0usize, 1usize),
            self.samples_computed != 0 ==> r == (self.samples_accumulated, self.samples_computed),
    {
        if self.samples_computed == 0 {
            (0, 1)
        } else {
            (self.samples_accumulated, self.samples_computed)
        }
    }
}

/// Possible censuses stay possible together, and an empty one changes nothing.
pub proof fn censuses_stay_possible(a: Census, b: Census)
    requires
        a.possible(),
        b.possible(),
        a.fits(b),
    ensures
        a.with(b).possible(),
        Census::none().with(a) == a,
{
}

/// Arrivals that the record was too short to hold.
#[derive(Clone, Copy, Debug, PartialEq, Eq, Structural)]
pub struct Clipping {
    /// Contributions whose envelope peak fell past the end of the record.
    pub peaks_lost: usize,
    /// How far past the end the latest of them fell, seconds. Zero when none were lost.
    pub worst_overrun_s: Single,
}

impl Default for Clipping {
    fn default() -> (c: Self)
        ensures
            c == Clipping::none(),
    {
        Clipping { peaks_lost: 0, worst_overrun_s: Single(0) }
    }
}

/// The larger of two numbers. What is not a number gives way.
pub open spec fn larger(a: Single, b: Single) -> Single {
    if !a.ordered() || a.below(b) {
        b
    } else {
        a
    }
}

/// The larger of two numbers.
fn larger_of(a: Single, b: Single) -> (r: Single)
    ensures
        r == larger(a, b),
{
    if !a.equals(a) || a.is_below(b) {
        b
    } else {
        a
    }
}

impl Clipping {
    /// Nothing lost.
    pub open spec fn none() -> Clipping {
        Clipping { peaks_lost: 0, worst_overrun_s: Single(0) }
    }

    /// Two reports together.
    pub open spec fn with(self, other: Clipping) -> Clipping {
        Clipping {
            peaks_lost: (self.peaks_lost + other.peaks_lost) as usize,
            worst_overrun_s: larger(self.worst_overrun_s, other.worst_overrun_s),
        }
    }

    /// The report after one arrival. A peak is lost where it overruns the record at all.
    pub open spec fn after(self, overrun_samples: Single, overrun_s: Single) -> Clipping {
        if Single(0).below(overrun_samples) {
            Clipping {
                peaks_lost: (self.peaks_lost + 1) as usize,
                worst_overrun_s: larger(self.worst_overrun_s, overrun_s),
            }
        } else {
            self
        }
    }

    /// True when every arrival landed inside the record.
    pub fn is_complete(&self) -> (b: bool)
        ensures
            b == (self.peaks_lost == 0),
    {
        self.peaks_lost == 0
    }

    /// Record one arrival, by how far its envelope peak lies past the end of the record: in
    /// samples, and in seconds.
    pub fn record_arrival(&mut self, overrun_samples: Single, overrun_s: Single)
        requires
            old(self).peaks_lost < usize::MAX,
        ensures
            *final(self) == old(self).after(overrun_samples, overrun_s),
    {
        if Single(0).is_below(overrun_samples) {
            self.peaks_lost = self.peaks_lost + 1;
            self.worst_overrun_s = larger_of(self.worst_overrun_s, overrun_s);
        }
    }

    /// Add what another report holds.
    pub fn absorb(&mut self, other: Clipping)
        requires
            old(self).peaks_lost + other.peaks_lost <= usize::MAX,
        ensures
            *final(self) == old(self).with(other),
    {
        self.peaks_lost = self.peaks_lost + other.peaks_lost;
        self.worst_overrun_s = larger_of(self.worst_overrun_s, other.worst_overrun_s);
    }
}

/// The worst overrun never shrinks: a report that has one keeps it, or a larger.
pub proof fn the_worst_overrun_stands(a: Clipping, b: Clipping)
    requires
        a.worst_overrun_s.ordered(),
    ensures
        a.worst_overrun_s.at_most(a.with(b).worst_overrun_s),
        b.worst_overrun_s.ordered() ==> b.worst_overrun_s.at_most(a.with(b).worst_overrun_s),
        Clipping::none().with(a).peaks_lost == a.peaks_lost,
{
}

// ---------------------------------------------------------------------------
// Output
// ---------------------------------------------------------------------------

/// Byte `k` of the output: components fastest, then samples, each sample as four bytes with the
/// lowest first.
pub open spec fn output_byte(rows: Seq<Vec<Single>>, k: int) -> u8 {
    let word = k / 4;
    let bits = rows[word % (rows.len() as int)]@[word / (rows.len() as int)].0;
    if k % 4 == 0 {
        (bits % 256) as u8
    } else if k % 4 == 1 {
        (bits / 256 % 256) as u8
    } else if k % 4 == 2 {
        (bits / 65536 % 256) as u8
    } else {
        (bits / 16777216) as u8
    }
}

/// The record as it is written: sample by sample, the components of a sample together.
pub fn interleaved_bytes(rows: &Vec<Vec<Single>>, ndata: usize) -> (bytes: Vec<u8>)
    requires
        forall|c: int| 0 <= c < rows.len() ==> (#[trigger] rows@[c])@.len() == ndata,
        4 * (rows.len() * ndata) <= usize::MAX,
    ensures
        bytes.len() == 4 * (rows.len() * ndata),
        forall|k: int| 0 <= k < bytes.len() ==> #[trigger] bytes@[k] == output_byte(rows@, k),
{
    let mut bytes: Vec<u8> = Vec::new();
    let n: usize = rows.len();
    let mut at: usize = 0;
    assert(0 * n == 0) by (nonlinear_arith);
    while at < ndata
        invariant
            n == rows.len(),
            at <= ndata,
            forall|c: int| 0 <= c < rows.len() ==> (#[trigger] rows@[c])@.len() == ndata,
            4 * (n * ndata) <= usize::MAX,
            bytes.len() == 4 * (at * n),
            forall|k: int| 0 <= k < bytes.len() ==> #[trigger] bytes@[k] == output_byte(rows@, k),
        decreases ndata - at,
    {
        let mut c: usize = 0;
        while c < n
            invariant
                n == rows.len(),
                at < ndata,
                c <= n,
                forall|c: int| 0 <= c < rows.len() ==> (#[trigger] rows@[c])@.len() == ndata,
                4 * (n * ndata) <= usize::MAX,
                bytes.len() == 4 * (at * n + c),
                forall|k: int|
                    0 <= k < bytes.len() ==> #[trigger] bytes@[k] == output_byte(rows@, k),
            decreases n - c,
        {
            let bits: u32 = rows[c][at].0;
            let ghost w = at * n + c;
            let ghost before = bytes@;
            bytes.push((bits % 256) as u8);
            bytes.push((bits / 256 % 256) as u8);
            bytes.push((bits / 65536 % 256) as u8);
            bytes.push((bits / 16777216) as u8);
            proof {
                assert(w / (n as int) == at && w % (n as int) == c) by (nonlinear_arith)
                    requires
                        w == at * n + c,
                        0 <= c < n,
                ;
                assert forall|k: int| 0 <= k < bytes@.len() implies #[trigger] bytes@[k]
                    == output_byte(rows@, k) by {
                    if k < before.len() {
                        assert(bytes@[k] == before[k]);
                    } else {
                        assert(k / 4 == w);
                    }
                }
            }
            c += 1;
        }
        assert((at + 1) * n == at * n + n) by (nonlinear_arith);
        at += 1;
    }
    assert(ndata * n == n * ndata) by (nonlinear_arith);
    bytes
}

/// What is written can be read back: four bytes together, the lowest first, are the sample of a
/// component, and the components of a sample stand side by side in their order.
pub proof fn written_samples_are_read_back(rows: Seq<Vec<Single>>, ndata: int, c: int, at: int)
    requires
        0 <= c < rows.len(),
        0 <= at < ndata,
        rows[c]@.len() == ndata,
    ensures
        ({
            let k = 4 * (at * rows.len() + c);
            let value = output_byte(rows, k) + 256 * output_byte(rows, k + 1) + 65536 * output_byte(
                rows,
                k + 2,
            ) + 16777216 * output_byte(rows, k + 3);
            value == rows[c]@[at].0
        }),
{
    let n = rows.len() as int;
    let w = at * n + c;
    assert(w / n == at && w % n == c) by (nonlinear_arith)
        requires
            w == at * n + c,
            0 <= c < n,
            at >= 0,
    ;
    let k = 4 * w;
    assert(k / 4 == w && (k + 1) / 4 == w && (k + 2) / 4 == w && (k + 3) / 4 == w);
}

/// Reports can be put together in any order, and count what they all count.
pub proof fn reports_add_up(a: Census, b: Census, c: Census)
    requires
        a.fits(b),
        b.fits(c),
        a.with(b).fits(c),
        a.fits(b.with(c)),
    ensures
        a.with(b) == b.with(a),
        a.with(b).with(c) == a.with(b.with(c)),
        a.with(b).pairs_attempted - a.pairs_attempted == b.pairs_attempted,
        a.with(b).pairs_outside_record - a.pairs_outside_record == b.pairs_outside_record,
        a.with(b).samples_computed - a.samples_computed == b.samples_computed,
        a.with(b).samples_accumulated - a.samples_accumulated == b.samples_accumulated,
        a.with(a).transform_lengths == a.transform_lengths,
        a.with(b).transform_lengths == a.transform_lengths || a.with(b).transform_lengths
            == b.transform_lengths,
        a.transform_lengths <= a.with(b).transform_lengths,
{
}

/// An arrival is counted as lost where it overruns the record by any part of a sample, and leaves
/// the report alone where it does not; what it adds is a report of its own.
pub proof fn arrivals_are_reports(report: Clipping, overrun_samples: Single, overrun_s: Single)
    requires
        report.peaks_lost < usize::MAX,
        report.worst_overrun_s.ordered(),
        Single(0).at_most(report.worst_overrun_s),
        overrun_samples.ordered(),
    ensures
        overrun_samples.at_most(Single(0)) ==> report.after(overrun_samples, overrun_s) == report,
        !overrun_samples.at_most(Single(0)) ==> report.after(overrun_samples, overrun_s)
            == report.with(Clipping { peaks_lost: 1, worst_overrun_s: overrun_s }),
{
}

/// The larger of two numbers is one of them and no smaller than either.
pub proof fn the_larger_is_no_smaller(a: Single, b: Single)
    requires
        a.ordered(),
        b.ordered(),
    ensures
        a.value() <= larger(a, b).value(),
        b.value() <= larger(a, b).value(),
        larger(a, b) == a || larger(a, b) == b,
{
    reals::singles_are_ordered_by_value(a, b);
}

} // verus!
