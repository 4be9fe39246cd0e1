//! Site amplification: how deep the averaging column reaches, and which two table entries a
//! frequency lies between.

use vstd::prelude::*;

use crate::reals::Single;

verus! {

// ---------------------------------------------------------------------------
// The averaging column
// ---------------------------------------------------------------------------

/// Where a walk down from layer `at` ends: in the first layer through which a quarter period has
/// gone by, or in the source layer.
pub open spec fn column_end(
    times_s: Seq<Single>,
    quarter_s: Single,
    source_layer: int,
    at: int,
) -> int
    decreases times_s.len() - at,
{
    if at >= times_s.len() || quarter_s.at_most(times_s[at]) || at == source_layer {
        at
    } else {
        column_end(times_s, quarter_s, source_layer, at + 1)
    }
}

/// The layer in which the averaging column of a frequency ends.
///
/// `times_s[i]` is the travel time through the layers from 1 to `i`, and `quarter_s` a quarter of
/// the period. Layer 0 is the air: the walk starts below it. There must be an end to it: the
/// source layer below the air, or a layer through which a quarter period goes by.
pub fn column_layer(times_s: &Vec<Single>, quarter_s: Single, source_layer: usize) -> (layer: usize)
    requires
        column_end(times_s@, quarter_s, source_layer as int, 1) < times_s.len(),
    ensures
        layer == column_end(times_s@, quarter_s, source_layer as int, 1),
{
    let mut layer: usize = 1;
    while !(quarter_s.is_at_most(times_s[layer]) || layer == source_layer)
        invariant
            layer < times_s.len(),
            column_end(times_s@, quarter_s, source_layer as int, 1) == column_end(
                times_s@,
                quarter_s,
                source_layer as int,
                layer as int,
            ),
            column_end(times_s@, quarter_s, source_layer as int, 1) < times_s.len(),
        decreases times_s.len() - layer,
    {
        proof {
            column_ends_are_ahead(times_s@, quarter_s, source_layer as int, layer + 1);
        }
        layer += 1;
    }
    layer
}

/// The walk never goes below the source layer, and it ends wherever the source layer is below the
/// air.
pub proof fn columns_end_at_the_source(
    times_s: Seq<Single>,
    quarter_s: Single,
    source_layer: int,
    at: int,
)
    requires
        1 <= at <= source_layer < times_s.len(),
    ensures
        at <= column_end(times_s, quarter_s, source_layer, at) <= source_layer,
    decreases source_layer - at,
{
    if at < source_layer && !quarter_s.at_most(times_s[at]) {
        columns_end_at_the_source(times_s, quarter_s, source_layer, at + 1);
    }
}

/// A lower frequency looks no less deep: a longer quarter period ends no higher.
pub proof fn lower_frequencies_look_deeper(
    times_s: Seq<Single>,
    short_s: Single,
    long_s: Single,
    source_layer: int,
    at: int,
)
    requires
        short_s.at_most(long_s),
        0 <= at <= times_s.len(),
    ensures
        column_end(times_s, short_s, source_layer, at) <= column_end(
            times_s,
            long_s,
            source_layer,
            at,
        ),
    decreases times_s.len() - at,
{
    if at < times_s.len() && at != source_layer {
        if long_s.at_most(times_s[at]) {
            assert(short_s.at_most(times_s[at]));
        } else {
            lower_frequencies_look_deeper(times_s, short_s, long_s, source_layer, at + 1);
            column_ends_are_ahead(times_s, long_s, source_layer, at + 1);
        }
    }
}

/// A walk does not go up.
proof fn column_ends_are_ahead(
    times_s: Seq<Single>,
    quarter_s: Single,
    source_layer: int,
    at: int,
)
    ensures
        column_end(times_s, quarter_s, source_layer, at) >= at,
    decreases times_s.len() - at,
{
    if at < times_s.len() && !quarter_s.at_most(times_s[at]) && at != source_layer {
        column_ends_are_ahead(times_s, quarter_s, source_layer, at + 1);
    }
}

// ---------------------------------------------------------------------------
// The gain curve
// ---------------------------------------------------------------------------

/// Where the gain of one bin comes from.
#[derive(Clone, Copy, Debug, PartialEq, Eq, Structural)]
pub enum Bracket {
    /// One entry of the table as it is.
    Entry(usize),
    /// At or before the table's first frequency: flat at the first entry.
    Before,
    /// Between the entry before this one and this one.
    Within(usize),
    /// Past the table: flat at the last entry.
    Past,
}

/// Where the cursor stands for a frequency, having stood at `k`: it moves on past every entry
/// that is below.
pub open spec fn advanced(table: Seq<Single>, k: int, frequency: Single) -> int
    decreases table.len() - k,
{
    if k < table.len() && table[k].below(frequency) {
        advanced(table, k + 1, frequency)
    } else {
        k
    }
}

/// Where the cursor stands for bin `i`. It starts at the first entry, and bin zero has no
/// frequency to move it.
pub open spec fn cursor_at(frequencies: Seq<Single>, table: Seq<Single>, i: nat) -> int
    decreases i,
{
    if i == 0 {
        0
    } else {
        advanced(table, cursor_at(frequencies, table, (i - 1) as nat), frequencies[i as int])
    }
}

/// The bracket that a cursor stands for.
pub open spec fn bracket_of(count: int, cursor: int) -> Bracket {
    if cursor == 0 {
        Bracket::Before
    } else if cursor < count {
        Bracket::Within(cursor as usize)
    } else {
        Bracket::Past
    }
}

/// Where bin `i` of `bins` takes its gain: zero frequency from the bottom of the table, Nyquist
/// from the top, and what lies between from its bracket.
pub open spec fn gain_source(
    frequencies: Seq<Single>,
    table: Seq<Single>,
    bins: int,
    i: int,
) -> Bracket {
    if i == bins - 1 {
        Bracket::Entry((table.len() - 1) as usize)
    } else if i == 0 {
        Bracket::Entry(0)
    } else {
        bracket_of(table.len() as int, cursor_at(frequencies, table, i as nat))
    }
}

/// A cursor stays on the table or one past it, and does not move back.
proof fn cursors_advance(table: Seq<Single>, k: int, frequency: Single)
    requires
        0 <= k <= table.len(),
    ensures
        k <= advanced(table, k, frequency) <= table.len(),
        forall|j: int|
            k <= j < advanced(table, k, frequency) ==> (#[trigger] table[j]).below(frequency),
        advanced(table, k, frequency) < table.len() ==> !table[advanced(
            table,
            k,
            frequency,
        )].below(frequency),
    decreases table.len() - k,
{
    if k < table.len() && table[k].below(frequency) {
        cursors_advance(table, k + 1, frequency);
    }
}

/// Where each of `bins` bins takes its gain from a table of `ln` frequencies.
///
/// `frequencies[i]` is the `ln` frequency of bin `i`; that of bin zero is not read. The cursor only
/// moves forward, so the frequencies must ascend for the brackets to be the right ones.
pub fn site_gain_curve(
    frequencies: &Vec<Single>,
    table: &Vec<Single>,
    bins: usize,
) -> (curve: Vec<Bracket>)
    requires
        table.len() >= 1,
        1 <= bins,
        bins - 1 <= frequencies.len(),
    ensures
        curve.len() == bins,
        forall|i: int|
            0 <= i < bins ==> #[trigger] curve@[i] == gain_source(
                frequencies@,
                table@,
                bins as int,
                i,
            ),
{
    let mut curve: Vec<Bracket> = Vec::new();
    let mut cursor: usize = 0;
    let mut i: usize = 0;
    while i < bins
        invariant
            table.len() >= 1,
            1 <= bins,
            bins - 1 <= frequencies.len(),
            i <= bins,
            curve.len() == i,
            cursor <= table.len(),
            i < bins ==> cursor == cursor_at(
                frequencies@,
                table@,
                (if i == 0 { 0 } else { i - 1 }) as nat,
            ),
            forall|n: int|
                0 <= n < i ==> #[trigger] curve@[n] == gain_source(
                    frequencies@,
                    table@,
                    bins as int,
                    n,
                ),
        decreases bins - i,
    {
        if i == bins - 1 {
            curve.push(Bracket::Entry(table.len() - 1));
        } else if i == 0 {
            curve.push(Bracket::Entry(0));
        } else {
            let frequency: Single = frequencies[i];
            let ghost before = cursor as int;
            while cursor < table.len() && table[cursor].is_below(frequency)
                invariant
                    cursor <= table.len(),
                    advanced(table@, before, frequency) == advanced(
                        table@,
                        cursor as int,
                        frequency,
                    ),
                decreases table.len() - cursor,
            {
                cursor += 1;
            }
            curve.push(
                if cursor == 0 {
                    Bracket::Before
                } else if cursor < table.len() {
                    Bracket::Within(cursor)
                } else {
                    Bracket::Past
                },
            );
        }
        i += 1;
    }
    curve
}

/// Where the frequencies ascend, the cursor stands where a search of the whole table would: every
/// entry before it is below the bin's frequency, and the entry at it is not.
pub proof fn the_cursor_finds_the_bracket(frequencies: Seq<Single>, table: Seq<Single>, i: nat)
    requires
        1 <= i < frequencies.len(),
        forall|a: int, b: int|
            1 <= a <= b < frequencies.len() ==> (#[trigger] frequencies[a]).at_most(
                #[trigger] frequencies[b],
            ),
    ensures
        0 <= cursor_at(frequencies, table, i) <= table.len(),
        forall|j: int|
            0 <= j < cursor_at(frequencies, table, i) ==> (#[trigger] table[j]).below(
                frequencies[i as int],
            ),
        cursor_at(frequencies, table, i) < table.len() ==> !table[cursor_at(
            frequencies,
            table,
            i,
        )].below(frequencies[i as int]),
    decreases i,
{
    if i > 1 {
        the_cursor_finds_the_bracket(frequencies, table, (i - 1) as nat);
        assert(frequencies[i - 1].at_most(frequencies[i as int]));
    }
    let before = cursor_at(frequencies, table, (i - 1) as nat);
    cursors_advance(table, before, frequencies[i as int]);
    assert forall|j: int| 0 <= j < cursor_at(frequencies, table, i) implies (
    #[trigger] table[j]).below(frequencies[i as int]) by {
        if j < before {
            assert(table[j].below(frequencies[i - 1]));
        }
    }
}

/// A bin between zero frequency and Nyquist takes its gain from where its frequency lies: from the
/// first entry where it is no higher than that, from the last where it is higher than that, and
/// else between the two entries that it is between, the upper one included. Zero frequency takes
/// the first entry and Nyquist the last, whatever their frequencies.
pub proof fn bins_take_their_gain_where_they_lie(
    frequencies: Seq<Single>,
    table: Seq<Single>,
    bins: int,
    i: int,
    k: int,
)
    requires
        1 <= table.len() <= usize::MAX,
        2 <= bins,
        bins - 1 <= frequencies.len(),
        forall|a: int, b: int|
            1 <= a <= b < frequencies.len() ==> (#[trigger] frequencies[a]).at_most(
                #[trigger] frequencies[b],
            ),
        forall|a: int, b: int|
            0 <= a <= b < table.len() ==> (#[trigger] table[a]).at_most(#[trigger] table[b]),
    ensures
        gain_source(frequencies, table, bins, 0) == Bracket::Entry(0),
        gain_source(frequencies, table, bins, bins - 1) == Bracket::Entry(
            (table.len() - 1) as usize,
        ),
        1 <= i < bins - 1 ==> {
            let (f, source) = (frequencies[i], gain_source(frequencies, table, bins, i));
            &&& source == Bracket::Before <==> f.at_most(table[0])
            &&& source == Bracket::Past <==> table.last().below(f)
            &&& 1 <= k < table.len() ==> (source == Bracket::Within(k as usize)
                <==> table[k - 1].below(f) && f.at_most(table[k]))
        },
{
    if 1 <= i < bins - 1 {
        the_cursor_finds_the_bracket(frequencies, table, i as nat);
        let (f, c) = (frequencies[i], cursor_at(frequencies, table, i as nat));
        assert(f.at_most(f));
        assert(table[0].at_most(table.last()));
        if c > 0 {
            assert(table[c - 1].below(f));
            assert(table[0].at_most(table[c - 1]));
        }
        if c < table.len() {
            assert(table[c].at_most(table[c]));
            assert(f.at_most(table[c]));
            assert(table[c].at_most(table.last()));
        }
        if 1 <= k < table.len() {
            assert(table[k - 1].at_most(table[k]));
            if k < c {
                assert(table[k].below(f));
            } else if k > c {
                assert(table[c].at_most(table[k - 1]));
            }
        }
    }
}

/// The column of a frequency is as deep as it must be and no deeper: through every layer above its
/// last less than a quarter period goes by, and through its last a quarter period does, unless
/// the source is there.
pub proof fn columns_span_a_quarter_period(
    times_s: Seq<Single>,
    quarter_s: Single,
    source_layer: int,
    at: int,
)
    requires
        1 <= at <= source_layer < times_s.len(),
        quarter_s.ordered(),
        forall|i: int| 0 <= i < times_s.len() ==> (#[trigger] times_s[i]).ordered(),
    ensures
        ({
            let end = column_end(times_s, quarter_s, source_layer, at);
            &&& at <= end <= source_layer
            &&& forall|i: int| at <= i < end ==> (#[trigger] times_s[i]).below(quarter_s)
            &&& quarter_s.at_most(times_s[end]) || end == source_layer
        }),
    decreases source_layer - at,
{
    if at < source_layer && !quarter_s.at_most(times_s[at]) {
        columns_span_a_quarter_period(times_s, quarter_s, source_layer, at + 1);
    }
}

} // verus!
