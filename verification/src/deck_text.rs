//! The parameter deck as it is written: one word per field, each record with the fields that
//! belong together. What is written so is read back, every field under its own name.

use vstd::prelude::*;

use crate::deck;
use crate::number;
use crate::parameters;
use crate::parameters::{Deck, Fault, Item, Kind, Reading};
use crate::text;

verus! {

/// What a deck says: for each field the text that stands for it.
pub struct DeckText {
    pub stress_average: Seq<char>,
    pub asite: Seq<char>,
    pub outname: Seq<char>,
    /// The number of rays.
    pub nrtyp: Seq<char>,
    /// Their codes.
    pub irtype: Seq<Seq<char>>,
    pub isite_amp: Seq<char>,
    pub nbu: Seq<char>,
    pub iftt: Seq<char>,
    pub flol: Seq<char>,
    pub fhil: Seq<char>,
    pub irand: Seq<char>,
    pub nsite: Seq<char>,
    pub duration: Seq<char>,
    pub dt: Seq<char>,
    pub fmx: Seq<char>,
    pub akapp: Seq<char>,
    pub qfexp: Seq<char>,
    pub rvfac: Seq<char>,
    pub shal_rvfac: Seq<char>,
    pub deep_rvfac: Seq<char>,
    pub czero: Seq<char>,
    pub calpha: Seq<char>,
    pub sm: Seq<char>,
    pub vr: Seq<char>,
    pub slip_model: Seq<char>,
    pub velfile: Seq<char>,
    pub vsmoho: Seq<char>,
    pub nlskip: Seq<char>,
    pub vpsig: Seq<char>,
    pub vshsig: Seq<char>,
    pub rhosig: Seq<char>,
    pub qssig: Seq<char>,
    pub icflag: Seq<char>,
    pub velname: Seq<char>,
    pub fasig1: Seq<char>,
    pub fasig2: Seq<char>,
    pub rvsig1: Seq<char>,
    pub ipdur_model: Seq<char>,
    pub ispar_adjust: Seq<char>,
    pub targ_mag: Seq<char>,
    pub fault_area: Seq<char>,
    /// Where in the output file to write, or nothing.
    pub seek_bytes: Option<Seq<char>>,
}

/// Whether a word writes an integer.
#[verifier::opaque]
pub open spec fn writes_integer(word: Seq<char>) -> bool {
    deck::is_plain_word(word) && number::integer_value(number::normalised(word)) is Some
}

/// Whether a word writes this integer.
#[verifier::opaque]
pub open spec fn writes(word: Seq<char>, n: int) -> bool {
    number::integer_value(number::normalised(word)) == Some(n)
}

/// Whether a word writes a real.
#[verifier::opaque]
pub open spec fn writes_real(word: Seq<char>) -> bool {
    deck::is_plain_word(word) && number::is_real(number::normalised(word))
}

/// Whether a text can name a file: it holds no blank.
pub open spec fn names_file(name: Seq<char>) -> bool {
    forall|i: int| 0 <= i < name.len() ==> #[trigger] name[i] != ' '
}

impl DeckText {
    /// Whether each text is one that its field can have.
    pub open spec fn is_sound(self) -> bool {
        &&& writes_real(self.stress_average)
        &&& names_file(self.asite)
        &&& names_file(self.outname)
        &&& deck::is_plain_word(self.nrtyp)
        &&& writes(self.nrtyp, self.irtype.len() as int)
        &&& self.irtype.len() <= 100
        &&& forall|k: int| 0 <= k < self.irtype.len() ==> writes_integer(#[trigger] self.irtype[k])
        &&& writes_integer(self.isite_amp)
        &&& writes_integer(self.nbu)
        &&& writes_integer(self.iftt)
        &&& writes_real(self.flol)
        &&& writes_real(self.fhil)
        &&& writes_integer(self.irand)
        &&& writes_integer(self.nsite)
        &&& writes_real(self.duration)
        &&& writes_real(self.dt)
        &&& writes_real(self.fmx)
        &&& writes_real(self.akapp)
        &&& writes_real(self.qfexp)
        &&& writes_real(self.rvfac)
        &&& writes_real(self.shal_rvfac)
        &&& writes_real(self.deep_rvfac)
        &&& writes_real(self.czero)
        &&& writes_real(self.calpha)
        &&& writes_real(self.sm)
        &&& writes_real(self.vr)
        &&& names_file(self.slip_model)
        &&& names_file(self.velfile)
        &&& writes_real(self.vsmoho)
        &&& writes_integer(self.nlskip)
        &&& writes_real(self.vpsig)
        &&& writes_real(self.vshsig)
        &&& writes_real(self.rhosig)
        &&& writes_real(self.qssig)
        &&& writes_integer(self.icflag)
        &&& names_file(self.velname)
        &&& writes_real(self.fasig1)
        &&& writes_real(self.fasig2)
        &&& writes_real(self.rvsig1)
        &&& writes_integer(self.ipdur_model)
        &&& writes_integer(self.ispar_adjust)
        &&& writes_real(self.targ_mag)
        &&& writes_real(self.fault_area)
        &&& (self.seek_bytes matches Some(word) ==> writes_real(word))
    }

    /// The texts on record `i`.
    pub open spec fn words(self, i: int) -> Seq<Seq<char>> {
        if i == 0 {
            seq![self.stress_average]
        } else if i == 1 {
            seq![self.asite]
        } else if i == 2 {
            seq![self.outname]
        } else if i == 3 {
            seq![self.nrtyp] + self.irtype
        } else if i == 4 {
            seq![self.isite_amp]
        } else if i == 5 {
            seq![self.nbu, self.iftt, self.flol, self.fhil]
        } else if i == 6 {
            seq![self.irand]
        } else if i == 7 {
            seq![self.nsite]
        } else if i == 8 {
            seq![self.duration, self.dt, self.fmx, self.akapp, self.qfexp]
        } else if i == 9 {
            seq![self.rvfac, self.shal_rvfac, self.deep_rvfac, self.czero, self.calpha]
        } else if i == 10 {
            seq![self.sm, self.vr]
        } else if i == 11 {
            seq![self.slip_model]
        } else if i == 12 {
            seq![self.velfile]
        } else if i == 13 {
            seq![self.vsmoho]
        } else if i == 14 {
            seq![
                self.nlskip,
                self.vpsig,
                self.vshsig,
                self.rhosig,
                self.qssig,
                self.icflag,
            ]
        } else if i == 15 {
            seq![self.velname]
        } else if i == 16 {
            seq![self.fasig1, self.fasig2, self.rvsig1]
        } else if i == 17 {
            seq![self.ipdur_model]
        } else if i == 18 {
            seq![self.ispar_adjust, self.targ_mag, self.fault_area]
        } else {
            match self.seek_bytes {
                Some(word) => seq![word],
                None => Seq::empty(),
            }
        }
    }

    /// Record `i`: its texts and a remark after them, with gaps between. Where the place in the
    /// output file is left out, its record is a comma.
    pub open spec fn record(self, i: int, gap: Seq<char>, remark: Seq<Seq<char>>) -> Seq<char> {
        if i == 19 && self.seek_bytes is None {
            seq![',']
        } else {
            deck::joined(self.words(i) + remark, gap)
        }
    }

    /// Whether the deck stands on the records from `at` on: twenty of them. A gap starts with a
    /// blank, and a remark is made of words.
    pub open spec fn stands_at(
        self,
        records: Seq<Seq<char>>,
        at: int,
        gap: Seq<char>,
        remark: Seq<Seq<char>>,
    ) -> bool {
        &&& self.is_sound()
        &&& 0 <= at
        &&& at + 20 <= records.len()
        &&& deck::is_gap(gap)
        &&& gap[0] == ' '
        &&& forall|k: int| 0 <= k < remark.len() ==> deck::is_plain_word(#[trigger] remark[k])
        &&& forall|i: int|
            at <= i < at + 20 ==> #[trigger] records[i] == self.record(i - at, gap, remark)
    }

    /// Whether `deck` says what is written, field by field.
    pub open spec fn is_said_by(self, deck: Deck) -> bool {
        &&& deck.stress_average@ == number::normalised(self.stress_average)
        &&& deck.asite@ == self.asite
        &&& deck.outname@ == self.outname
        &&& deck.irtype@.len() == self.irtype.len()
        &&& forall|k: int|
            0 <= k < self.irtype.len() ==> writes(#[trigger] self.irtype[k], deck.irtype@[k] as int)
        &&& writes(self.isite_amp, deck.isite_amp as int)
        &&& writes(self.iftt, deck.iftt as int)
        &&& deck.fhil@ == number::normalised(self.fhil)
        &&& writes(self.irand, deck.irand as int)
        &&& writes(self.nsite, deck.nsite as int)
        &&& deck.duration@ == number::normalised(self.duration)
        &&& deck.dt@ == number::normalised(self.dt)
        &&& deck.fmx@ == number::normalised(self.fmx)
        &&& deck.akapp@ == number::normalised(self.akapp)
        &&& deck.qfexp@ == number::normalised(self.qfexp)
        &&& deck.rvfac@ == number::normalised(self.rvfac)
        &&& deck.shal_rvfac@ == number::normalised(self.shal_rvfac)
        &&& deck.deep_rvfac@ == number::normalised(self.deep_rvfac)
        &&& deck.czero@ == number::normalised(self.czero)
        &&& deck.calpha@ == number::normalised(self.calpha)
        &&& deck.sm@ == number::normalised(self.sm)
        &&& deck.vr@ == number::normalised(self.vr)
        &&& deck.slip_model@ == self.slip_model
        &&& deck.velfile@ == self.velfile
        &&& deck.vsmoho@ == number::normalised(self.vsmoho)
        &&& writes(self.nlskip, deck.nlskip as int)
        &&& deck.fasig1@ == number::normalised(self.fasig1)
        &&& deck.fasig2@ == number::normalised(self.fasig2)
        &&& deck.rvsig1@ == number::normalised(self.rvsig1)
        &&& writes(self.ipdur_model, deck.ipdur_model as int)
        &&& writes(self.ispar_adjust, deck.ispar_adjust as int)
        &&& deck.targ_mag@ == number::normalised(self.targ_mag)
        &&& deck.fault_area@ == number::normalised(self.fault_area)
        &&& match self.seek_bytes {
            Some(word) => deck.seek_bytes is Some && deck.seek_bytes->0@ == number::normalised(
                word,
            ),
            None => deck.seek_bytes is None,
        }
    }
}

// ---------------------------------------------------------------------------
// Reading a record back
// ---------------------------------------------------------------------------

/// The value that a word writes.
#[verifier::opaque]
spec fn value_of(kind: Kind, word: Seq<char>) -> Item {
    parameters::literal(kind, word)->Ok_0
}

/// Whether a word writes a value of this kind.
#[verifier::opaque]
spec fn writes_kind(kind: Kind, word: Seq<char>) -> bool {
    deck::is_plain_word(word) && parameters::literal(kind, word) is Ok
}

/// What integers and reals are written by is read as such.
proof fn numbers_are_read(word: Seq<char>)
    ensures
        writes_integer(word) ==> writes_kind(Kind::Integer, word) && value_of(
            Kind::Integer,
            word,
        ) is Integer && writes(word, value_of(Kind::Integer, word)->Integer_0),
        writes_real(word) ==> {
            &&& writes_kind(Kind::Single, word)
            &&& value_of(Kind::Single, word) == Item::Text(number::normalised(word))
            &&& writes_kind(Kind::Double, word)
            &&& value_of(Kind::Double, word) == Item::Text(number::normalised(word))
        },
{
    reveal(writes_integer);
    reveal(writes_real);
    reveal(writes);
    reveal(value_of);
    reveal(writes_kind);
}

/// The values that words write.
spec fn values_of(words: Seq<Seq<char>>, kinds: Seq<Kind>) -> Seq<Item> {
    Seq::new(kinds.len(), |j: int| value_of(kinds[j], words[j]))
}

/// Whether words write values of these kinds.
spec fn write_kinds(words: Seq<Seq<char>>, kinds: Seq<Kind>) -> bool {
    &&& words.len() == kinds.len()
    &&& forall|j: int| 0 <= j < words.len() ==> writes_kind(kinds[j], #[trigger] words[j])
}

/// A group whose words write values has those values.
proof fn groups_are_read(words: Seq<Seq<char>>, kinds: Seq<Kind>, k: nat)
    requires
        write_kinds(words, kinds),
        k <= words.len(),
    ensures
        parameters::group_of(Seq::new(words.len(), |i: int| Some(words[i])), kinds, k) == Ok::<
            _,
            Fault,
        >(values_of(words, kinds).take(k as int)),
    decreases k,
{
    let read = Seq::new(words.len(), |i: int| Some(words[i]));
    let values = values_of(words, kinds);
    if k == 0 {
        assert(values.take(0) =~= Seq::<Item>::empty());
    } else {
        groups_are_read(words, kinds, (k - 1) as nat);
        assert(writes_kind(kinds[k - 1], words[k - 1]));
        reveal(writes_kind);
        reveal(value_of);
        assert(parameters::text_of(read[k - 1]) == words[k - 1]);
        assert(values.take(k as int) =~= values.take(k - 1).push(values[k - 1]));
    }
}

/// The codes that words write.
spec fn codes_in(words: Seq<Seq<char>>) -> Seq<int> {
    Seq::new(words.len(), |k: int| number::integer_value(number::normalised(words[k]))->0)
}

/// Ray codes that are written are read.
proof fn rays_are_read(words: Seq<Seq<char>>, count: int, k: nat)
    requires
        k <= words.len() <= 100,
        forall|j: int| 0 <= j < words.len() ==> writes_integer(#[trigger] words[j]),
    ensures
        parameters::rays_of(Seq::new(words.len(), |i: int| Some(words[i])), count, k) == Ok::<
            _,
            Fault,
        >(codes_in(words).take(k as int)),
    decreases k,
{
    let read = Seq::new(words.len(), |i: int| Some(words[i]));
    let codes = codes_in(words);
    if k == 0 {
        assert(codes.take(0) =~= Seq::<int>::empty());
    } else {
        rays_are_read(words, count, (k - 1) as nat);
        assert(writes_integer(words[k - 1]));
        reveal(writes_integer);
        assert(parameters::text_of(read[k - 1]) == words[k - 1]);
        assert(codes.take(k as int) =~= codes.take(k - 1).push(codes[k - 1]));
    }
}

/// A name is read up to its first blank: the remark after it does not belong to it.
proof fn names_are_read(name: Seq<char>, remark: Seq<Seq<char>>, gap: Seq<char>)
    requires
        names_file(name),
        deck::is_gap(gap),
        gap[0] == ' ',
    ensures
        ({
            let record = deck::joined(seq![name] + remark, gap);
            record.take(text::first_of(record, set![' '], 0)) == name
        }),
{
    let words = seq![name] + remark;
    let record = deck::joined(words, gap);
    let end = name.len() as int;
    assert(words[0] == name);
    if words.len() > 1 {
        assert(record == name + (gap + deck::joined(words.skip(1), gap)));
        assert(record[end] == gap[0]);
    }
    assert forall|i: int| 0 <= i < end implies !set![' '].contains(#[trigger] record[i]) by {
        assert(record[i] == name[i]);
    }
    text::first_of_unique(record, set![' '], 0, end);
    assert(record.take(end) =~= name);
}

/// The values on record `i`.
#[verifier::opaque]
spec fn values_on(t: DeckText, i: int) -> Seq<Item> {
    match parameters::reading_at(i) {
        Reading::Name => seq![Item::Text(t.words(i)[0])],
        Reading::Rays => seq![Item::Rays(codes_in(t.irtype))],
        Reading::Optional => if t.seek_bytes is None {
            seq![Item::Unset]
        } else {
            values_of(t.words(i), parameters::kinds_at(i))
        },
        _ => values_of(t.words(i), parameters::kinds_at(i)),
    }
}

/// The words of a record write values of the kinds that are wanted there.
proof fn records_write_their_kinds(t: DeckText, i: int)
    requires
        t.is_sound(),
        0 <= i < 20,
        parameters::reading_at(i) == Reading::Item || parameters::reading_at(i) == Reading::Group
            || (i == 19 && t.seek_bytes is Some),
    ensures
        write_kinds(t.words(i), parameters::kinds_at(i)),
{
    let words = t.words(i);
    let kinds = parameters::kinds_at(i);
    assert(words.len() == kinds.len());
    assert forall|j: int| 0 <= j < words.len() implies writes_kind(
        kinds[j],
        #[trigger] words[j],
    ) by {
        numbers_are_read(words[j]);
        assert(j == 0 || j == 1 || j == 2 || j == 3 || j == 4 || j == 5);
    }
}

/// Whether the words of a record and its remark stand at `at`.
spec fn stand_on(
    records: Seq<Seq<char>>,
    at: int,
    words: Seq<Seq<char>>,
    remark: Seq<Seq<char>>,
    gap: Seq<char>,
) -> bool {
    &&& 0 <= at < records.len()
    &&& deck::is_gap(gap)
    &&& records[at] == deck::joined(words + remark, gap)
    &&& forall|k: int| 0 <= k < words.len() ==> deck::is_plain_word(#[trigger] words[k])
    &&& forall|k: int| 0 <= k < remark.len() ==> deck::is_plain_word(#[trigger] remark[k])
}

/// The words of a record are read, without its remark.
proof fn words_are_read(
    records: Seq<Seq<char>>,
    at: int,
    words: Seq<Seq<char>>,
    remark: Seq<Seq<char>>,
    gap: Seq<char>,
    n: nat,
)
    requires
        stand_on(records, at, words, remark, gap),
        1 <= n <= words.len(),
    ensures
        deck::list_read(records, at, n) == Ok::<_, nat>(
            (Seq::new(n, |i: int| Some(words[i])), at + 1),
        ),
{
    let all = words + remark;
    assert forall|k: int| 0 <= k < all.len() implies deck::is_plain_word(#[trigger] all[k]) by {
        if k < words.len() {
            assert(all[k] == words[k]);
        } else {
            assert(all[k] == remark[k - words.len()]);
        }
    }
    deck::a_read_takes_the_words_of_its_record(records, at, all, gap, n);
    assert(Seq::new(n, |i: int| Some(all[i])) =~= Seq::new(n, |i: int| Some(words[i])));
}

/// The values that a record's words write are read from it.
proof fn values_are_read(
    records: Seq<Seq<char>>,
    at: int,
    words: Seq<Seq<char>>,
    remark: Seq<Seq<char>>,
    gap: Seq<char>,
    i: int,
)
    requires
        stand_on(records, at, words, remark, gap),
        write_kinds(words, parameters::kinds_at(i)),
        parameters::reading_at(i) != Reading::Name,
        parameters::reading_at(i) != Reading::Rays,
    ensures
        parameters::one_read(records, at, i) == (
            Ok::<_, Fault>(values_of(words, parameters::kinds_at(i))),
            at + 1,
        ),
{
    let kinds = parameters::kinds_at(i);
    let n = kinds.len();
    let values = values_of(words, kinds);
    let read = Seq::new(n, |k: int| Some(words[k]));
    words_are_read(records, at, words, remark, gap, n);
    match parameters::reading_at(i) {
        Reading::Group => {
            groups_are_read(words, kinds, n);
            assert(values.take(n as int) =~= values);
        },
        _ => {
            assert(n == 1);
            assert(writes_kind(kinds[0], words[0]));
            reveal(writes_kind);
            reveal(value_of);
            assert(read[0] == Some(words[0]));
            assert(values =~= seq![parameters::literal(kinds[0], words[0])->Ok_0]);
        },
    }
}

/// The codes of the rays are read.
proof fn ray_codes_are_read(
    t: DeckText,
    records: Seq<Seq<char>>,
    at: int,
    remark: Seq<Seq<char>>,
    gap: Seq<char>,
)
    requires
        stand_on(records, at, seq![t.nrtyp] + t.irtype, remark, gap),
        writes(t.nrtyp, t.irtype.len() as int),
        t.irtype.len() <= 100,
        forall|k: int| 0 <= k < t.irtype.len() ==> writes_integer(#[trigger] t.irtype[k]),
    ensures
        parameters::one_read(records, at, 3) == (
            Ok::<_, Fault>(seq![Item::Rays(codes_in(t.irtype))]),
            at + 1,
        ),
{
    let words = seq![t.nrtyp] + t.irtype;
    let n = words.len();
    words_are_read(records, at, words, remark, gap, 1);
    words_are_read(records, at, words, remark, gap, n);
    let first = Seq::new(1, |k: int| Some(words[k]));
    assert(first[0] == Some(t.nrtyp));
    reveal(writes);
    let read = Seq::new(n, |k: int| Some(words[k]));
    let codes = Seq::new(t.irtype.len(), |k: int| Some(t.irtype[k]));
    assert(deck::filled(read.skip(1), t.irtype.len()) =~= codes);
    rays_are_read(t.irtype, t.irtype.len() as int, t.irtype.len());
    assert(codes_in(t.irtype).take(t.irtype.len() as int) =~= codes_in(t.irtype));
}

/// What is written on a record is read from it, and the next read starts at the next record.
proof fn records_are_read(
    t: DeckText,
    records: Seq<Seq<char>>,
    at: int,
    gap: Seq<char>,
    remark: Seq<Seq<char>>,
    i: int,
)
    requires
        t.stands_at(records, at, gap, remark),
        0 <= i < 20,
    ensures
        parameters::one_read(records, at + i, i) == (
            Ok::<_, Fault>(values_on(t, i)),
            at + i + 1,
        ),
{
    reveal(values_on);
    let words = t.words(i);
    let record = records[at + i];
    assert(record == t.record(i, gap, remark));
    match parameters::reading_at(i) {
        Reading::Name => {
            let name = words[0];
            assert(names_file(name));
            assert(words =~= seq![name]);
            names_are_read(name, remark, gap);
        },
        Reading::Rays => {
            assert forall|k: int| 0 <= k < words.len() implies deck::is_plain_word(
                #[trigger] words[k],
            ) by {
                if k > 0 {
                    assert(writes_integer(t.irtype[k - 1]));
                    reveal(writes_integer);
                }
            }
            ray_codes_are_read(t, records, at + i, remark, gap);
        },
        _ => {
            if i == 19 && t.seek_bytes is None {
                commas_leave_out(records, at + i);
            } else {
                records_write_their_kinds(t, i);
                assert forall|k: int| 0 <= k < words.len() implies deck::is_plain_word(
                    #[trigger] words[k],
                ) by {
                    assert(writes_kind(parameters::kinds_at(i)[k], words[k]));
                    reveal(writes_kind);
                }
                values_are_read(records, at + i, words, remark, gap, i);
            }
        },
    }
}

/// A comma alone on a record leaves its item out.
proof fn commas_leave_out(records: Seq<Seq<char>>, at: int)
    requires
        0 <= at < records.len(),
        records[at] == seq![','],
    ensures
        deck::list_read(records, at, 1) == Ok::<_, nat>((seq![None::<Seq<char>>], at + 1)),
{
    let line = records[at];
    let none = Seq::<Option<Seq<char>>>::empty();
    reveal_with_fuel(deck::symbols_from, 2);
    reveal_with_fuel(deck::read_from, 2);
    let symbols = deck::line_symbols(line);
    assert(symbols =~= seq![deck::Symbol::Null]);
    assert(symbols.skip(1) =~= Seq::<deck::Symbol>::empty());
    assert(deck::items_of(symbols.skip(1)) =~= none);
    assert(none + deck::items_of(symbols) =~= seq![None::<Seq<char>>]);
}

/// The values on the first `n` records.
spec fn values_before(t: DeckText, n: nat) -> Seq<Item>
    decreases n,
{
    if n == 0 {
        Seq::empty()
    } else {
        values_before(t, (n - 1) as nat) + values_on(t, n - 1)
    }
}

/// The first `n` records are read, one by each read.
proof fn first_records_are_read(
    t: DeckText,
    records: Seq<Seq<char>>,
    at: int,
    gap: Seq<char>,
    remark: Seq<Seq<char>>,
    n: nat,
)
    requires
        t.stands_at(records, at, gap, remark),
        n <= 20,
    ensures
        parameters::reads(records, at, n) == (
            Ok::<_, Fault>(values_before(t, n)),
            at + n,
        ),
    decreases n,
{
    if n > 0 {
        first_records_are_read(t, records, at, gap, remark, (n - 1) as nat);
        records_are_read(t, records, at, gap, remark, n - 1);
    }
}

/// How many values the records before record `i` hold.
spec fn place(i: int) -> int {
    if i <= 5 {
        i
    } else if i <= 8 {
        i + 3
    } else if i == 9 {
        16
    } else if i == 10 {
        21
    } else if i <= 14 {
        i + 12
    } else if i <= 16 {
        i + 17
    } else if i <= 18 {
        i + 19
    } else if i == 19 {
        40
    } else {
        41
    }
}

/// A record holds as many values as there are places for.
proof fn records_fill_their_places(t: DeckText, i: int)
    requires
        0 <= i < 20,
    ensures
        values_on(t, i).len() == place(i + 1) - place(i),
{
    reveal(values_on);
}

/// The values of a record stand where those before it end.
proof fn values_fill_their_places(t: DeckText, n: nat)
    requires
        n <= 20,
    ensures
        values_before(t, n).len() == place(n as int),
    decreases n,
{
    if n > 0 {
        values_fill_their_places(t, (n - 1) as nat);
        records_fill_their_places(t, n - 1);
    }
}

/// The values of a record keep their places, however many follow.
proof fn values_keep_their_places(t: DeckText, i: int, n: nat, k: int)
    requires
        0 <= i < n <= 20,
        0 <= k < place(i + 1) - place(i),
    ensures
        values_before(t, n)[place(i) + k] == values_on(t, i)[k],
    decreases n,
{
    values_fill_their_places(t, (n - 1) as nat);
    records_fill_their_places(t, n - 1);
    if i < n - 1 {
        values_keep_their_places(t, i, (n - 1) as nat, k);
    }
}

/// The value of word `k` on record `i` stands in its place.
proof fn words_have_their_places(t: DeckText, i: int, k: int)
    requires
        0 <= i < 20,
        parameters::reading_at(i) == Reading::Item || parameters::reading_at(i) == Reading::Group
            || (i == 19 && t.seek_bytes is Some),
        0 <= k < place(i + 1) - place(i),
    ensures
        values_before(t, 20)[place(i) + k] == value_of(parameters::kinds_at(i)[k], t.words(i)[k]),
{
    values_keep_their_places(t, i, 20, k);
    reveal(values_on);
}

/// A name stands in its place.
proof fn names_have_their_places(t: DeckText, i: int)
    requires
        0 <= i < 20,
        parameters::reading_at(i) == Reading::Name,
    ensures
        values_before(t, 20)[place(i)] == Item::Text(t.words(i)[0]),
{
    values_keep_their_places(t, i, 20, 0);
    reveal(values_on);
}

/// The names, the rays and the fields before them stand in their places.
proof fn names_in_place(t: DeckText)
    requires
        t.is_sound(),
    ensures
        values_before(t, 20)[0] == Item::Text(number::normalised(t.stress_average)),
        values_before(t, 20)[1] == Item::Text(t.asite),
        values_before(t, 20)[2] == Item::Text(t.outname),
        values_before(t, 20)[3] == Item::Rays(codes_in(t.irtype)),
        values_before(t, 20)[23] == Item::Text(t.slip_model),
        values_before(t, 20)[24] == Item::Text(t.velfile),
{
    words_have_their_places(t, 0, 0);
    numbers_are_read(t.stress_average);
    names_have_their_places(t, 1);
    names_have_their_places(t, 2);
    values_keep_their_places(t, 3, 20, 0);
    reveal(values_on);
    names_have_their_places(t, 11);
    names_have_their_places(t, 12);
}

/// The fields that stand alone on their records, and the filter's, stand in their places.
proof fn numbers_in_place(t: DeckText)
    requires
        t.is_sound(),
    ensures
        writes(t.isite_amp, parameters::integer_in(values_before(t, 20)[4])),
        writes(t.iftt, parameters::integer_in(values_before(t, 20)[6])),
        values_before(t, 20)[8] == Item::Text(number::normalised(t.fhil)),
        writes(t.irand, parameters::integer_in(values_before(t, 20)[9])),
        writes(t.nsite, parameters::integer_in(values_before(t, 20)[10])),
        values_before(t, 20)[25] == Item::Text(number::normalised(t.vsmoho)),
        writes(t.ipdur_model, parameters::integer_in(values_before(t, 20)[36])),
{
    words_have_their_places(t, 4, 0);
    numbers_are_read(t.isite_amp);
    words_have_their_places(t, 5, 1);
    numbers_are_read(t.iftt);
    words_have_their_places(t, 5, 3);
    numbers_are_read(t.fhil);
    words_have_their_places(t, 6, 0);
    numbers_are_read(t.irand);
    words_have_their_places(t, 7, 0);
    numbers_are_read(t.nsite);
    words_have_their_places(t, 13, 0);
    numbers_are_read(t.vsmoho);
    words_have_their_places(t, 17, 0);
    numbers_are_read(t.ipdur_model);
}

/// The fields of the record stand in their places.
proof fn records_in_place(t: DeckText)
    requires
        t.is_sound(),
    ensures
        values_before(t, 20)[11] == Item::Text(number::normalised(t.duration)),
        values_before(t, 20)[12] == Item::Text(number::normalised(t.dt)),
        values_before(t, 20)[13] == Item::Text(number::normalised(t.fmx)),
        values_before(t, 20)[14] == Item::Text(number::normalised(t.akapp)),
        values_before(t, 20)[15] == Item::Text(number::normalised(t.qfexp)),
{
    words_have_their_places(t, 8, 0);
    numbers_are_read(t.duration);
    words_have_their_places(t, 8, 1);
    numbers_are_read(t.dt);
    words_have_their_places(t, 8, 2);
    numbers_are_read(t.fmx);
    words_have_their_places(t, 8, 3);
    numbers_are_read(t.akapp);
    words_have_their_places(t, 8, 4);
    numbers_are_read(t.qfexp);
}

/// The factors and the moment stand in their places.
proof fn factors_in_place(t: DeckText)
    requires
        t.is_sound(),
    ensures
        values_before(t, 20)[16] == Item::Text(number::normalised(t.rvfac)),
        values_before(t, 20)[17] == Item::Text(number::normalised(t.shal_rvfac)),
        values_before(t, 20)[18] == Item::Text(number::normalised(t.deep_rvfac)),
        values_before(t, 20)[19] == Item::Text(number::normalised(t.czero)),
        values_before(t, 20)[20] == Item::Text(number::normalised(t.calpha)),
        values_before(t, 20)[21] == Item::Text(number::normalised(t.sm)),
        values_before(t, 20)[22] == Item::Text(number::normalised(t.vr)),
{
    words_have_their_places(t, 9, 0);
    numbers_are_read(t.rvfac);
    words_have_their_places(t, 9, 1);
    numbers_are_read(t.shal_rvfac);
    words_have_their_places(t, 9, 2);
    numbers_are_read(t.deep_rvfac);
    words_have_their_places(t, 9, 3);
    numbers_are_read(t.czero);
    words_have_their_places(t, 9, 4);
    numbers_are_read(t.calpha);
    words_have_their_places(t, 10, 0);
    numbers_are_read(t.sm);
    words_have_their_places(t, 10, 1);
    numbers_are_read(t.vr);
}

/// The skipped layers, the sigmas and the adjustment stand in their places.
proof fn sigmas_in_place(t: DeckText)
    requires
        t.is_sound(),
    ensures
        writes(t.nlskip, parameters::integer_in(values_before(t, 20)[26])),
        values_before(t, 20)[33] == Item::Text(number::normalised(t.fasig1)),
        values_before(t, 20)[34] == Item::Text(number::normalised(t.fasig2)),
        values_before(t, 20)[35] == Item::Text(number::normalised(t.rvsig1)),
        writes(t.ispar_adjust, parameters::integer_in(values_before(t, 20)[37])),
        values_before(t, 20)[38] == Item::Text(number::normalised(t.targ_mag)),
        values_before(t, 20)[39] == Item::Text(number::normalised(t.fault_area)),
{
    words_have_their_places(t, 14, 0);
    numbers_are_read(t.nlskip);
    words_have_their_places(t, 16, 0);
    numbers_are_read(t.fasig1);
    words_have_their_places(t, 16, 1);
    numbers_are_read(t.fasig2);
    words_have_their_places(t, 16, 2);
    numbers_are_read(t.rvsig1);
    words_have_their_places(t, 18, 0);
    numbers_are_read(t.ispar_adjust);
    words_have_their_places(t, 18, 1);
    numbers_are_read(t.targ_mag);
    words_have_their_places(t, 18, 2);
    numbers_are_read(t.fault_area);
}

/// A deck that is written field by field is read back field by field: the read succeeds, ends
/// after its twenty records, and every field of the deck has the value of the text that was
/// written for it, and of no other.
pub proof fn decks_are_read_back(
    t: DeckText,
    records: Seq<Seq<char>>,
    at: int,
    gap: Seq<char>,
    remark: Seq<Seq<char>>,
    deck: Deck,
)
    requires
        t.stands_at(records, at, gap, remark),
    ensures
        parameters::reads(records, at, parameters::READS as nat).0 is Ok,
        parameters::reads(records, at, parameters::READS as nat).1 == at + 20,
        deck.holds(parameters::reads(records, at, parameters::READS as nat).0->Ok_0)
            ==> t.is_said_by(deck),
{
    first_records_are_read(t, records, at, gap, remark, 20);
    let items = values_before(t, 20);
    names_in_place(t);
    numbers_in_place(t);
    records_in_place(t);
    factors_in_place(t);
    sigmas_in_place(t);
    values_keep_their_places(t, 19, 20, 0);
    assert(t.seek_bytes matches Some(word) ==> items[40] == Item::Text(number::normalised(word)))
        by {
        reveal(values_on);
        if t.seek_bytes is Some {
            numbers_are_read(t.seek_bytes->0);
        }
    }
    assert(t.seek_bytes is None ==> items[40] == Item::Unset) by {
        reveal(values_on);
    }
    if deck.holds(items) {
        assert forall|k: int| 0 <= k < t.irtype.len() implies writes(
            #[trigger] t.irtype[k],
            deck.irtype@[k] as int,
        ) by {
            assert(writes_integer(t.irtype[k]));
            reveal(writes_integer);
            reveal(writes);
            assert(parameters::codes_of(deck.irtype@)[k] == codes_in(t.irtype)[k]);
        }
        assert(parameters::codes_of(deck.irtype@).len() == t.irtype.len());
    }
}

/// A deck that asks for more than a hundred rays is refused for that, once its hundred and first
/// code has been read as a number.
pub proof fn more_than_a_hundred_rays_are_refused(words: Seq<Seq<char>>, count: int)
    requires
        words.len() > 100,
        forall|j: int| 0 <= j < words.len() ==> writes_integer(#[trigger] words[j]),
    ensures
        parameters::rays_of(
            Seq::new(words.len(), |i: int| Some(words[i])),
            count,
            words.len(),
        ) == Err::<Seq<int>, _>(Fault::TooManyRays { count }),
{
    too_many_rays_stay_too_many(words, count, words.len());
}

/// From the hundred and first code on there are too many.
proof fn too_many_rays_stay_too_many(words: Seq<Seq<char>>, count: int, k: nat)
    requires
        100 < k <= words.len(),
        forall|j: int| 0 <= j < words.len() ==> writes_integer(#[trigger] words[j]),
    ensures
        parameters::rays_of(Seq::new(words.len(), |i: int| Some(words[i])), count, k) == Err::<
            Seq<int>,
            _,
        >(Fault::TooManyRays { count }),
    decreases k,
{
    let read = Seq::new(words.len(), |i: int| Some(words[i]));
    if k > 101 {
        too_many_rays_stay_too_many(words, count, (k - 1) as nat);
    } else {
        let first = words.take(100);
        assert forall|j: int| 0 <= j < first.len() implies writes_integer(#[trigger] first[j]) by {
            assert(first[j] == words[j]);
        }
        rays_are_read(first, count, 100);
        fewer_rays_are_read_alike(words, count, 100);
        assert(writes_integer(words[100]));
        reveal(writes_integer);
        assert(parameters::text_of(read[100]) == words[100]);
    }
}

/// The first codes of a list are read as if no others followed.
proof fn fewer_rays_are_read_alike(words: Seq<Seq<char>>, count: int, k: nat)
    requires
        k <= 100 <= words.len(),
    ensures
        parameters::rays_of(Seq::new(words.len(), |i: int| Some(words[i])), count, k)
            == parameters::rays_of(
            Seq::new(words.take(100).len(), |i: int| Some(words.take(100)[i])),
            count,
            k,
        ),
    decreases k,
{
    if k > 0 {
        fewer_rays_are_read_alike(words, count, (k - 1) as nat);
    }
}

} // verus!
