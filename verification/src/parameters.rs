//! The parameter deck: which fields it holds, in which order, and what stands for a field that
//! is left out.
//!
//! The order is all that binds a value to its field. A read spans records, so one item too many
//! or too few binds everything after it to another field.

use vstd::arithmetic::power2::*;
use vstd::prelude::*;

use crate::deck;
use crate::deck::{parse_f32, parse_f64, parse_i32, DeckError, ListReader};
use crate::deck_text;
use crate::deck_text::DeckText;
use crate::number;
use crate::reals;
use crate::reals::{Double, Single};
use crate::text;

verus! {

// ---------------------------------------------------------------------------
// The layout
// ---------------------------------------------------------------------------

/// The kind of an item.
#[derive(Clone, Copy, Debug, PartialEq, Eq, Structural)]
pub enum Kind {
    Integer,
    /// A real of single precision.
    Single,
    /// A real of double precision.
    Double,
}

/// How one read of the deck goes.
#[derive(Clone, Copy, Debug, PartialEq, Eq, Structural)]
pub enum Reading {
    /// A file name, on a record of its own.
    Name,
    /// A number of rays, and their codes.
    Rays,
    /// One item.
    Item,
    /// Several items.
    Group,
    /// One item that may be left out.
    Optional,
}

/// How many reads the deck takes.
pub const READS: usize = 20;

/// How many rays the deck can request.
pub const RAY_LIMIT: usize = 100;

/// How read `i` goes.
pub open spec fn reading_at(i: int) -> Reading {
    if i == 1 || i == 2 || i == 11 || i == 12 || i == 15 {
        Reading::Name
    } else if i == 3 {
        Reading::Rays
    } else if i == 5 || i == 8 || i == 9 || i == 10 || i == 14 || i == 16 || i == 18 {
        Reading::Group
    } else if i == 19 {
        Reading::Optional
    } else {
        Reading::Item
    }
}

/// The kinds of the items of read `i`.
pub open spec fn kinds_at(i: int) -> Seq<Kind> {
    if i == 0 {
        seq![Kind::Single]
    } else if i == 5 {
        seq![Kind::Integer, Kind::Integer, Kind::Single, Kind::Single]
    } else if i == 8 || i == 9 {
        seq![Kind::Single, Kind::Single, Kind::Single, Kind::Single, Kind::Single]
    } else if i == 10 {
        seq![Kind::Single, Kind::Single]
    } else if i == 13 || i == 19 {
        seq![Kind::Double]
    } else if i == 14 {
        seq![
            Kind::Integer,
            Kind::Single,
            Kind::Single,
            Kind::Single,
            Kind::Single,
            Kind::Integer,
        ]
    } else if i == 16 {
        seq![Kind::Single, Kind::Single, Kind::Single]
    } else if i == 18 {
        seq![Kind::Integer, Kind::Single, Kind::Single]
    } else {
        seq![Kind::Integer]
    }
}

/// How read `i` goes.
fn reading_of(i: usize) -> (r: Reading)
    ensures
        r == reading_at(i as int),
{
    if i == 1 || i == 2 || i == 11 || i == 12 || i == 15 {
        Reading::Name
    } else if i == 3 {
        Reading::Rays
    } else if i == 5 || i == 8 || i == 9 || i == 10 || i == 14 || i == 16 || i == 18 {
        Reading::Group
    } else if i == 19 {
        Reading::Optional
    } else {
        Reading::Item
    }
}

/// The kinds of the items of read `i`.
fn kinds_of(i: usize) -> (kinds: Vec<Kind>)
    ensures
        kinds@ == kinds_at(i as int),
        kinds.len() >= 1,
{
    let kinds = if i == 0 {
        vec![Kind::Single]
    } else if i == 5 {
        vec![Kind::Integer, Kind::Integer, Kind::Single, Kind::Single]
    } else if i == 8 || i == 9 {
        vec![Kind::Single, Kind::Single, Kind::Single, Kind::Single, Kind::Single]
    } else if i == 10 {
        vec![Kind::Single, Kind::Single]
    } else if i == 13 || i == 19 {
        vec![Kind::Double]
    } else if i == 14 {
        vec![
            Kind::Integer,
            Kind::Single,
            Kind::Single,
            Kind::Single,
            Kind::Single,
            Kind::Integer,
        ]
    } else if i == 16 {
        vec![Kind::Single, Kind::Single, Kind::Single]
    } else if i == 18 {
        vec![Kind::Integer, Kind::Single, Kind::Single]
    } else {
        vec![Kind::Integer]
    };
    assert(kinds@ =~= kinds_at(i as int));
    kinds
}

// ---------------------------------------------------------------------------
// What a read gives
// ---------------------------------------------------------------------------

/// One value of the deck.
pub enum Value {
    /// A file name, or the literal of a real.
    Text(String),
    Integer(i32),
    /// The codes of the requested rays.
    Rays(Vec<i32>),
    /// Left out.
    Unset,
}

/// A [`Value`], over sequences and integers.
pub enum Item {
    Text(Seq<char>),
    Integer(int),
    Rays(Seq<int>),
    Unset,
}

/// Why a deck cannot be read.
#[derive(Debug)]
pub enum DeckFault {
    /// A read failed.
    Refused(DeckError),
    /// A read lacks one of the items that it must have: a slash ended it before, or the rays were
    /// announced by a negative number.
    Missing { item: usize },
    /// More rays than the deck can request.
    TooManyRays { count: i32 },
}

/// A [`DeckFault`], over sequences and integers.
pub enum Fault {
    Eof { wanted: nat, got: nat },
    Bad { token: Seq<char>, kind: Seq<char> },
    Missing { item: nat },
    TooManyRays { count: int },
}

impl View for Value {
    type V = Item;

    open spec fn view(&self) -> Item {
        match self {
            Value::Text(s) => Item::Text(s@),
            Value::Integer(n) => Item::Integer(*n as int),
            Value::Rays(codes) => Item::Rays(codes_of(codes@)),
            Value::Unset => Item::Unset,
        }
    }
}

/// Ray codes as integers.
pub open spec fn codes_of(codes: Seq<i32>) -> Seq<int> {
    Seq::new(codes.len(), |i: int| codes[i] as int)
}

/// The values of a sequence.
pub open spec fn items_of(values: Seq<Value>) -> Seq<Item> {
    Seq::new(values.len(), |i: int| values[i]@)
}

/// Whether an error is this fault.
pub open spec fn is_refusal(e: DeckError, fault: Fault) -> bool {
    match fault {
        Fault::Eof { wanted, got } => e == (DeckError::UnexpectedEof {
            wanted: wanted as usize,
            got: got as usize,
        }),
        Fault::Bad { token, kind } => e matches DeckError::BadNumber { token: t, kind: k } && t@
            == token && k@ == kind,
        _ => false,
    }
}

impl DeckFault {
    /// Whether this is that fault.
    pub open spec fn is_fault(self, fault: Fault) -> bool {
        match self {
            DeckFault::Refused(e) => is_refusal(e, fault),
            DeckFault::Missing { item } => fault == (Fault::Missing { item: item as nat }),
            DeckFault::TooManyRays { count } => fault == (Fault::TooManyRays {
                count: count as int,
            }),
        }
    }
}

/// The text of an item. An empty place has none.
pub open spec fn text_of(item: Option<Seq<char>>) -> Seq<char> {
    match item {
        Some(s) => s,
        None => Seq::empty(),
    }
}

/// The value that a token writes.
pub open spec fn literal(kind: Kind, token: Seq<char>) -> Result<Item, Fault> {
    match kind {
        Kind::Integer => match number::integer_value(number::normalised(token)) {
            Some(n) => Ok(Item::Integer(n)),
            None => Err(Fault::Bad { token, kind: "integer"@ }),
        },
        Kind::Single => if number::is_real(number::normalised(token)) {
            Ok(Item::Text(number::normalised(token)))
        } else {
            Err(Fault::Bad { token, kind: "real*4"@ })
        },
        Kind::Double => if number::is_real(number::normalised(token)) {
            Ok(Item::Text(number::normalised(token)))
        } else {
            Err(Fault::Bad { token, kind: "real*8"@ })
        },
    }
}

/// The first `k` values of a group. The first item that is missing or no value decides.
pub open spec fn group_of(
    read: Seq<Option<Seq<char>>>,
    kinds: Seq<Kind>,
    k: nat,
) -> Result<Seq<Item>, Fault>
    decreases k,
{
    if k == 0 {
        Ok(Seq::empty())
    } else {
        match group_of(read, kinds, (k - 1) as nat) {
            Err(fault) => Err(fault),
            Ok(before) => if k > read.len() {
                Err(Fault::Missing { item: (k - 1) as nat })
            } else {
                match literal(kinds[k - 1], text_of(read[k - 1])) {
                    Ok(item) => Ok(before.push(item)),
                    Err(fault) => Err(fault),
                }
            },
        }
    }
}

/// The first `k` ray codes of a list, where `count` were announced.
pub open spec fn rays_of(list: Seq<Option<Seq<char>>>, count: int, k: nat) -> Result<
    Seq<int>,
    Fault,
>
    decreases k,
{
    if k == 0 {
        Ok(Seq::empty())
    } else {
        match rays_of(list, count, (k - 1) as nat) {
            Err(fault) => Err(fault),
            Ok(before) => if k > list.len() {
                Err(Fault::Missing { item: (k - 1) as nat })
            } else {
                match literal(Kind::Integer, text_of(list[k - 1])) {
                    Err(fault) => Err(fault),
                    Ok(item) => if k > RAY_LIMIT {
                        Err(Fault::TooManyRays { count })
                    } else {
                        Ok(before.push(item->Integer_0))
                    },
                }
            },
        }
    }
}

/// How many codes an announced number of rays wants. A negative one wants codes that no list
/// holds.
pub open spec fn rays_wanted(count: int) -> nat {
    if count < 0 {
        1
    } else {
        count as nat
    }
}

/// One value as a sequence.
pub open spec fn one(r: Result<Item, Fault>) -> Result<Seq<Item>, Fault> {
    match r {
        Ok(item) => Ok(seq![item]),
        Err(fault) => Err(fault),
    }
}

/// What read `i` gives at record `at`, and the record after it.
pub open spec fn one_read(records: Seq<Seq<char>>, at: int, i: int) -> (
    Result<Seq<Item>, Fault>,
    int,
) {
    let kinds = kinds_at(i);
    match reading_at(i) {
        Reading::Name => if at < records.len() {
            (
                Ok(
                    seq![
                        Item::Text(
                            records[at].take(text::first_of(records[at], set![' '], 0)),
                        ),
                    ],
                ),
                at + 1,
            )
        } else {
            (Err(Fault::Eof { wanted: 1, got: 0 }), at)
        },
        Reading::Rays => match deck::list_read(records, at, 1) {
            Err(_) => (Err(Fault::Eof { wanted: 1, got: 0 }), at),
            Ok((first, after)) => match literal(Kind::Integer, deck::first_text(first)) {
                Err(fault) => (
                    Err(fault),
                    if first.len() == 0 {
                        after
                    } else {
                        at
                    },
                ),
                Ok(item) => {
                    let count = item->Integer_0;
                    let wanted = (1 + deck::counted(count)) as nat;
                    match deck::list_read(records, at, wanted) {
                        Err(got) => (Err(Fault::Eof { wanted, got }), at),
                        Ok((read, next)) => (
                            match rays_of(
                                deck::filled(read.skip(1), deck::counted(count) as nat),
                                count,
                                rays_wanted(count),
                            ) {
                                Ok(codes) => Ok(seq![Item::Rays(codes)]),
                                Err(fault) => Err(fault),
                            },
                            next,
                        ),
                    }
                },
            },
        },
        Reading::Item => match deck::list_read(records, at, 1) {
            Err(_) => (Err(Fault::Eof { wanted: 1, got: 0 }), at),
            Ok((first, next)) => (one(literal(kinds[0], deck::first_text(first))), next),
        },
        Reading::Group => match deck::list_read(records, at, kinds.len()) {
            Err(got) => (Err(Fault::Eof { wanted: kinds.len(), got }), at),
            Ok((read, next)) => (group_of(read, kinds, kinds.len()), next),
        },
        Reading::Optional => match deck::list_read(records, at, 1) {
            Err(got) => (Err(Fault::Eof { wanted: 1, got }), at),
            Ok((read, next)) => (
                if read.len() == 0 {
                    Err(Fault::Missing { item: 0 })
                } else {
                    match read[0] {
                        None => Ok(seq![Item::Unset]),
                        Some(token) => one(literal(kinds[0], token)),
                    }
                },
                next,
            ),
        },
    }
}

/// What the first `n` reads give from record `at` on, and the record after them.
pub open spec fn reads(records: Seq<Seq<char>>, at: int, n: nat) -> (Result<Seq<Item>, Fault>, int)
    decreases n,
{
    if n == 0 {
        (Ok(Seq::empty()), at)
    } else {
        let (before, p) = reads(records, at, (n - 1) as nat);
        match before {
            Err(fault) => (Err(fault), p),
            Ok(had) => {
                let (r, next) = one_read(records, p, n - 1);
                match r {
                    Ok(more) => (Ok(had + more), next),
                    Err(fault) => (Err(fault), next),
                }
            },
        }
    }
}

/// Whether a result is what a read gives.
pub open spec fn gives(r: Result<Vec<Value>, DeckFault>, want: Result<Seq<Item>, Fault>) -> bool {
    match want {
        Ok(items) => r is Ok && items_of(r->Ok_0@) =~= items,
        Err(fault) => r is Err && r->Err_0.is_fault(fault),
    }
}

/// The value that a token writes.
fn read_literal(kind: Kind, token: &str) -> (r: Result<Value, DeckFault>)
    ensures
        match literal(kind, token@) {
            Ok(item) => r is Ok && r->Ok_0@ == item,
            Err(fault) => r is Err && r->Err_0.is_fault(fault),
        },
{
    match kind {
        Kind::Integer => match parse_i32(token) {
            Ok(n) => Ok(Value::Integer(n)),
            Err(e) => Err(DeckFault::Refused(e)),
        },
        Kind::Single => match parse_f32(token) {
            Ok(s) => Ok(Value::Text(s)),
            Err(e) => Err(DeckFault::Refused(e)),
        },
        Kind::Double => match parse_f64(token) {
            Ok(s) => Ok(Value::Text(s)),
            Err(e) => Err(DeckFault::Refused(e)),
        },
    }
}

/// The value of an item in a list.
fn read_place(kind: Kind, place: &Option<String>) -> (r: Result<Value, DeckFault>)
    ensures
        match literal(kind, text_of(deck::item(*place))) {
            Ok(item) => r is Ok && r->Ok_0@ == item,
            Err(fault) => r is Err && r->Err_0.is_fault(fault),
        },
{
    match place {
        Some(token) => read_literal(kind, token.as_str()),
        None => {
            let token = String::new();
            assert(token@ == Seq::<char>::empty());
            read_literal(kind, token.as_str())
        },
    }
}

/// The values of a group.
fn read_group(read: &Vec<Option<String>>, kinds: &Vec<Kind>) -> (r: Result<Vec<Value>, DeckFault>)
    ensures
        gives(r, group_of(deck::items(read@), kinds@, kinds@.len())),
{
    let mut values: Vec<Value> = Vec::new();
    let mut k: usize = 0;
    while k < kinds.len()
        invariant
            k <= kinds.len(),
            group_of(deck::items(read@), kinds@, k as nat) is Ok,
            items_of(values@) =~= group_of(deck::items(read@), kinds@, k as nat)->Ok_0,
        decreases kinds.len() - k,
    {
        if k >= read.len() {
            proof {
                later_items_keep_a_fault(
                    deck::items(read@),
                    kinds@,
                    (k + 1) as nat,
                    kinds@.len(),
                );
            }
            return Err(DeckFault::Missing { item: k });
        }
        let ghost had = values@;
        match read_place(kinds[k], &read[k]) {
            Ok(value) => {
                values.push(value);
                assert(items_of(values@) =~= items_of(had).push(value@));
            },
            Err(fault) => {
                proof {
                    later_items_keep_a_fault(
                        deck::items(read@),
                        kinds@,
                        (k + 1) as nat,
                        kinds@.len(),
                    );
                }
                return Err(fault);
            },
        }
        k += 1;
    }
    Ok(values)
}

/// Once an item of a group is at fault, the group is.
proof fn later_items_keep_a_fault(
    read: Seq<Option<Seq<char>>>,
    kinds: Seq<Kind>,
    k: nat,
    n: nat,
)
    requires
        k <= n,
        group_of(read, kinds, k) is Err,
    ensures
        group_of(read, kinds, n) == group_of(read, kinds, k),
    decreases n,
{
    if k < n {
        later_items_keep_a_fault(read, kinds, k, (n - 1) as nat);
    }
}

/// Once a ray code is at fault, the rays are.
proof fn later_rays_keep_a_fault(list: Seq<Option<Seq<char>>>, count: int, k: nat, n: nat)
    requires
        k <= n,
        rays_of(list, count, k) is Err,
    ensures
        rays_of(list, count, n) == rays_of(list, count, k),
    decreases n,
{
    if k < n {
        later_rays_keep_a_fault(list, count, k, (n - 1) as nat);
    }
}

/// The ray codes of a list.
fn read_rays(list: &Vec<Option<String>>, count: i32) -> (r: Result<Vec<i32>, DeckFault>)
    ensures
        match rays_of(deck::items(list@), count as int, rays_wanted(count as int)) {
            Ok(codes) => r is Ok && codes_of(r->Ok_0@) =~= codes,
            Err(fault) => r is Err && r->Err_0.is_fault(fault),
        },
{
    let ghost items = deck::items(list@);
    let ghost wanted_codes = rays_wanted(count as int);
    let wanted: usize = if count < 0 {
        1
    } else {
        count as usize
    };
    let mut codes: Vec<i32> = Vec::new();
    let mut k: usize = 0;
    while k < wanted
        invariant
            k <= wanted,
            wanted == wanted_codes,
            wanted_codes == rays_wanted(count as int),
            items == deck::items(list@),
            rays_of(items, count as int, k as nat) is Ok,
            codes_of(codes@) =~= rays_of(items, count as int, k as nat)->Ok_0,
        decreases wanted - k,
    {
        let ghost had = codes@;
        if k >= list.len() {
            proof {
                later_rays_keep_a_fault(items, count as int, (k + 1) as nat, wanted_codes);
            }
            return Err(DeckFault::Missing { item: k });
        }
        match read_place(Kind::Integer, &list[k]) {
            Ok(Value::Integer(code)) => {
                if k >= RAY_LIMIT {
                    proof {
                        later_rays_keep_a_fault(
                            items,
                            count as int,
                            (k + 1) as nat,
                            wanted_codes,
                        );
                    }
                    return Err(DeckFault::TooManyRays { count });
                }
                codes.push(code);
                assert(codes_of(codes@) =~= codes_of(had).push(code as int));
            },
            Ok(_) => {},
            Err(fault) => {
                proof {
                    later_rays_keep_a_fault(items, count as int, (k + 1) as nat, wanted_codes);
                }
                return Err(fault);
            },
        }
        k += 1;
    }
    Ok(codes)
}

/// Read `i` of the deck.
fn read_one(reader: &mut ListReader, i: usize) -> (r: Result<Vec<Value>, DeckFault>)
    ensures
        final(reader).records() == old(reader).records(),
        gives(r, one_read(old(reader).records(), old(reader).next(), i as int).0),
        final(reader).next() == one_read(old(reader).records(), old(reader).next(), i as int).1,
{
    let kinds = kinds_of(i);
    match reading_of(i) {
        Reading::Name => match reader.read_filename() {
            Ok(name) => {
                let values = vec![Value::Text(name)];
                Ok(values)
            },
            Err(e) => Err(DeckFault::Refused(e)),
        },
        Reading::Rays => match reader.read_count_and_list() {
            Ok((count, list)) => match read_rays(&list, count) {
                Ok(codes) => {
                    let ghost want = codes_of(codes@);
                    let values = vec![Value::Rays(codes)];
                    assert(values@[0]@ == Item::Rays(want));
                    Ok(values)
                },
                Err(fault) => Err(fault),
            },
            Err(e) => Err(DeckFault::Refused(e)),
        },
        Reading::Item => {
            let literal = match kinds[0] {
                Kind::Integer => match reader.i32() {
                    Ok(n) => Ok(Value::Integer(n)),
                    Err(e) => Err(e),
                },
                Kind::Single => match reader.real4() {
                    Ok(s) => Ok(Value::Text(s)),
                    Err(e) => Err(e),
                },
                Kind::Double => match reader.real8() {
                    Ok(s) => Ok(Value::Text(s)),
                    Err(e) => Err(e),
                },
            };
            match literal {
                Ok(value) => {
                    let values = vec![value];
                    Ok(values)
                },
                Err(e) => Err(DeckFault::Refused(e)),
            }
        },
        Reading::Group => match reader.read_values(kinds.len()) {
            Ok(read) => read_group(&read, &kinds),
            Err(e) => Err(DeckFault::Refused(e)),
        },
        Reading::Optional => match reader.read_values(1) {
            Ok(read) => {
                if read.len() == 0 {
                    return Err(DeckFault::Missing { item: 0 });
                }
                assert(deck::items(read@)[0] == deck::item(read@[0]));
                match &read[0] {
                    Some(token) => match read_literal(kinds[0], token.as_str()) {
                        Ok(value) => {
                            let values = vec![value];
                            Ok(values)
                        },
                        Err(fault) => Err(fault),
                    },
                    None => {
                        let values = vec![Value::Unset];
                        Ok(values)
                    },
                }
            },
            Err(e) => Err(DeckFault::Refused(e)),
        },
    }
}

// ---------------------------------------------------------------------------
// The deck
// ---------------------------------------------------------------------------

/// How many items the reads before read `n` give.
pub open spec fn items_before(n: nat) -> nat
    decreases n,
{
    if n == 0 {
        0
    } else {
        items_before((n - 1) as nat) + if reading_at(n - 1) == Reading::Group {
            kinds_at(n - 1).len()
        } else {
            1
        }
    }
}

/// A group has as many values as it has kinds.
proof fn groups_are_full(read: Seq<Option<Seq<char>>>, kinds: Seq<Kind>, k: nat)
    ensures
        group_of(read, kinds, k) matches Ok(items) ==> items.len() == k,
    decreases k,
{
    if k > 0 {
        groups_are_full(read, kinds, (k - 1) as nat);
    }
}

/// A deck that can be read has one item per field, in order: what came before decides on which
/// records a field is looked for, never which place it takes.
pub proof fn decks_have_one_item_per_field(records: Seq<Seq<char>>, at: int, n: nat)
    ensures
        reads(records, at, n).0 matches Ok(items) ==> items.len() == items_before(n),
        items_before(READS as nat) == 41,
    decreases n,
{
    if n > 0 {
        decks_have_one_item_per_field(records, at, (n - 1) as nat);
        let p = reads(records, at, (n - 1) as nat).1;
        let kinds = kinds_at(n - 1);
        if deck::list_read(records, p, kinds.len()) is Ok {
            groups_are_full(
                deck::list_read(records, p, kinds.len())->Ok_0.0,
                kinds,
                kinds.len(),
            );
        }
    }
    assert(items_before(20) == 41) by {
        reveal_with_fuel(items_before, 21);
    }
}

/// The text of an item; none where it is another.
pub open spec fn text_in(item: Item) -> Seq<char> {
    match item {
        Item::Text(s) => s,
        _ => Seq::empty(),
    }
}

/// The integer of an item; zero where it is another.
pub open spec fn integer_in(item: Item) -> int {
    match item {
        Item::Integer(n) => n,
        _ => 0,
    }
}

/// The ray codes of an item; none where it is another.
pub open spec fn rays_in(item: Item) -> Seq<int> {
    match item {
        Item::Rays(codes) => codes,
        _ => Seq::empty(),
    }
}

/// The text of a value.
fn take_text(value: &Value) -> (s: String)
    ensures
        s@ == text_in(value@),
{
    match value {
        Value::Text(s) => s.clone(),
        _ => {
            let s = String::new();
            assert(s@ == Seq::<char>::empty());
            s
        },
    }
}

/// The integer of a value.
fn take_integer(value: &Value) -> (n: i32)
    ensures
        n == integer_in(value@),
{
    match value {
        Value::Integer(n) => *n,
        _ => 0,
    }
}

/// The ray codes of a value.
fn take_rays(value: &Value) -> (codes: Vec<i32>)
    ensures
        codes_of(codes@) =~= rays_in(value@),
{
    let mut codes: Vec<i32> = Vec::new();
    if let Value::Rays(from) = value {
        let mut i: usize = 0;
        while i < from.len()
            invariant
                i <= from.len(),
                codes@ =~= from@.take(i as int),
            decreases from.len() - i,
        {
            codes.push(from[i]);
            i += 1;
        }
    }
    codes
}

/// The parameter deck. A real stands as its literal, with `e` as the exponent marker.
#[derive(Debug)]
pub struct Deck {
    /// Stress parameter, bars.
    pub stress_average: String,
    /// Station list.
    pub asite: String,
    /// Output file.
    pub outname: String,
    /// The codes of the requested rays.
    pub irtype: Vec<i32>,
    /// Whether the site amplifies: not where this is zero.
    pub isite_amp: i32,
    /// Whether the record is filtered.
    pub iftt: i32,
    /// High-cut frequency, Hz.
    pub fhil: String,
    /// Seed.
    pub irand: i32,
    /// Station count.
    pub nsite: i32,
    /// Record length, s.
    pub duration: String,
    /// Sample interval, s.
    pub dt: String,
    /// `f_max`, Hz.
    pub fmx: String,
    /// Kappa, s.
    pub akapp: String,
    /// Frequency exponent of the quality factor.
    pub qfexp: String,
    /// Rupture speed as a fraction of the shear speed.
    pub rvfac: String,
    /// Its shallow factor.
    pub shal_rvfac: String,
    /// Its deep factor.
    pub deep_rvfac: String,
    /// Corner-frequency constant.
    pub czero: String,
    /// Corner-frequency coefficient of dip and rake.
    pub calpha: String,
    /// Total moment; negative where the slip model gives it.
    pub sm: String,
    /// Rupture speed; not positive where the slip model gives the times.
    pub vr: String,
    /// Slip model file.
    pub slip_model: String,
    /// Velocity model file.
    pub velfile: String,
    /// Shear speed at the Moho, km/s.
    pub vsmoho: String,
    /// Layers skipped by a perturbation of the model.
    pub nlskip: i32,
    /// First amplitude sigma.
    pub fasig1: String,
    /// Second amplitude sigma.
    pub fasig2: String,
    /// Rupture-speed sigma.
    pub rvsig1: String,
    /// Path-duration model.
    pub ipdur_model: i32,
    /// How the stress parameter is adjusted.
    pub ispar_adjust: i32,
    /// Target magnitude.
    pub targ_mag: String,
    /// Fault area, km².
    pub fault_area: String,
    /// Where in the output file to write; the start where it is left out.
    pub seek_bytes: Option<String>,
}

impl Deck {
    /// Whether the deck holds these items. Eight of them feed nothing: they are read past.
    pub open spec fn holds(self, items: Seq<Item>) -> bool {
        &&& self.stress_average@ == text_in(items[0])
        &&& self.asite@ == text_in(items[1])
        &&& self.outname@ == text_in(items[2])
        &&& codes_of(self.irtype@) =~= rays_in(items[3])
        &&& self.isite_amp == integer_in(items[4])
        &&& self.iftt == integer_in(items[6])
        &&& self.fhil@ == text_in(items[8])
        &&& self.irand == integer_in(items[9])
        &&& self.nsite == integer_in(items[10])
        &&& self.duration@ == text_in(items[11])
        &&& self.dt@ == text_in(items[12])
        &&& self.fmx@ == text_in(items[13])
        &&& self.akapp@ == text_in(items[14])
        &&& self.qfexp@ == text_in(items[15])
        &&& self.rvfac@ == text_in(items[16])
        &&& self.shal_rvfac@ == text_in(items[17])
        &&& self.deep_rvfac@ == text_in(items[18])
        &&& self.czero@ == text_in(items[19])
        &&& self.calpha@ == text_in(items[20])
        &&& self.sm@ == text_in(items[21])
        &&& self.vr@ == text_in(items[22])
        &&& self.slip_model@ == text_in(items[23])
        &&& self.velfile@ == text_in(items[24])
        &&& self.vsmoho@ == text_in(items[25])
        &&& self.nlskip == integer_in(items[26])
        &&& self.fasig1@ == text_in(items[33])
        &&& self.fasig2@ == text_in(items[34])
        &&& self.rvsig1@ == text_in(items[35])
        &&& self.ipdur_model == integer_in(items[36])
        &&& self.ispar_adjust == integer_in(items[37])
        &&& self.targ_mag@ == text_in(items[38])
        &&& self.fault_area@ == text_in(items[39])
        &&& deck::item(self.seek_bytes) == match items[40] {
            Item::Text(s) => Some(s),
            _ => None,
        }
    }
}

/// Read the deck's items and bind each to its field.
fn read_fields(reader: &mut ListReader) -> (r: Result<Deck, DeckFault>)
    ensures
        final(reader).records() == old(reader).records(),
        final(reader).next() == reads(
            old(reader).records(),
            old(reader).next(),
            READS as nat,
        ).1,
        match reads(old(reader).records(), old(reader).next(), READS as nat).0 {
            Ok(items) => r is Ok && r->Ok_0.holds(items),
            Err(fault) => r is Err && r->Err_0.is_fault(fault),
        },
{
    let ghost records = reader.records();
    let ghost start = reader.next();
    let mut values: Vec<Value> = Vec::new();
    let mut i: usize = 0;
    while i < READS
        invariant
            i <= READS,
            records == old(reader).records(),
            start == old(reader).next(),
            reader.records() == records,
            reader.next() == reads(records, start, i as nat).1,
            reads(records, start, i as nat).0 is Ok,
            items_of(values@) =~= reads(records, start, i as nat).0->Ok_0,
        decreases READS - i,
    {
        let ghost had = values@;
        let more = match read_one(reader, i) {
            Ok(more) => more,
            Err(fault) => {
                proof {
                    later_reads_keep_a_fault(records, start, (i + 1) as nat, READS as nat);
                }
                return Err(fault);
            },
        };
        let mut more = more;
        let ghost added = more@;
        values.append(&mut more);
        assert(items_of(values@) =~= items_of(had) + items_of(added));
        i += 1;
    }
    proof {
        decks_have_one_item_per_field(records, start, READS as nat);
    }
    Ok(
        Deck {
            stress_average: take_text(&values[0]),
            asite: take_text(&values[1]),
            outname: take_text(&values[2]),
            irtype: take_rays(&values[3]),
            isite_amp: take_integer(&values[4]),
            iftt: take_integer(&values[6]),
            fhil: take_text(&values[8]),
            irand: take_integer(&values[9]),
            nsite: take_integer(&values[10]),
            duration: take_text(&values[11]),
            dt: take_text(&values[12]),
            fmx: take_text(&values[13]),
            akapp: take_text(&values[14]),
            qfexp: take_text(&values[15]),
            rvfac: take_text(&values[16]),
            shal_rvfac: take_text(&values[17]),
            deep_rvfac: take_text(&values[18]),
            czero: take_text(&values[19]),
            calpha: take_text(&values[20]),
            sm: take_text(&values[21]),
            vr: take_text(&values[22]),
            slip_model: take_text(&values[23]),
            velfile: take_text(&values[24]),
            vsmoho: take_text(&values[25]),
            nlskip: take_integer(&values[26]),
            fasig1: take_text(&values[33]),
            fasig2: take_text(&values[34]),
            rvsig1: take_text(&values[35]),
            ipdur_model: take_integer(&values[36]),
            ispar_adjust: take_integer(&values[37]),
            targ_mag: take_text(&values[38]),
            fault_area: take_text(&values[39]),
            seek_bytes: match &values[40] {
                Value::Text(s) => Some(s.clone()),
                _ => None,
            },
        },
    )
}

/// Read the deck. One that is written field by field is read back field by field.
pub fn read_deck(reader: &mut ListReader) -> (r: Result<Deck, DeckFault>)
    ensures
        final(reader).records() == old(reader).records(),
        final(reader).next() == reads(
            old(reader).records(),
            old(reader).next(),
            READS as nat,
        ).1,
        match reads(old(reader).records(), old(reader).next(), READS as nat).0 {
            Ok(items) => r is Ok && r->Ok_0.holds(items),
            Err(fault) => r is Err && r->Err_0.is_fault(fault),
        },
        forall|t: DeckText, gap: Seq<char>, remark: Seq<Seq<char>>|
            #[trigger] t.stands_at(old(reader).records(), old(reader).next(), gap, remark) ==> {
                &&& r is Ok
                &&& t.is_said_by(r->Ok_0)
                &&& final(reader).next() == old(reader).next() + 20
            },
{
    let ghost records = reader.records();
    let ghost start = reader.next();
    let r = read_fields(reader);
    proof {
        assert forall|t: DeckText, gap: Seq<char>, remark: Seq<Seq<char>>| #[trigger]
            t.stands_at(records, start, gap, remark) implies r is Ok && t.is_said_by(r->Ok_0)
            && reader.next() == start + 20 by {
            deck_text::decks_are_read_back(t, records, start, gap, remark, r->Ok_0);
        }
    }
    r
}

/// Once a read is at fault, the deck is, and the reader stays where it was left.
proof fn later_reads_keep_a_fault(records: Seq<Seq<char>>, at: int, k: nat, n: nat)
    requires
        k <= n,
        reads(records, at, k).0 is Err,
    ensures
        reads(records, at, n) == reads(records, at, k),
    decreases n,
{
    if k < n {
        later_reads_keep_a_fault(records, at, k, (n - 1) as nat);
    }
}

// ---------------------------------------------------------------------------
// What stands for a field that is left to the program
// ---------------------------------------------------------------------------

/// The bit pattern of -1: a factor below it is left to the program. Merely negative is not
/// enough.
pub const LEFT_OUT: u32 = 0xbf80_0000;

/// The bit pattern of 0.8: the rupture speed's fraction.
pub const RVFAC: u32 = 0x3f4c_cccd;

/// The bit pattern of 0.6: its shallow factor.
pub const SHAL_RVFAC: u32 = 0x3f19_999a;

/// The bit pattern of 0.6: its deep factor.
pub const DEEP_RVFAC: u32 = 0x3f19_999a;

/// The bit pattern of 2: the corner-frequency constant.
pub const CZERO: u32 = 0x4000_0000;

/// The bit pattern of 0.1: the corner-frequency coefficient of dip and rake.
pub const CALPHA: u32 = 0x3dcc_cccd;

/// The bit pattern of 999.9 km/s: a Moho speed that no layer reaches.
pub const NO_MOHO_KM_S: u64 = 0x408f_3f33_3333_3333;

/// The five factors of the source.
#[derive(Clone, Copy, Debug, PartialEq, Eq, Structural)]
pub struct Factors {
    pub rvfac: Single,
    pub shal_rvfac: Single,
    pub deep_rvfac: Single,
    pub czero: Single,
    pub calpha: Single,
}

/// A factor, or its default where it is left out.
pub open spec fn or_default(given: Single, default: u32) -> Single {
    if given.below(Single(LEFT_OUT)) {
        Single(default)
    } else {
        given
    }
}

/// A factor, or its default where it is left out.
fn chosen(given: Single, default: u32) -> (r: Single)
    ensures
        r == or_default(given, default),
{
    if given.is_below(Single(LEFT_OUT)) {
        Single(default)
    } else {
        given
    }
}

impl Factors {
    /// The factors with their defaults in place of those that are left out.
    pub open spec fn resolved(self) -> Factors {
        Factors {
            rvfac: or_default(self.rvfac, RVFAC),
            shal_rvfac: or_default(self.shal_rvfac, SHAL_RVFAC),
            deep_rvfac: or_default(self.deep_rvfac, DEEP_RVFAC),
            czero: or_default(self.czero, CZERO),
            calpha: or_default(self.calpha, CALPHA),
        }
    }

    /// The factors with their defaults in place of those that are left out.
    pub fn resolve(self) -> (r: Self)
        ensures
            r == self.resolved(),
    {
        Factors {
            rvfac: chosen(self.rvfac, RVFAC),
            shal_rvfac: chosen(self.shal_rvfac, SHAL_RVFAC),
            deep_rvfac: chosen(self.deep_rvfac, DEEP_RVFAC),
            czero: chosen(self.czero, CZERO),
            calpha: chosen(self.calpha, CALPHA),
        }
    }
}

/// Whether `to` is what becomes of a factor whose default is `num / den`: the default where it is
/// below minus one, and else itself, a merely negative one too.
pub open spec fn is_factor_for(to: Single, given: Single, num: nat, den: nat) -> bool {
    let minus_one = Single(0xbf80_0000);
    &&& given.below(minus_one) ==> reals::is_nearest_single(to, num, den)
    &&& !given.below(minus_one) ==> to == given
}

/// A factor that is left out gets its own default, by its name, and one that is given is kept.
/// What comes out is never left out, so that resolving again changes nothing.
pub proof fn factors_get_their_own_defaults(f: Factors)
    ensures
        is_factor_for(f.resolved().rvfac, f.rvfac, 8, 10),
        is_factor_for(f.resolved().shal_rvfac, f.shal_rvfac, 6, 10),
        is_factor_for(f.resolved().deep_rvfac, f.deep_rvfac, 6, 10),
        is_factor_for(f.resolved().czero, f.czero, 2, 1),
        is_factor_for(f.resolved().calpha, f.calpha, 1, 10),
        f.resolved().resolved() == f.resolved(),
{
    defaults_are_round();
}

/// The shear speed that the model is cut at. One that is not positive cuts nothing.
pub open spec fn cut_speed(given_km_s: Double) -> Double {
    if given_km_s.at_most(Double(0)) {
        Double(NO_MOHO_KM_S)
    } else {
        given_km_s
    }
}

/// The shear speed that the model is cut at. One that is not positive cuts nothing.
pub fn moho_speed(given_km_s: Double) -> (r: Double)
    ensures
        r == cut_speed(given_km_s),
{
    if given_km_s.is_at_most(Double(0)) {
        Double(NO_MOHO_KM_S)
    } else {
        given_km_s
    }
}

/// A model is cut at a positive speed only, or at none: what is given is kept just where it is
/// positive, and else 999.9 stands for it, which is positive.
pub proof fn models_are_cut_at_positive_speeds(given_km_s: Double)
    ensures
        given_km_s.ordered() ==> Double(0).below(cut_speed(given_km_s)),
        Double(0).below(given_km_s) ==> cut_speed(given_km_s) == given_km_s,
        given_km_s.ordered() && !Double(0).below(given_km_s) ==> reals::is_nearest_double(
            cut_speed(given_km_s),
            9999,
            10,
        ),
{
    defaults_are_round();
}

/// The defaults are the numbers that they are said to be.
pub proof fn defaults_are_round()
    ensures
        reals::is_nearest_single(Single(RVFAC), 8, 10),
        reals::is_nearest_single(Single(SHAL_RVFAC), 6, 10),
        reals::is_nearest_single(Single(DEEP_RVFAC), 6, 10),
        reals::is_nearest_single(Single(CZERO), 2, 1),
        reals::is_nearest_single(Single(CALPHA), 1, 10),
        reals::is_nearest_double(Double(NO_MOHO_KM_S), 9999, 10),
        LEFT_OUT >= 0x8000_0000,
        reals::is_nearest_single(Single((LEFT_OUT - 0x8000_0000) as u32), 1, 1),
{
    lemma2_to64();
    lemma2_to64_rest();
}

} // verus!
