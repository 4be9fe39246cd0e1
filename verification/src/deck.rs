//! List-directed reads over records.
//!
//! A list-directed read is not a split at white space. Three behaviours matter:
//!
//! * **A read starts at a fresh record.** What an earlier read left on its last record is
//!   discarded.
//! * **A read spans records until its item list is full.**
//! * **Blank records are separators, not the end of the data.**
//!
//! A `/` ends a read early, a repeat count `r*value` stands for `r` copies, and an empty place
//! between two commas is an item that leaves its variable unchanged.

use vstd::prelude::*;

use crate::number;
use crate::number::{check_real, is_digit, normalize_number, read_integer};
use crate::text;
use crate::text::{chars_of, find, slice_of, split_records, string_of};

verus! {

/// Why a read failed.
#[derive(Debug)]
pub enum DeckError {
    /// The records ran out while the read still wanted items.
    UnexpectedEof { wanted: usize, got: usize },
    /// A token was not a number of the requested kind.
    BadNumber { token: String, kind: &'static str },
}

// ---------------------------------------------------------------------------
// Tokens
// ---------------------------------------------------------------------------

/// What stands on a record.
pub enum Token {
    Value(String),
    Repeat(usize, String),
    Null,
    Slash,
}

/// A [`Token`], its text as a character sequence.
pub enum Symbol {
    Value(Seq<char>),
    Repeat(nat, Seq<char>),
    Null,
    Slash,
}

impl View for Token {
    type V = Symbol;

    open spec fn view(&self) -> Symbol {
        match self {
            Token::Value(s) => Symbol::Value(s@),
            Token::Repeat(n, s) => Symbol::Repeat(*n as nat, s@),
            Token::Null => Symbol::Null,
            Token::Slash => Symbol::Slash,
        }
    }
}

/// The symbols of a token sequence.
pub open spec fn symbols(tokens: Seq<Token>) -> Seq<Symbol> {
    tokens.map_values(|t: Token| t@)
}

/// What ends a word: a blank, a tab, a comma or a slash.
pub open spec fn word_stops() -> Set<char> {
    set![' ', '\t', ',', '/']
}

/// The repeat count that `s` writes: digits, with a plus before them or none, that fit a `usize`.
pub open spec fn repeat_count(s: Seq<char>) -> Option<nat> {
    let u = if s.len() > 0 && s[0] == '+' { s.skip(1) } else { s };
    if u.len() > 0 && number::all_digits(u) && number::natural(u) <= usize::MAX {
        Some(number::natural(u))
    } else {
        None
    }
}

/// The symbol that a word is: `r*value` repeats, anything else is a value.
pub open spec fn symbol_of(word: Seq<char>) -> Symbol {
    let star = text::first_of(word, set!['*'], 0);
    match repeat_count(word.take(star)) {
        Some(count) if star + 1 < word.len() => Symbol::Repeat(count, word.skip(star + 1)),
        _ => Symbol::Value(word),
    }
}

/// The symbols of a record from position `at` on. `after_comma` says that the last symbol before
/// it was a comma, or that there was none: a comma there closes an empty place. Nothing counts
/// after a slash.
pub open spec fn symbols_from(line: Seq<char>, at: int, after_comma: bool) -> Seq<Symbol>
    decreases line.len() - at,
    when 0 <= at <= line.len()
    via word_is_not_empty
{
    if at == line.len() {
        Seq::empty()
    } else if line[at] == ' ' || line[at] == '\t' {
        symbols_from(line, at + 1, after_comma)
    } else if line[at] == ',' {
        if after_comma {
            seq![Symbol::Null] + symbols_from(line, at + 1, true)
        } else {
            symbols_from(line, at + 1, true)
        }
    } else if line[at] == '/' {
        seq![Symbol::Slash]
    } else {
        let end = text::first_of(line, word_stops(), at);
        seq![symbol_of(line.subrange(at, end))] + symbols_from(line, end, false)
    }
}

#[via_fn]
proof fn word_is_not_empty(line: Seq<char>, at: int, after_comma: bool) {
    text::first_of_is_first(line, word_stops(), at);
}

/// The items that symbols stand for, up to the first slash.
pub open spec fn items_of(s: Seq<Symbol>) -> Seq<Option<Seq<char>>>
    decreases s.len(),
{
    if s.len() == 0 {
        Seq::empty()
    } else {
        match s[0] {
            Symbol::Slash => Seq::empty(),
            Symbol::Null => seq![None] + items_of(s.skip(1)),
            Symbol::Value(v) => seq![Some(v)] + items_of(s.skip(1)),
            Symbol::Repeat(n, v) => Seq::new(n, |i: int| Some(v)) + items_of(s.skip(1)),
        }
    }
}

/// Whether a slash is among the symbols.
pub open spec fn slashed(s: Seq<Symbol>) -> bool {
    exists|i: int| 0 <= i < s.len() && #[trigger] s[i] is Slash
}

/// The symbols of a whole record.
pub open spec fn line_symbols(line: Seq<char>) -> Seq<Symbol> {
    symbols_from(line, 0, true)
}

/// The count that `word` writes before its star, if it writes one.
fn read_repeat_count(word: &Vec<char>, star: usize) -> (count: Option<usize>)
    requires
        star <= word.len(),
    ensures
        match repeat_count(word@.take(star as int)) {
            Some(n) => count == Some(n as usize),
            None => count is None,
        },
{
    let ghost head = word@.take(star as int);
    let start: usize = if star > 0 && word[0] == '+' { 1 } else { 0 };
    let digits = slice_of(word, start, star);
    assert(digits@ == if head.len() > 0 && head[0] == '+' { head.skip(1) } else { head });
    if digits.len() == 0 {
        return None;
    }
    let mut count: usize = 0;
    let mut too_large: bool = false;
    let mut i: usize = 0;
    assert(digits@.take(0) == Seq::<char>::empty());
    while i < digits.len()
        invariant
            i <= digits.len(),
            number::all_digits(digits@.take(i as int)),
            !too_large ==> count == number::natural(digits@.take(i as int)),
            too_large ==> number::natural(digits@.take(i as int)) > usize::MAX,
            digits@.len() > 0,
            digits@ == if head.len() > 0 && head[0] == '+' { head.skip(1) } else { head },
            head == word@.take(star as int),
        decreases digits.len() - i,
    {
        if !is_digit(digits[i]) {
            assert(!number::digit(digits@[i as int]));
            return None;
        }
        let d: usize = (digits[i] as u32 - 48) as usize;
        proof {
            let next = digits@.take(i + 1);
            assert(next.drop_last() == digits@.take(i as int));
            assert(next.last() == digits@[i as int]);
            assert forall|j: int| 0 <= j < next.len() implies number::digit(#[trigger] next[j]) by {
                if j < i {
                    assert(next[j] == digits@.take(i as int)[j]);
                }
            }
        }
        if !too_large {
            match count.checked_mul(10) {
                Some(m) => match m.checked_add(d) {
                    Some(n) => {
                        count = n;
                    },
                    None => {
                        too_large = true;
                    },
                },
                None => {
                    too_large = true;
                },
            }
        }
        i += 1;
    }
    assert(digits@.take(digits.len() as int) == digits@);
    if too_large {
        None
    } else {
        Some(count)
    }
}

/// The token that a word is.
fn token_of(word: &Vec<char>) -> (t: Token)
    ensures
        t@ == symbol_of(word@),
{
    let star = find(word, '*', 0);
    match read_repeat_count(word, star) {
        Some(count) => {
            if star < word.len() - 1 {
                let value = string_of(word, star + 1, word.len());
                assert(value@ == word@.skip(star + 1));
                return Token::Repeat(count, value);
            }
        },
        None => {},
    }
    let value = string_of(word, 0, word.len());
    assert(value@ == word@);
    Token::Value(value)
}

/// Split one record into tokens, up to and with the first slash. Each text among them is a word.
pub fn tokenize(line: &str) -> (tokens: Vec<Token>)
    ensures
        symbols(tokens@) == line_symbols(line@),
        forall|i: int|
            0 <= i < tokens.len() ==> (carried(#[trigger] tokens@[i]@) matches Some(v) ==> is_word(
                v,
            )),
{
    proof {
        texts_are_words(line@);
    }
    let tokens = scan(line);
    assert forall|i: int| 0 <= i < tokens.len() implies (carried(#[trigger] tokens@[i]@) matches Some(
        v,
    ) ==> is_word(v)) by {
        assert(symbols(tokens@)[i] == tokens@[i]@);
    }
    tokens
}

/// The tokens of one record.
fn scan(line: &str) -> (tokens: Vec<Token>)
    ensures
        symbols(tokens@) == line_symbols(line@),
{
    let chars = chars_of(line);
    let mut out: Vec<Token> = Vec::new();
    let mut i: usize = 0;
    let mut after_comma: bool = true;
    while i < chars.len()
        invariant
            chars@ == line@,
            i <= chars.len(),
            symbols(out@) + symbols_from(line@, i as int, after_comma) == line_symbols(line@),
        decreases chars.len() - i,
    {
        let c: char = chars[i];
        let ghost before = out@;
        if c == ' ' || c == '\t' {
            i += 1;
        } else if c == ',' {
            if after_comma {
                out.push(Token::Null);
                assert(symbols(out@) == symbols(before).push(Symbol::Null));
            }
            after_comma = true;
            i += 1;
        } else if c == '/' {
            out.push(Token::Slash);
            assert(symbols(out@) == symbols(before).push(Symbol::Slash));
            return out;
        } else {
            let start: usize = i;
            while i < chars.len() && chars[i] != ' ' && chars[i] != '\t' && chars[i] != ','
                && chars[i] != '/'
                invariant
                    start <= i <= chars.len(),
                    forall|j: int| start <= j < i ==> !word_stops().contains(#[trigger] chars@[j]),
                decreases chars.len() - i,
            {
                i += 1;
            }
            proof {
                text::first_of_unique(chars@, word_stops(), start as int, i as int);
                text::first_of_is_first(chars@, word_stops(), start as int);
            }
            let word = slice_of(&chars, start, i);
            let token = token_of(&word);
            out.push(token);
            assert(symbols(out@) == symbols(before).push(token@));
            after_comma = false;
        }
    }
    out
}

// ---------------------------------------------------------------------------
// Reading
// ---------------------------------------------------------------------------

/// An item, its text as a character sequence.
pub open spec fn item(i: Option<String>) -> Option<Seq<char>> {
    match i {
        Some(s) => Some(s@),
        None => None,
    }
}

/// The items of a sequence.
pub open spec fn items(s: Seq<Option<String>>) -> Seq<Option<Seq<char>>> {
    s.map_values(|i: Option<String>| item(i))
}

/// At most the first `n` of `s`.
pub open spec fn at_most<T>(s: Seq<T>, n: nat) -> Seq<T> {
    if s.len() > n {
        s.take(n as int)
    } else {
        s
    }
}

/// A read of `n` items that stands at record `at` with `got` read so far.
///
/// It ends with its items and the record the next read starts at, or with the number of items
/// it had when the records ran out.
pub open spec fn read_from(
    records: Seq<Seq<char>>,
    at: int,
    got: Seq<Option<Seq<char>>>,
    n: nat,
) -> Result<(Seq<Option<Seq<char>>>, int), nat>
    decreases records.len() - at,
{
    if got.len() >= n {
        Ok((at_most(got, n), at))
    } else if at >= records.len() {
        Err(got.len())
    } else {
        let line = line_symbols(records[at]);
        let all = got + items_of(line);
        if all.len() < n && slashed(line) {
            Ok((all, at + 1))
        } else {
            read_from(records, at + 1, all, n)
        }
    }
}

/// A read of `n` items that starts at record `at`.
pub open spec fn list_read(records: Seq<Seq<char>>, at: int, n: nat) -> Result<
    (Seq<Option<Seq<char>>>, int),
    nat,
> {
    read_from(records, at, Seq::empty(), n)
}

/// A list of `n` places: the items that were read, then an empty place for each that was not.
pub open spec fn filled(read: Seq<Option<Seq<char>>>, n: nat) -> Seq<Option<Seq<char>>> {
    Seq::new(
        n,
        |i: int|
            if i < read.len() {
                read[i]
            } else {
                None
            },
    )
}

/// The text of the first item, empty where there is none or it is a null.
pub open spec fn first_text(s: Seq<Option<Seq<char>>>) -> Seq<char> {
    if s.len() > 0 && s[0] is Some {
        s[0]->0
    } else {
        Seq::empty()
    }
}

/// The symbols of a token prefix, one token longer.
proof fn items_of_push(s: Seq<Symbol>, t: Symbol)
    requires
        !slashed(s),
    ensures
        items_of(s.push(t)) == items_of(s) + items_of(seq![t]),
    decreases s.len(),
{
    if s.len() == 0 {
        assert(s.push(t) == seq![t]);
        assert(items_of(s) == Seq::<Option<Seq<char>>>::empty());
    } else {
        assert(!(s[0] is Slash));
        assert(s.push(t).skip(1) == s.skip(1).push(t));
        assert forall|i: int| 0 <= i < s.skip(1).len() implies !(#[trigger] s.skip(1)[i] is Slash) by {
            assert(s.skip(1)[i] == s[i + 1]);
        }
        items_of_push(s.skip(1), t);
        match s[0] {
            Symbol::Null => {
                assert(items_of(s.push(t)) == seq![None] + items_of(s.skip(1).push(t)));
            },
            Symbol::Value(v) => {
                assert(items_of(s.push(t)) == seq![Some(v)] + items_of(s.skip(1).push(t)));
            },
            Symbol::Repeat(n, v) => {
                let copies = Seq::new(n, |i: int| Some(v));
                assert(items_of(s.push(t)) == copies + items_of(s.skip(1).push(t)));
            },
            Symbol::Slash => {},
        }
    }
}

/// The items before the first slash are all there are.
proof fn items_of_cut(s: Seq<Symbol>, k: int)
    requires
        0 <= k < s.len(),
        s[k] is Slash,
    ensures
        items_of(s) == items_of(s.take(k)),
    decreases k,
{
    if k == 0 {
        assert(s.take(0) == Seq::<Symbol>::empty());
    } else {
        assert(s.take(k).skip(1) == s.skip(1).take(k - 1));
        items_of_cut(s.skip(1), k - 1);
    }
}

/// A prefix of the symbols gives a prefix of the items.
proof fn items_of_prefix(s: Seq<Symbol>, k: int)
    requires
        0 <= k <= s.len(),
    ensures
        items_of(s.take(k)).len() <= items_of(s).len(),
        items_of(s).take(items_of(s.take(k)).len() as int) == items_of(s.take(k)),
    decreases k,
{
    if k == 0 {
        assert(s.take(0) == Seq::<Symbol>::empty());
        assert(items_of(s.take(0)) == Seq::<Option<Seq<char>>>::empty());
    } else {
        assert(s.take(k)[0] == s[0]);
        assert(s.take(k).skip(1) == s.skip(1).take(k - 1));
        items_of_prefix(s.skip(1), k - 1);
        let (short, long) = (items_of(s.skip(1).take(k - 1)), items_of(s.skip(1)));
        match s[0] {
            Symbol::Slash => {
                assert(items_of(s).take(0) == Seq::<Option<Seq<char>>>::empty());
            },
            Symbol::Null => {
                let head = seq![None::<Seq<char>>];
                assert((head + long).take((head + short).len() as int) == head + long.take(
                    short.len() as int,
                ));
            },
            Symbol::Value(v) => {
                let head = seq![Some(v)];
                assert((head + long).take((head + short).len() as int) == head + long.take(
                    short.len() as int,
                ));
            },
            Symbol::Repeat(n, v) => {
                let head = Seq::new(n, |i: int| Some(v));
                assert((head + long).take((head + short).len() as int) == head + long.take(
                    short.len() as int,
                ));
            },
        }
    }
}

/// Append the items of one record to `out`, as far as `n` items in all, and say whether a slash
/// ended the read before it was full.
fn take_items(line: &str, n: usize, out: &mut Vec<Option<String>>) -> (ended: bool)
    requires
        old(out).len() < n,
    ensures
        items(final(out)@) == at_most(items(old(out)@) + items_of(line_symbols(line@)), n as nat),
        ended == (slashed(line_symbols(line@)) && (items(old(out)@) + items_of(
            line_symbols(line@),
        )).len() < n),
{
    let tokens = tokenize(line);
    let ghost all = line_symbols(line@);
    let ghost start = items(out@);
    let mut t: usize = 0;
    assert(all.take(0) == Seq::<Symbol>::empty());
    assert(items_of(all.take(0)) == Seq::<Option<Seq<char>>>::empty());
    while t < tokens.len()
        invariant
            t <= tokens.len(),
            symbols(tokens@) == all,
            all == line_symbols(line@),
            start == items(old(out)@),
            !slashed(all.take(t as int)),
            out.len() < n,
            items(out@) == start + items_of(all.take(t as int)),
        decreases tokens.len() - t,
    {
        let ghost had = out@;
        let ghost prefix = all.take(t as int);
        let ghost wanted = start + items_of(all.take(t + 1));
        proof {
            assert(all[t as int] == tokens@[t as int]@);
            assert(all.take(t + 1) == prefix.push(all[t as int]));
            items_of_push(prefix, all[t as int]);
            items_of_prefix(all, t + 1);
            let unit = seq![all[t as int]];
            assert(unit.skip(1) == Seq::<Symbol>::empty());
            assert(items_of(unit.skip(1)) == Seq::<Option<Seq<char>>>::empty());
        }
        match &tokens[t] {
            Token::Slash => {
                proof {
                    items_of_cut(all, t as int);
                    assert(all[t as int] is Slash);
                }
                return true;
            },
            Token::Null => {
                out.push(None);
                assert(items(out@) == items(had).push(None));
                assert(items(out@) == wanted);
            },
            Token::Value(v) => {
                out.push(Some(v.clone()));
                assert(items(out@) == items(had).push(Some(v@)));
                assert(items(out@) == wanted);
            },
            Token::Repeat(count, v) => {
                let ghost copies = Seq::new(*count as nat, |i: int| Some(v@));
                let mut c: usize = 0;
                while c < *count && out.len() < n
                    invariant
                        c <= *count,
                        out.len() <= n,
                        copies == Seq::new(*count as nat, |i: int| Some(v@)),
                        items(out@) == items(had) + copies.take(c as int),
                    decreases *count - c,
                {
                    let ghost step = out@;
                    out.push(Some(v.clone()));
                    assert(items(out@) == items(step).push(Some(v@)));
                    assert(copies.take(c + 1) == copies.take(c as int).push(Some(v@)));
                    c += 1;
                }
                proof {
                    assert(items(out@) == at_most(items(had) + copies, n as nat));
                    assert(wanted == items(had) + copies);
                    assert(items(out@) == at_most(wanted, n as nat));
                }
            },
        }
        if out.len() >= n {
            proof {
                let full = start + items_of(all);
                assert(full.take(wanted.len() as int) == wanted) by {
                    assert(items_of(all).take(items_of(all.take(t + 1)).len() as int) == items_of(
                        all.take(t + 1),
                    ));
                }
                assert(full.take(n as int) == wanted.take(n as int)) by {
                    assert(full.take(wanted.len() as int).take(n as int) == full.take(n as int));
                }
                assert(full.len() >= n);
            }
            return false;
        }
        proof {
            assert forall|i: int| 0 <= i < t + 1 implies !(#[trigger] all.take(t + 1)[i] is Slash) by {
                if i < t {
                    assert(prefix[i] == all.take(t + 1)[i]);
                }
            }
        }
        t += 1;
    }
    assert(all.take(tokens.len() as int) == all);
    false
}

/// A reader over records.
pub struct ListReader {
    records: Vec<String>,
    /// The record the next read starts at.
    next_rec: usize,
}

impl ListReader {
    /// The records, as character sequences.
    pub closed spec fn records(self) -> Seq<Seq<char>> {
        text::views(self.records@)
    }

    /// The record the next read starts at.
    pub closed spec fn next(self) -> int {
        self.next_rec as int
    }

    /// A reader at the first record of `text`.
    pub fn new(text: &str) -> (r: Self)
        ensures
            r.records() == text::records_of(text@),
            r.next() == 0,
    {
        Self { records: split_records(text), next_rec: 0 }
    }

    /// Take the next record verbatim. A formatted read does not skip blank records.
    pub fn read_char(&mut self) -> (r: Result<String, DeckError>)
        ensures
            final(self).records() == old(self).records(),
            old(self).next() < old(self).records().len() ==> {
                &&& r is Ok
                &&& r->Ok_0@ == old(self).records()[old(self).next()]
                &&& final(self).next() == old(self).next() + 1
            },
            old(self).next() >= old(self).records().len() ==> {
                &&& r == Err::<String, _>(DeckError::UnexpectedEof { wanted: 1, got: 0 })
                &&& final(self).next() == old(self).next()
            },
    {
        if self.next_rec >= self.records.len() {
            return Err(DeckError::UnexpectedEof { wanted: 1, got: 0 });
        }
        let s = self.records[self.next_rec].clone();
        self.next_rec += 1;
        Ok(s)
    }

    /// Take the next record up to its first blank. This is not a trim: a name that holds a
    /// blank is cut there.
    pub fn read_filename(&mut self) -> (r: Result<String, DeckError>)
        ensures
            final(self).records() == old(self).records(),
            old(self).next() < old(self).records().len() ==> {
                let record = old(self).records()[old(self).next()];
                &&& r is Ok
                &&& r->Ok_0@ == record.take(text::first_of(record, set![' '], 0))
                &&& final(self).next() == old(self).next() + 1
            },
            old(self).next() >= old(self).records().len() ==> {
                &&& r == Err::<String, _>(DeckError::UnexpectedEof { wanted: 1, got: 0 })
                &&& final(self).next() == old(self).next()
            },
    {
        match self.read_char() {
            Ok(record) => {
                let chars = chars_of(record.as_str());
                let end = find(&chars, ' ', 0);
                Ok(string_of(&chars, 0, end))
            },
            Err(e) => Err(e),
        }
    }

    /// Read `n` items, spanning records as needed.
    ///
    /// A slash ends the read early: the result is then short, and the caller keeps what it had
    /// for the rest. An empty place is `None`, which means "leave unchanged".
    pub fn read_values(&mut self, n: usize) -> (r: Result<Vec<Option<String>>, DeckError>)
        ensures
            final(self).records() == old(self).records(),
            match list_read(old(self).records(), old(self).next(), n as nat) {
                Ok((read, next)) => r is Ok && items(r->Ok_0@) == read && final(self).next() == next,
                Err(got) => {
                    &&& r is Err
                    &&& r->Err_0 == (DeckError::UnexpectedEof { wanted: n, got: got as usize })
                    &&& final(self).next() == old(self).next()
                },
            },
    {
        let mut out: Vec<Option<String>> = Vec::new();
        let mut rec: usize = self.next_rec;
        let ghost records = self.records();
        assert(items(out@) == Seq::<Option<Seq<char>>>::empty());
        while out.len() < n
            invariant
                *self == *old(self),
                records == self.records(),
                out.len() <= n,
                read_from(records, rec as int, items(out@), n as nat) == list_read(
                    records,
                    old(self).next(),
                    n as nat,
                ),
            decreases self.records.len() - rec,
        {
            if rec >= self.records.len() {
                return Err(DeckError::UnexpectedEof { wanted: n, got: out.len() });
            }
            let ghost got = items(out@);
            let ghost line = line_symbols(records[rec as int]);
            let ended = take_items(self.records[rec].as_str(), n, &mut out);
            rec += 1;
            if ended {
                self.next_rec = rec;
                return Ok(out);
            }
            proof {
                reveal_with_fuel(read_from, 2);
                let all = got + items_of(line);
                if all.len() > n {
                    assert(items(out@) == all.take(n as int));
                    assert(at_most(all.take(n as int), n as nat) == all.take(n as int));
                }
            }
        }
        assert(items(out@).len() == n);
        self.next_rec = rec;
        Ok(out)
    }

    /// One read whose item count depends on its own first item: `n`, and `n` items after it.
    ///
    /// This is a single read, not two: reading `n` on its own would discard what follows it on
    /// its record. A negative `n` counts as zero items. The list has `n` places whatever ends the
    /// read: those that a slash leaves unread are `None`, which means "leave unchanged".
    pub fn read_count_and_list(&mut self) -> (r: Result<(i32, Vec<Option<String>>), DeckError>)
        ensures
            final(self).records() == old(self).records(),
            match list_read(old(self).records(), old(self).next(), 1) {
                Err(got) => {
                    &&& r is Err
                    &&& r->Err_0 == (DeckError::UnexpectedEof { wanted: 1, got: 0 })
                    &&& final(self).next() == old(self).next()
                },
                Ok((first, after)) => match number::integer_value(
                    number::normalised(first_text(first)),
                ) {
                    None => {
                        &&& is_bad_number(r, first_text(first), "integer"@)
                        &&& final(self).next() == if first.len() == 0 {
                            after
                        } else {
                            old(self).next()
                        }
                    },
                    Some(n) => match list_read(
                        old(self).records(),
                        old(self).next(),
                        (1 + counted(n)) as nat,
                    ) {
                        Err(got) => {
                            &&& r is Err
                            &&& r->Err_0 == (DeckError::UnexpectedEof {
                                wanted: (1 + counted(n)) as usize,
                                got: got as usize,
                            })
                            &&& final(self).next() == old(self).next()
                        },
                        Ok((read, next)) => {
                            &&& r is Ok
                            &&& r->Ok_0.0 == n
                            &&& r->Ok_0.1@.len() == counted(n)
                            &&& items(r->Ok_0.1@) == filled(read.skip(1), counted(n) as nat)
                            &&& final(self).next() == next
                        },
                    },
                },
            },
    {
        let start: usize = self.next_rec;
        let first = match self.read_values(1) {
            Ok(first) => first,
            Err(e) => {
                proof {
                    eof_has_too_few(self.records(), start as int, Seq::empty(), 1);
                }
                return Err(e);
            },
        };
        let token = text_of_first(&first);
        let n: i32 = match parse_i32(token.as_str()) {
            Ok(n) => n,
            Err(e) => {
                if first.len() > 0 {
                    self.next_rec = start;
                }
                return Err(e);
            },
        };
        self.next_rec = start;
        let wanted: usize = 1 + (if n > 0 { n as usize } else { 0 });
        let read = match self.read_values(wanted) {
            Ok(read) => read,
            Err(e) => {
                return Err(e);
            },
        };
        proof {
            let (records, at) = (self.records(), start as int);
            first_item_stays(records, at, wanted as nat);
            assert(number::normalised(Seq::<char>::empty()) == Seq::<char>::empty());
            empty_is_no_number();
        }
        let mut list: Vec<Option<String>> = Vec::new();
        let mut i: usize = 1;
        while i < wanted
            invariant
                1 <= i <= wanted,
                list.len() == i - 1,
                forall|k: int|
                    0 <= k < i - 1 ==> item(#[trigger] list@[k]) == if k + 1 < read.len() {
                        item(read@[k + 1])
                    } else {
                        None
                    },
            decreases wanted - i,
        {
            let place: Option<String> = if i < read.len() {
                read[i].clone()
            } else {
                None
            };
            list.push(place);
            i += 1;
        }
        assert(items(list@) =~= filled(items(read@).skip(1), counted(n as int) as nat));
        Ok((n, list))
    }

    /// One integer item. A null, or a slash before it, is no number.
    pub fn i32(&mut self) -> (r: Result<i32, DeckError>)
        ensures
            final(self).records() == old(self).records(),
            match list_read(old(self).records(), old(self).next(), 1) {
                Err(got) => {
                    &&& r is Err
                    &&& r->Err_0 == (DeckError::UnexpectedEof { wanted: 1, got: 0 })
                    &&& final(self).next() == old(self).next()
                },
                Ok((first, next)) => {
                    &&& final(self).next() == next
                    &&& match number::integer_value(number::normalised(first_text(first))) {
                        Some(n) => r is Ok && r->Ok_0 == n,
                        None => is_bad_number(r, first_text(first), "integer"@),
                    }
                },
            },
    {
        let ghost start = self.next();
        match self.read_values(1) {
            Ok(first) => parse_i32(text_of_first(&first).as_str()),
            Err(e) => {
                proof {
                    eof_has_too_few(self.records(), start, Seq::empty(), 1);
                }
                Err(e)
            },
        }
    }

    /// One single-precision item: its literal, with `e` as the exponent marker.
    pub fn real4(&mut self) -> (r: Result<String, DeckError>)
        ensures
            final(self).records() == old(self).records(),
            reads_real(old(self).records(), old(self).next(), final(self).next(), r, "real*4"@),
    {
        let ghost start = self.next();
        match self.read_values(1) {
            Ok(first) => parse_f32(text_of_first(&first).as_str()),
            Err(e) => {
                proof {
                    eof_has_too_few(self.records(), start, Seq::empty(), 1);
                }
                Err(e)
            },
        }
    }

    /// One double-precision item: its literal, with `e` as the exponent marker.
    pub fn real8(&mut self) -> (r: Result<String, DeckError>)
        ensures
            final(self).records() == old(self).records(),
            reads_real(old(self).records(), old(self).next(), final(self).next(), r, "real*8"@),
    {
        let ghost start = self.next();
        match self.read_values(1) {
            Ok(first) => parse_f64(text_of_first(&first).as_str()),
            Err(e) => {
                proof {
                    eof_has_too_few(self.records(), start, Seq::empty(), 1);
                }
                Err(e)
            },
        }
    }
}

/// How many items a count asks for.
pub open spec fn counted(n: int) -> int {
    if n > 0 {
        n
    } else {
        0
    }
}

/// Whether `r` refuses `token` as a number of `kind`.
pub open spec fn is_bad_number<T>(
    r: Result<T, DeckError>,
    token: Seq<char>,
    kind: Seq<char>,
) -> bool {
    r matches Err(DeckError::BadNumber { token: t, kind: k }) && t@ == token && k@ == kind
}

/// What a token is as a real of `kind`: its normalised literal, or a refusal.
pub open spec fn is_real_or_bad(
    r: Result<String, DeckError>,
    token: Seq<char>,
    kind: Seq<char>,
) -> bool {
    if number::is_real(number::normalised(token)) {
        r is Ok && r->Ok_0@ == number::normalised(token)
    } else {
        is_bad_number(r, token, kind)
    }
}

/// What reading one real item of `kind` does: `at` is where it starts, `next` where it ends.
pub open spec fn reads_real(
    records: Seq<Seq<char>>,
    at: int,
    next: int,
    r: Result<String, DeckError>,
    kind: Seq<char>,
) -> bool {
    match list_read(records, at, 1) {
        Err(got) => {
            &&& r is Err
            &&& r->Err_0 == (DeckError::UnexpectedEof { wanted: 1, got: 0 })
            &&& next == at
        },
        Ok((first, after)) => next == after && is_real_or_bad(r, first_text(first), kind),
    }
}

/// A read that meets the end has fewer items than it wanted.
proof fn eof_has_too_few(
    records: Seq<Seq<char>>,
    at: int,
    got: Seq<Option<Seq<char>>>,
    n: nat,
)
    ensures
        read_from(records, at, got, n) matches Err(k) ==> k < n,
    decreases records.len() - at,
{
    if got.len() < n && at < records.len() {
        eof_has_too_few(records, at + 1, got + items_of(line_symbols(records[at])), n);
    }
}

/// A read keeps what it has, and never holds more than it wants.
proof fn read_keeps(
    records: Seq<Seq<char>>,
    at: int,
    got: Seq<Option<Seq<char>>>,
    n: nat,
)
    ensures
        read_from(records, at, got, n) matches Ok((all, _)) ==> {
            &&& all.len() <= n
            &&& at_most(got, n).len() <= all.len()
            &&& all.take(at_most(got, n).len() as int) == at_most(got, n)
        },
    decreases records.len() - at,
{
    if got.len() >= n {
        let all = at_most(got, n);
        assert(all.take(all.len() as int) == all);
    } else if at < records.len() {
        let line = line_symbols(records[at]);
        let more = got + items_of(line);
        if more.len() < n && slashed(line) {
            assert(more.take(got.len() as int) == got);
        } else {
            read_keeps(records, at + 1, more, n);
            if read_from(records, at + 1, more, n) is Ok {
                let all = read_from(records, at + 1, more, n)->Ok_0.0;
                let part = at_most(more, n);
                assert(part.take(got.len() as int) == got);
                assert(all.take(part.len() as int).take(got.len() as int) == all.take(
                    got.len() as int,
                ));
            }
        }
    }
}

/// A longer read finds the same first item as a read of one.
pub proof fn first_item_stays(records: Seq<Seq<char>>, at: int, n: nat)
    requires
        n >= 1,
    ensures
        list_read(records, at, 1) matches Ok((one, _)) ==> one.len() >= 1 ==> (list_read(
            records,
            at,
            n,
        ) matches Ok((all, _)) ==> all.len() >= 1 && all[0] == one[0]),
    decreases records.len() - at,
{
    reveal_with_fuel(read_from, 2);
    let none = Seq::<Option<Seq<char>>>::empty();
    if at < records.len() {
        let line = line_symbols(records[at]);
        let found = none + items_of(line);
        assert(found == items_of(line));
        if found.len() == 0 {
            assert(found == none);
            if !slashed(line) {
                first_item_stays(records, at + 1, n);
            }
        } else {
            read_keeps(records, at + 1, found, n);
            assert(list_read(records, at, 1) == Ok::<_, nat>((at_most(found, 1), at + 1)));
            assert(at_most(found, 1)[0] == found[0]);
            if found.len() < n && slashed(line) {
            } else if read_from(records, at + 1, found, n) is Ok {
                let all = read_from(records, at + 1, found, n)->Ok_0.0;
                let part = at_most(found, n);
                assert(all.take(part.len() as int)[0] == all[0]);
                assert(part[0] == found[0]);
            }
        }
    }
}

/// An empty token is no number.
proof fn empty_is_no_number()
    ensures
        number::integer_value(Seq::<char>::empty()) is None,
{
    let s = Seq::<char>::empty();
    assert(number::unsigned(s) == s);
    assert(number::before_point(s).len() == 0);
    assert(number::after_point(s).len() == 0);
}

/// The text of the first item, empty where there is none or it is a null.
fn text_of_first(read: &Vec<Option<String>>) -> (s: String)
    ensures
        s@ == first_text(items(read@)),
{
    if read.len() > 0 {
        assert(items(read@)[0] == item(read@[0]));
        match &read[0] {
            Some(s) => s.clone(),
            None => String::new(),
        }
    } else {
        String::new()
    }
}

/// The integer that a token writes. A real literal is accepted and cut toward zero.
pub fn parse_i32(token: &str) -> (r: Result<i32, DeckError>)
    ensures
        match number::integer_value(number::normalised(token@)) {
            Some(n) => r is Ok && r->Ok_0 == n,
            None => is_bad_number(r, token@, "integer"@),
        },
{
    match read_integer(&normalize_number(token)) {
        Some(n) => Ok(n),
        None => Err(DeckError::BadNumber { token: token.to_owned(), kind: "integer" }),
    }
}

/// The single-precision literal that a token writes, with `e` as its exponent marker.
pub fn parse_f32(token: &str) -> (r: Result<String, DeckError>)
    ensures
        is_real_or_bad(r, token@, "real*4"@),
{
    let literal = normalize_number(token);
    assert(literal@.subrange(0, literal@.len() as int) == literal@);
    if check_real(&literal) {
        Ok(string_of(&literal, 0, literal.len()))
    } else {
        Err(DeckError::BadNumber { token: token.to_owned(), kind: "real*4" })
    }
}

/// The double-precision literal that a token writes, with `e` as its exponent marker.
pub fn parse_f64(token: &str) -> (r: Result<String, DeckError>)
    ensures
        is_real_or_bad(r, token@, "real*8"@),
{
    let literal = normalize_number(token);
    assert(literal@.subrange(0, literal@.len() as int) == literal@);
    if check_real(&literal) {
        Ok(string_of(&literal, 0, literal.len()))
    } else {
        Err(DeckError::BadNumber { token: token.to_owned(), kind: "real*8" })
    }
}

// ---------------------------------------------------------------------------
// Laws
// ---------------------------------------------------------------------------

/// A record of blanks and tabs holds no symbols from any position on.
proof fn blanks_hold_nothing(line: Seq<char>, at: int)
    requires
        0 <= at <= line.len(),
        forall|i: int| 0 <= i < line.len() ==> #[trigger] line[i] == ' ' || line[i] == '\t',
    ensures
        symbols_from(line, at, true) == Seq::<Symbol>::empty(),
    decreases line.len() - at,
{
    if at < line.len() {
        blanks_hold_nothing(line, at + 1);
    }
}

/// Blank records are separators: a read that wants something passes over one as if it were not
/// there.
pub proof fn blank_records_separate(records: Seq<Seq<char>>, at: int, n: nat)
    requires
        0 <= at < records.len(),
        n >= 1,
        forall|i: int|
            0 <= i < records[at].len() ==> #[trigger] records[at][i] == ' ' || records[at][i]
                == '\t',
    ensures
        list_read(records, at, n) == list_read(records, at + 1, n),
{
    blanks_hold_nothing(records[at], 0);
    let none = Seq::<Option<Seq<char>>>::empty();
    assert(items_of(line_symbols(records[at])) == none);
    assert(none + none == none);
}

/// Two records that agree up to a slash hold the same symbols from any position before it on.
proof fn slash_hides(head: Seq<char>, a: Seq<char>, b: Seq<char>, at: int, after_comma: bool)
    requires
        0 <= at <= head.len(),
    ensures
        symbols_from(head + seq!['/'] + a, at, after_comma) == symbols_from(
            head + seq!['/'] + b,
            at,
            after_comma,
        ),
    decreases head.len() - at,
{
    let x = head + seq!['/'] + a;
    let y = head + seq!['/'] + b;
    assert(x[head.len() as int] == '/' && y[head.len() as int] == '/');
    if at < head.len() {
        assert(x[at] == head[at] && y[at] == head[at]);
        if head[at] == ' ' || head[at] == '\t' {
            slash_hides(head, a, b, at + 1, after_comma);
        } else if head[at] == ',' {
            slash_hides(head, a, b, at + 1, true);
        } else if head[at] != '/' {
            let end = text::first_of(x, word_stops(), at);
            text::first_of_is_first(x, word_stops(), at);
            if end > head.len() {
                assert(!word_stops().contains(x[head.len() as int]));
                assert(false);
            }
            assert forall|i: int| at <= i < end implies !word_stops().contains(#[trigger] y[i]) by {
                assert(x[i] == y[i]);
            }
            assert(x[end] == y[end]);
            text::first_of_unique(y, word_stops(), at, end);
            assert(x.subrange(at, end) == y.subrange(at, end));
            slash_hides(head, a, b, end, false);
        }
    }
}

/// Nothing counts after a slash: what follows it on its record changes no read.
pub proof fn nothing_counts_after_a_slash(head: Seq<char>, a: Seq<char>, b: Seq<char>)
    ensures
        line_symbols(head + seq!['/'] + a) == line_symbols(head + seq!['/'] + b),
{
    slash_hides(head, a, b, 0, true);
}

/// A read that wants something ends past the record it started at, so that the next one starts
/// at a fresh record, whatever was left over.
pub proof fn a_read_ends_at_a_fresh_record(records: Seq<Seq<char>>, at: int, n: nat)
    requires
        n >= 1,
    ensures
        list_read(records, at, n) matches Ok((_, next)) ==> at < next <= records.len(),
{
    read_moves_on(records, at, Seq::empty(), n);
}

/// A read that still wants something moves on, and stays within the records.
proof fn read_moves_on(
    records: Seq<Seq<char>>,
    at: int,
    got: Seq<Option<Seq<char>>>,
    n: nat,
)
    ensures
        read_from(records, at, got, n) matches Ok((_, next)) ==> at <= next && (got.len() < n
            ==> at < next <= records.len()) && (at <= records.len() ==> next <= records.len()),
    decreases records.len() - at,
{
    if got.len() < n && at < records.len() {
        read_moves_on(records, at + 1, got + items_of(line_symbols(records[at])), n);
    }
}

/// A read takes what it wants and no more; only a slash makes it shorter.
pub proof fn a_read_is_full_unless_slashed(records: Seq<Seq<char>>, at: int, n: nat)
    requires
        forall|i: int|
            0 <= i < records.len() ==> !slashed(line_symbols(#[trigger] records[i])),
        0 <= at,
    ensures
        list_read(records, at, n) matches Ok((all, _)) ==> all.len() == n,
{
    unslashed_read_is_full(records, at, Seq::empty(), n);
}

/// Without a slash a read ends full, or at the end of the records.
proof fn unslashed_read_is_full(
    records: Seq<Seq<char>>,
    at: int,
    got: Seq<Option<Seq<char>>>,
    n: nat,
)
    requires
        forall|i: int|
            0 <= i < records.len() ==> !slashed(line_symbols(#[trigger] records[i])),
        0 <= at,
    ensures
        read_from(records, at, got, n) matches Ok((all, _)) ==> all.len() == n,
    decreases records.len() - at,
{
    if got.len() < n && at < records.len() {
        assert(!slashed(line_symbols(records[at])));
        unslashed_read_is_full(records, at + 1, got + items_of(line_symbols(records[at])), n);
    }
}

/// Whether a character parts words: a blank, a tab, a comma or a slash.
pub open spec fn parts_words(c: char) -> bool {
    c == ' ' || c == '\t' || c == ',' || c == '/'
}

/// Whether `s` is a word: some characters, none of which parts words.
pub open spec fn is_word(s: Seq<char>) -> bool {
    s.len() > 0 && forall|i: int| 0 <= i < s.len() ==> !parts_words(#[trigger] s[i])
}

/// Whether `s` is a word without a star.
pub open spec fn is_plain_word(s: Seq<char>) -> bool {
    is_word(s) && forall|i: int| 0 <= i < s.len() ==> #[trigger] s[i] != '*'
}

/// The text that a symbol carries, if it carries one.
pub open spec fn carried(s: Symbol) -> Option<Seq<char>> {
    match s {
        Symbol::Value(v) => Some(v),
        Symbol::Repeat(_, v) => Some(v),
        Symbol::Null => None,
        Symbol::Slash => None,
    }
}

/// The text of a word's symbol is a word.
proof fn symbols_carry_words(word: Seq<char>)
    requires
        is_word(word),
    ensures
        carried(symbol_of(word)) is Some,
        is_word(carried(symbol_of(word))->0),
{
    let star = text::first_of(word, set!['*'], 0);
    text::first_of_is_first(word, set!['*'], 0);
    let v = carried(symbol_of(word))->0;
    if symbol_of(word) is Repeat {
        assert(v == word.skip(star + 1));
        assert forall|i: int| 0 <= i < v.len() implies !parts_words(#[trigger] v[i]) by {
            assert(v[i] == word[i + star + 1]);
        }
    }
}

/// What stands between two stops of a record is a word.
proof fn stops_bound_words(line: Seq<char>, at: int)
    requires
        0 <= at < line.len(),
        !parts_words(line[at]),
    ensures
        at < text::first_of(line, word_stops(), at) <= line.len(),
        is_word(line.subrange(at, text::first_of(line, word_stops(), at))),
{
    let end = text::first_of(line, word_stops(), at);
    text::first_of_is_first(line, word_stops(), at);
    let word = line.subrange(at, end);
    assert forall|i: int| 0 <= i < word.len() implies !parts_words(#[trigger] word[i]) by {
        assert(word[i] == line[at + i]);
        assert(!word_stops().contains(line[at + i]));
    }
}

/// The texts from any position of a record on are words.
proof fn texts_from_are_words(line: Seq<char>, at: int, after_comma: bool)
    requires
        0 <= at <= line.len(),
    ensures
        forall|i: int|
            0 <= i < symbols_from(line, at, after_comma).len() ==> (carried(
                #[trigger] symbols_from(line, at, after_comma)[i],
            ) matches Some(v) ==> is_word(v)),
    decreases line.len() - at,
{
    if at < line.len() {
        if line[at] == ' ' || line[at] == '\t' {
            texts_from_are_words(line, at + 1, after_comma);
        } else if line[at] == ',' {
            texts_from_are_words(line, at + 1, true);
        } else if line[at] != '/' {
            let end = text::first_of(line, word_stops(), at);
            stops_bound_words(line, at);
            symbols_carry_words(line.subrange(at, end));
            texts_from_are_words(line, end, false);
        }
    }
}

/// No text on a record holds a blank, a tab, a comma or a slash, and none is empty: each of them
/// parts two texts, wherever it stands.
pub proof fn texts_are_words(line: Seq<char>)
    ensures
        forall|i: int|
            0 <= i < line_symbols(line).len() ==> (carried(
                #[trigger] line_symbols(line)[i],
            ) matches Some(v) ==> is_word(v)),
{
    texts_from_are_words(line, 0, true);
}

/// Whether two records differ in nothing but which of their gaps are blanks and which are tabs.
pub open spec fn same_but_for_gaps(a: Seq<char>, b: Seq<char>) -> bool {
    &&& a.len() == b.len()
    &&& forall|i: int|
        0 <= i < a.len() ==> #[trigger] a[i] == b[i] || ((a[i] == ' ' || a[i] == '\t') && (b[i]
            == ' ' || b[i] == '\t'))
}

/// Two records that are the same but for their gaps hold the same symbols from any position on.
proof fn gaps_are_alike_from(a: Seq<char>, b: Seq<char>, at: int, after_comma: bool)
    requires
        same_but_for_gaps(a, b),
        0 <= at <= a.len(),
    ensures
        symbols_from(a, at, after_comma) == symbols_from(b, at, after_comma),
    decreases a.len() - at,
{
    if at < a.len() {
        if a[at] == ' ' || a[at] == '\t' {
            gaps_are_alike_from(a, b, at + 1, after_comma);
        } else if a[at] == ',' {
            gaps_are_alike_from(a, b, at + 1, true);
        } else if a[at] != '/' {
            let end = text::first_of(a, word_stops(), at);
            text::first_of_is_first(a, word_stops(), at);
            stops_bound_words(a, at);
            assert forall|i: int| at <= i < end implies !word_stops().contains(#[trigger] b[i]) by {
                assert(!word_stops().contains(a[i]));
            }
            if end < a.len() {
                assert(word_stops().contains(a[end]));
            }
            text::first_of_unique(b, word_stops(), at, end);
            assert(a.subrange(at, end) =~= b.subrange(at, end)) by {
                assert forall|i: int| at <= i < end implies a[i] == b[i] by {
                    assert(!word_stops().contains(a[i]));
                }
            }
            gaps_are_alike_from(a, b, end, false);
        }
    }
}

/// A tab is as good as a blank: putting one in place of the other, anywhere on a record, changes
/// nothing that is read from it.
pub proof fn tabs_are_as_good_as_blanks(a: Seq<char>, b: Seq<char>)
    requires
        same_but_for_gaps(a, b),
    ensures
        line_symbols(a) == line_symbols(b),
{
    gaps_are_alike_from(a, b, 0, true);
}

/// What stands on a record from a position on is what stands on the rest of it.
proof fn the_rest_is_read_alike(line: Seq<char>, from: int, at: int, after_comma: bool)
    requires
        0 <= from,
        0 <= at,
        from + at <= line.len(),
    ensures
        symbols_from(line, from + at, after_comma) == symbols_from(
            line.skip(from),
            at,
            after_comma,
        ),
    decreases line.len() - from - at,
{
    let rest = line.skip(from);
    if from + at < line.len() {
        assert(rest[at] == line[from + at]);
        if rest[at] == ' ' || rest[at] == '\t' {
            the_rest_is_read_alike(line, from, at + 1, after_comma);
        } else if rest[at] == ',' {
            the_rest_is_read_alike(line, from, at + 1, true);
        } else if rest[at] != '/' {
            let end = text::first_of(rest, word_stops(), at);
            text::first_of_is_first(rest, word_stops(), at);
            stops_bound_words(rest, at);
            assert forall|i: int| from + at <= i < from + end implies !word_stops().contains(
                #[trigger] line[i],
            ) by {
                assert(line[i] == rest[i - from]);
            }
            if end < rest.len() {
                assert(line[from + end] == rest[end]);
            }
            text::first_of_unique(line, word_stops(), from + at, from + end);
            assert(line.subrange(from + at, from + end) =~= rest.subrange(at, end));
            the_rest_is_read_alike(line, from, end, false);
        }
    }
}

/// A word at the start of a record, with the end or something that parts words after it, is read
/// first and whole.
proof fn a_word_is_read_first(word: Seq<char>, rest: Seq<char>, after_comma: bool)
    requires
        is_word(word),
        rest.len() > 0 ==> parts_words(rest[0]),
    ensures
        symbols_from(word + rest, 0, after_comma) == seq![symbol_of(word)] + symbols_from(
            rest,
            0,
            false,
        ),
{
    let line = word + rest;
    let end = word.len() as int;
    assert(!parts_words(word[0]));
    assert(line[0] == word[0]);
    assert forall|i: int| 0 <= i < end implies !word_stops().contains(#[trigger] line[i]) by {
        assert(line[i] == word[i]);
    }
    if rest.len() > 0 {
        assert(line[end] == rest[0]);
    }
    text::first_of_unique(line, word_stops(), 0, end);
    assert(line.subrange(0, end) =~= word);
    assert(line.skip(end) =~= rest);
    the_rest_is_read_alike(line, end, 0, false);
}

/// A word without a star is a value.
proof fn plain_words_are_values(word: Seq<char>)
    requires
        is_plain_word(word),
    ensures
        symbol_of(word) == Symbol::Value(word),
{
    text::first_of_unique(word, set!['*'], 0, word.len() as int);
}

/// `words` on one record, with `gap` between each and the next.
pub open spec fn joined(words: Seq<Seq<char>>, gap: Seq<char>) -> Seq<char>
    decreases words.len(),
{
    if words.len() == 0 {
        Seq::empty()
    } else if words.len() == 1 {
        words[0]
    } else {
        words[0] + (gap + joined(words.skip(1), gap))
    }
}

/// Whether `s` is some blanks and tabs.
pub open spec fn is_gap(s: Seq<char>) -> bool {
    s.len() > 0 && forall|i: int| 0 <= i < s.len() ==> #[trigger] s[i] == ' ' || s[i] == '\t'
}

/// Blanks and tabs before something are passed over.
proof fn gaps_are_passed_over(gap: Seq<char>, rest: Seq<char>, at: int, after_comma: bool)
    requires
        0 <= at <= gap.len(),
        forall|i: int| 0 <= i < gap.len() ==> #[trigger] gap[i] == ' ' || gap[i] == '\t',
    ensures
        symbols_from(gap + rest, at, after_comma) == symbols_from(rest, 0, after_comma),
    decreases gap.len() - at,
{
    let line = gap + rest;
    if at < gap.len() {
        assert(line[at] == gap[at]);
        gaps_are_passed_over(gap, rest, at + 1, after_comma);
    } else {
        assert(line.skip(at) =~= rest);
        the_rest_is_read_alike(line, at, 0, after_comma);
    }
}

/// The words of a record that has gaps between them, read after a comma or not.
proof fn joined_words_are_read(words: Seq<Seq<char>>, gap: Seq<char>, after_comma: bool)
    requires
        forall|i: int| 0 <= i < words.len() ==> is_plain_word(#[trigger] words[i]),
        is_gap(gap),
    ensures
        symbols_from(joined(words, gap), 0, after_comma) == words.map_values(
            |w: Seq<char>| Symbol::Value(w),
        ),
    decreases words.len(),
{
    let values = words.map_values(|w: Seq<char>| Symbol::Value(w));
    if words.len() == 0 {
        assert(values =~= Seq::<Symbol>::empty());
    } else {
        let rest = words.skip(1);
        assert forall|i: int| 0 <= i < rest.len() implies is_plain_word(#[trigger] rest[i]) by {
            assert(rest[i] == words[i + 1]);
        }
        assert(is_plain_word(words[0]));
        plain_words_are_values(words[0]);
        let after = if words.len() == 1 {
            Seq::empty()
        } else {
            gap + joined(rest, gap)
        };
        assert(joined(words, gap) =~= words[0] + after);
        if words.len() > 1 {
            assert(after[0] == gap[0]);
            joined_words_are_read(rest, gap, false);
            gaps_are_passed_over(gap, joined(rest, gap), 0, false);
        }
        a_word_is_read_first(words[0], after, after_comma);
        assert(values =~= seq![Symbol::Value(words[0])] + rest.map_values(
            |w: Seq<char>| Symbol::Value(w),
        ));
    }
}

/// Words with gaps between them are read back one by one: each is one value, in order, whatever
/// blanks and tabs the gaps are made of.
pub proof fn words_are_read_back(words: Seq<Seq<char>>, gap: Seq<char>)
    requires
        forall|i: int| 0 <= i < words.len() ==> is_plain_word(#[trigger] words[i]),
        is_gap(gap),
    ensures
        line_symbols(joined(words, gap)) == words.map_values(|w: Seq<char>| Symbol::Value(w)),
        items_of(line_symbols(joined(words, gap))) == words.map_values(
            |w: Seq<char>| Some::<Seq<char>>(w),
        ),
        !slashed(line_symbols(joined(words, gap))),
{
    joined_words_are_read(words, gap, true);
    values_are_items(words);
}

/// Values stand for themselves.
proof fn values_are_items(words: Seq<Seq<char>>)
    ensures
        items_of(words.map_values(|w: Seq<char>| Symbol::Value(w))) == words.map_values(
            |w: Seq<char>| Some::<Seq<char>>(w),
        ),
    decreases words.len(),
{
    let values = words.map_values(|w: Seq<char>| Symbol::Value(w));
    if words.len() > 0 {
        let rest = words.skip(1);
        values_are_items(rest);
        assert(values.skip(1) =~= rest.map_values(|w: Seq<char>| Symbol::Value(w)));
    }
}

/// Places on one record, with commas between them. A place without a word is left empty.
pub open spec fn listed(places: Seq<Option<Seq<char>>>) -> Seq<char>
    decreases places.len(),
{
    if places.len() == 0 {
        Seq::empty()
    } else {
        let first = match places[0] {
            Some(word) => word,
            None => Seq::empty(),
        };
        if places.len() == 1 {
            first
        } else {
            first + (seq![','] + listed(places.skip(1)))
        }
    }
}

/// Places with commas between them are read back one by one, the empty ones as empty places, as
/// long as the last one is not empty.
pub proof fn lists_are_read_back(places: Seq<Option<Seq<char>>>)
    requires
        places.len() > 0 ==> places.last() is Some,
        forall|i: int|
            0 <= i < places.len() ==> (#[trigger] places[i] matches Some(w) ==> is_plain_word(w)),
    ensures
        items_of(line_symbols(listed(places))) == places,
    decreases places.len(),
{
    let line = listed(places);
    if places.len() == 0 {
        assert(items_of(line_symbols(line)) =~= places);
    } else {
        let rest = places.skip(1);
        let none = Seq::<Option<Seq<char>>>::empty();
        if rest.len() > 0 {
            assert(rest.last() == places.last());
            assert forall|i: int| 0 <= i < rest.len() implies (#[trigger] rest[i] matches Some(w)
                ==> is_plain_word(w)) by {
                assert(rest[i] == places[i + 1]);
            }
            lists_are_read_back(rest);
        }
        let after = if places.len() == 1 {
            Seq::empty()
        } else {
            seq![','] + listed(rest)
        };
        if places.len() > 1 {
            assert(after[0] == ',');
            assert(after.skip(1) =~= listed(rest));
            the_rest_is_read_alike(after, 1, 0, true);
        }
        match places[0] {
            Some(word) => {
                plain_words_are_values(word);
                assert(line =~= word + after);
                a_word_is_read_first(word, after, true);
                let all = line_symbols(line);
                assert(all.skip(1) =~= symbols_from(after, 0, false));
                assert(places =~= seq![Some(word)] + rest);
                if places.len() == 1 {
                    assert(items_of(all.skip(1)) =~= none);
                    assert(rest =~= none);
                }
            },
            None => {
                assert(line =~= after);
                let all = line_symbols(line);
                assert(all.skip(1) =~= line_symbols(listed(rest)));
                assert(places =~= seq![None::<Seq<char>>] + rest);
            },
        }
    }
}

/// A repeat count stands for that many copies of its word: `r*word` is `word`, `r` times over.
pub proof fn repeats_are_copies(count: Seq<char>, word: Seq<char>)
    requires
        count.len() > 0,
        number::all_digits(count),
        number::natural(count) <= usize::MAX,
        is_word(word),
    ensures
        items_of(line_symbols(count + seq!['*'] + word)) == Seq::new(
            number::natural(count),
            |i: int| Some(word),
        ),
{
    let whole = count + seq!['*'] + word;
    let star = count.len() as int;
    assert(forall|i: int| 0 <= i < star ==> #[trigger] whole[i] == count[i]);
    assert(whole[star] == '*');
    assert forall|i: int| 0 <= i < whole.len() implies !parts_words(#[trigger] whole[i]) by {
        if i < star {
            assert(number::digit(count[i]));
        } else if i > star {
            assert(whole[i] == word[i - star - 1]);
        }
    }
    assert forall|i: int| 0 <= i < star implies !set!['*'].contains(#[trigger] whole[i]) by {
        assert(number::digit(count[i]));
    }
    text::first_of_unique(whole, set!['*'], 0, star);
    assert(whole.take(star) =~= count);
    assert(whole.skip(star + 1) =~= word);
    assert(number::digit(count[0]));
    let none = Seq::<char>::empty();
    assert(whole + none =~= whole);
    a_word_is_read_first(whole, none, true);
    let all = line_symbols(whole);
    assert(all =~= seq![Symbol::Repeat(number::natural(count), word)]);
    assert(all.skip(1) =~= Seq::<Symbol>::empty());
    assert(items_of(all.skip(1)) =~= Seq::<Option<Seq<char>>>::empty());
    assert(all[0] == Symbol::Repeat(number::natural(count), word));
    assert(items_of(all) =~= Seq::new(number::natural(count), |i: int| Some(word)));
}

/// A read of no more items than a record has words takes its first ones, and moves on to the next
/// record.
pub proof fn a_read_takes_the_words_of_its_record(
    records: Seq<Seq<char>>,
    at: int,
    words: Seq<Seq<char>>,
    gap: Seq<char>,
    n: nat,
)
    requires
        0 <= at < records.len(),
        records[at] == joined(words, gap),
        forall|i: int| 0 <= i < words.len() ==> is_plain_word(#[trigger] words[i]),
        is_gap(gap),
        1 <= n <= words.len(),
    ensures
        list_read(records, at, n) == Ok::<_, nat>(
            (Seq::new(n, |i: int| Some(words[i])), at + 1),
        ),
{
    words_are_read_back(words, gap);
    let none = Seq::<Option<Seq<char>>>::empty();
    let found = none + items_of(line_symbols(records[at]));
    reveal_with_fuel(read_from, 2);
    assert(at_most(found, n) =~= Seq::new(n, |i: int| Some(words[i])));
}

/// A read of more items than a record has words goes on at the next record, for as many items as
/// are still wanted.
pub proof fn a_read_goes_on_at_the_next_record(
    records: Seq<Seq<char>>,
    at: int,
    words: Seq<Seq<char>>,
    gap: Seq<char>,
    n: nat,
)
    requires
        0 <= at < records.len(),
        records[at] == joined(words, gap),
        forall|i: int| 0 <= i < words.len() ==> is_plain_word(#[trigger] words[i]),
        is_gap(gap),
        n > words.len(),
    ensures
        list_read(records, at, n) == match list_read(records, at + 1, (n - words.len()) as nat) {
            Ok((more, next)) => Ok::<_, nat>(
                (words.map_values(|w: Seq<char>| Some::<Seq<char>>(w)) + more, next),
            ),
            Err(got) => Err(words.len() + got),
        },
{
    words_are_read_back(words, gap);
    let none = Seq::<Option<Seq<char>>>::empty();
    let read = words.map_values(|w: Seq<char>| Some::<Seq<char>>(w));
    assert(none + items_of(line_symbols(records[at])) =~= read);
    earlier_items_stand_before(records, at + 1, read, none, (n - words.len()) as nat);
    assert(read + none =~= read);
}

/// What a read has before it goes on stands before what it reads after.
proof fn earlier_items_stand_before(
    records: Seq<Seq<char>>,
    at: int,
    had: Seq<Option<Seq<char>>>,
    got: Seq<Option<Seq<char>>>,
    n: nat,
)
    ensures
        read_from(records, at, had + got, had.len() + n) == match read_from(records, at, got, n) {
            Ok((all, next)) => Ok::<_, nat>((had + all, next)),
            Err(k) => Err(had.len() + k),
        },
    decreases records.len() - at,
{
    if got.len() >= n {
        assert(at_most(had + got, had.len() + n) =~= had + at_most(got, n));
    } else if at < records.len() {
        let line = items_of(line_symbols(records[at]));
        assert((had + got) + line =~= had + (got + line));
        earlier_items_stand_before(records, at + 1, had, got + line, n);
    }
}

} // verus!
