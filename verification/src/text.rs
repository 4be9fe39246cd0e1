//! Characters, words and records: the text model the readers are stated over.
//!
//! A string is the sequence of its characters. Everything here moves between `&str`, `String`
//! and `Vec<char>` without changing that sequence, or cuts it at a place the contract names.

use vstd::prelude::*;

verus! {

/// `String::push` appends one character.
pub assume_specification[ String::push ](s: &mut String, c: char)
    ensures
        final(s)@ == old(s)@.push(c),
;

/// The characters of `s`, in order.
pub fn chars_of(s: &str) -> (v: Vec<char>)
    ensures
        v@ == s@,
{
    let mut v: Vec<char> = Vec::new();
    for c in it: s.chars()
        invariant
            v@ == it.seq().take(it.index() as int),
            it.seq() == s@,
    {
        v.push(c);
    }
    v
}

/// The string that holds `chars[from..to]`.
pub fn string_of(chars: &Vec<char>, from: usize, to: usize) -> (s: String)
    requires
        from <= to <= chars.len(),
    ensures
        s@ == chars@.subrange(from as int, to as int),
{
    let mut s: String = String::new();
    let mut i: usize = from;
    while i < to
        invariant
            from <= i <= to <= chars.len(),
            s@ == chars@.subrange(from as int, i as int),
        decreases to - i,
    {
        s.push(chars[i]);
        i += 1;
    }
    s
}

/// The first position at or after `from` whose character is in `stops`, or the length of `s`.
pub open spec fn first_of(s: Seq<char>, stops: Set<char>, from: int) -> int
    decreases s.len() - from,
{
    if from >= s.len() || stops.contains(s[from]) {
        from
    } else {
        first_of(s, stops, from + 1)
    }
}

/// `first_of` is where the first stop is: it lies in range, nothing before it is a stop, and it
/// is a stop itself unless it is the end.
pub proof fn first_of_is_first(s: Seq<char>, stops: Set<char>, from: int)
    requires
        0 <= from <= s.len(),
    ensures
        from <= first_of(s, stops, from) <= s.len(),
        forall|i: int| from <= i < first_of(s, stops, from) ==> !stops.contains(#[trigger] s[i]),
        first_of(s, stops, from) < s.len() ==> stops.contains(s[first_of(s, stops, from)]),
    decreases s.len() - from,
{
    if from < s.len() && !stops.contains(s[from]) {
        first_of_is_first(s, stops, from + 1);
    }
}

/// A position with nothing but non-stops before it, and a stop or the end at it, is `first_of`.
pub proof fn first_of_unique(s: Seq<char>, stops: Set<char>, from: int, at: int)
    requires
        0 <= from <= at <= s.len(),
        forall|i: int| from <= i < at ==> !stops.contains(#[trigger] s[i]),
        at < s.len() ==> stops.contains(s[at]),
    ensures
        first_of(s, stops, from) == at,
    decreases at - from,
{
    if from < at {
        first_of_unique(s, stops, from + 1, at);
    }
}

/// A copy of `chars[from..to]`.
pub fn slice_of(chars: &Vec<char>, from: usize, to: usize) -> (v: Vec<char>)
    requires
        from <= to <= chars.len(),
    ensures
        v@ == chars@.subrange(from as int, to as int),
{
    let mut v: Vec<char> = Vec::new();
    let mut i: usize = from;
    while i < to
        invariant
            from <= i <= to <= chars.len(),
            v@ == chars@.subrange(from as int, i as int),
        decreases to - i,
    {
        v.push(chars[i]);
        i += 1;
    }
    v
}

/// The position of the first `a` or `b` at or after `from`, or the length of `chars`.
pub fn find_either(chars: &Vec<char>, a: char, b: char, from: usize) -> (at: usize)
    requires
        from <= chars.len(),
    ensures
        at == first_of(chars@, set![a, b], from as int),
        from <= at <= chars.len(),
{
    let mut at: usize = from;
    while at < chars.len() && chars[at] != a && chars[at] != b
        invariant
            from <= at <= chars.len(),
            forall|i: int| from <= i < at ==> chars@[i] != a && chars@[i] != b,
        decreases chars.len() - at,
    {
        at += 1;
    }
    proof {
        first_of_unique(chars@, set![a, b], from as int, at as int);
    }
    at
}

/// The position of the first `stop` at or after `from`, or the length of `chars`.
pub fn find(chars: &Vec<char>, stop: char, from: usize) -> (at: usize)
    requires
        from <= chars.len(),
    ensures
        at == first_of(chars@, set![stop], from as int),
        from <= at <= chars.len(),
{
    let at = find_either(chars, stop, stop, from);
    assert(set![stop, stop] =~= set![stop]);
    at
}

/// The records of a text: it is cut at each line feed, and a carriage return directly before a
/// line feed goes with it. A text that ends in a line feed has no empty record after it.
pub open spec fn records_of(text: Seq<char>) -> Seq<Seq<char>>
    decreases text.len(),
{
    if text.len() == 0 {
        Seq::empty()
    } else {
        let feed = first_of(text, set!['\n'], 0);
        if 0 <= feed < text.len() {
            let end = if feed > 0 && text[feed - 1] == '\r' { feed - 1 } else { feed };
            seq![text.take(end)] + records_of(text.skip(feed + 1))
        } else {
            seq![text]
        }
    }
}

/// `records_of`, as strings.
pub fn split_records(text: &str) -> (records: Vec<String>)
    ensures
        views(records@) == records_of(text@),
{
    let chars = chars_of(text);
    let mut records: Vec<String> = Vec::new();
    let mut start: usize = 0;
    assert(text@.skip(0) == text@);
    while start < chars.len()
        invariant
            chars@ == text@,
            start <= chars.len(),
            views(records@) + records_of(text@.skip(start as int)) == records_of(text@),
        decreases chars.len() - start,
    {
        let ghost rest = text@.skip(start as int);
        let feed = find(&chars, '\n', start);
        proof {
            first_of_is_first(chars@, set!['\n'], start as int);
            assert forall|i: int| 0 <= i < feed - start implies !set!['\n'].contains(#[trigger] rest[i]) by {
                assert(rest[i] == chars@[start + i]);
            }
            first_of_unique(rest, set!['\n'], 0, feed - start);
        }
        if feed < chars.len() {
            let end: usize = if feed > start && chars[feed - 1] == '\r' { feed - 1 } else { feed };
            let record = string_of(&chars, start, end);
            let ghost before = records@;
            records.push(record);
            proof {
                assert(record@ == rest.take(end - start));
                assert(text@.skip(feed + 1) == rest.skip(feed - start + 1));
                assert(views(records@) == views(before).push(record@));
            }
            start = feed + 1;
        } else {
            let record = string_of(&chars, start, feed);
            let ghost before = records@;
            records.push(record);
            proof {
                assert(record@ == rest);
                assert(views(records@) == views(before).push(record@));
                assert(records_of(text@.skip(feed as int)) == Seq::<Seq<char>>::empty());
            }
            start = feed;
        }
    }
    records
}

/// The character sequences of a sequence of strings.
pub open spec fn views(strings: Seq<String>) -> Seq<Seq<char>> {
    strings.map_values(|s: String| s@)
}

/// The characters with the Unicode `White_Space` property.
pub open spec fn white_space(c: char) -> bool {
    let u = c as u32;
    ||| 0x9 <= u <= 0xd
    ||| u == 0x20 || u == 0x85 || u == 0xa0 || u == 0x1680
    ||| 0x2000 <= u <= 0x200a
    ||| u == 0x2028 || u == 0x2029 || u == 0x202f || u == 0x205f || u == 0x3000
}

/// Whether `c` has the Unicode `White_Space` property.
pub fn is_white_space(c: char) -> (b: bool)
    ensures
        b == white_space(c),
{
    let u: u32 = c as u32;
    (0x9 <= u && u <= 0xd) || u == 0x20 || u == 0x85 || u == 0xa0 || u == 0x1680
        || (0x2000 <= u && u <= 0x200a) || u == 0x2028 || u == 0x2029 || u == 0x202f
        || u == 0x205f || u == 0x3000
}

/// `s` without the white space at its two ends.
pub open spec fn trimmed(s: Seq<char>) -> Seq<char>
    decreases s.len(),
{
    if s.len() == 0 {
        s
    } else if white_space(s[0]) {
        trimmed(s.skip(1))
    } else if white_space(s.last()) {
        trimmed(s.drop_last())
    } else {
        s
    }
}

/// The characters of `s` without the white space at its two ends.
pub fn trim(s: &str) -> (v: Vec<char>)
    ensures
        v@ == trimmed(s@),
{
    let chars = chars_of(s);
    let mut start: usize = 0;
    let mut end: usize = chars.len();
    assert(chars@.subrange(0, chars.len() as int) == chars@);
    while start < end && is_white_space(chars[start])
        invariant
            start <= end <= chars.len(),
            trimmed(chars@.subrange(start as int, end as int)) == trimmed(chars@),
        decreases end - start,
    {
        proof {
            let s = chars@.subrange(start as int, end as int);
            assert(s.skip(1) == chars@.subrange(start + 1, end as int));
        }
        start += 1;
    }
    while start < end && is_white_space(chars[end - 1])
        invariant
            start <= end <= chars.len(),
            start < end ==> !white_space(chars@[start as int]),
            trimmed(chars@.subrange(start as int, end as int)) == trimmed(chars@),
        decreases end - start,
    {
        proof {
            let s = chars@.subrange(start as int, end as int);
            assert(s.drop_last() == chars@.subrange(start as int, end - 1));
        }
        end -= 1;
    }
    slice_of(&chars, start, end)
}

// ---------------------------------------------------------------------------
// Laws
// ---------------------------------------------------------------------------

/// Lines as a text: each with a line feed after it, and a carriage return before that where
/// `carriage` says so.
pub open spec fn on_lines(lines: Seq<Seq<char>>, carriage: Seq<bool>) -> Seq<char>
    decreases lines.len(),
{
    if lines.len() == 0 {
        Seq::empty()
    } else {
        lines[0] + ((if carriage[0] {
            seq!['\r', '\n']
        } else {
            seq!['\n']
        }) + on_lines(lines.skip(1), carriage.skip(1)))
    }
}

/// Whether a text can stand on one line: it holds no line feed.
pub open spec fn fits_a_line(line: Seq<char>) -> bool {
    forall|i: int| 0 <= i < line.len() ==> #[trigger] line[i] != '\n'
}

/// Whether a text can stand on a line that ends in a line feed alone: a carriage return at its
/// end would go with the line feed.
pub open spec fn ends_plainly(line: Seq<char>) -> bool {
    line.len() > 0 ==> line.last() != '\r'
}

/// The first record of a text is what stands before its first line end.
proof fn the_first_line_is_the_first_record(line: Seq<char>, returned: bool, rest: Seq<char>)
    requires
        fits_a_line(line),
        !returned ==> ends_plainly(line),
    ensures
        ({
            let end = if returned {
                seq!['\r', '\n']
            } else {
                seq!['\n']
            };
            records_of(line + (end + rest)) == seq![line] + records_of(rest)
        }),
{
    let end = if returned {
        seq!['\r', '\n']
    } else {
        seq!['\n']
    };
    let text = line + (end + rest);
    let feed = line.len() + end.len() - 1;
    assert(text[feed] == '\n');
    assert forall|i: int| 0 <= i < feed implies !set!['\n'].contains(#[trigger] text[i]) by {
        if i < line.len() {
            assert(text[i] == line[i]);
        } else {
            assert(text[i] == '\r');
        }
    }
    first_of_unique(text, set!['\n'], 0, feed);
    assert(text.skip(feed + 1) =~= rest);
    if returned {
        assert(text[feed - 1] == '\r');
        assert(text.take(feed - 1) =~= line);
    } else {
        if line.len() > 0 {
            assert(text[feed - 1] == line.last());
        }
        assert(text.take(feed) =~= line);
    }
}

/// The lines of a text are read back as its records, whichever way each of them ends: none is
/// lost, none is added, and no line end is left on any of them.
pub proof fn lines_are_read_back(lines: Seq<Seq<char>>, carriage: Seq<bool>)
    requires
        lines.len() == carriage.len(),
        forall|i: int| 0 <= i < lines.len() ==> fits_a_line(#[trigger] lines[i]),
        forall|i: int|
            0 <= i < lines.len() ==> ends_plainly(#[trigger] lines[i]) || carriage[i],
    ensures
        records_of(on_lines(lines, carriage)) == lines,
    decreases lines.len(),
{
    unended_lines_are_read_back(lines, carriage, Seq::empty());
}

/// What stands after the last line feed is a record too, unless it is nothing.
pub proof fn unended_lines_are_read_back(
    lines: Seq<Seq<char>>,
    carriage: Seq<bool>,
    last: Seq<char>,
)
    requires
        lines.len() == carriage.len(),
        forall|i: int| 0 <= i < lines.len() ==> fits_a_line(#[trigger] lines[i]),
        forall|i: int|
            0 <= i < lines.len() ==> ends_plainly(#[trigger] lines[i]) || carriage[i],
        fits_a_line(last),
    ensures
        records_of(on_lines(lines, carriage) + last) == if last.len() > 0 {
            lines.push(last)
        } else {
            lines
        },
        last.len() == 0 ==> on_lines(lines, carriage) + last == on_lines(lines, carriage),
    decreases lines.len(),
{
    assert(last.len() == 0 ==> on_lines(lines, carriage) + last =~= on_lines(lines, carriage));
    if lines.len() == 0 {
        assert(on_lines(lines, carriage) + last =~= last);
        first_of_unique(last, set!['\n'], 0, last.len() as int);
        assert(records_of(last) =~= if last.len() > 0 {
            lines.push(last)
        } else {
            lines
        });
    } else {
        let (more, ends) = (lines.skip(1), carriage.skip(1));
        assert forall|i: int| 0 <= i < more.len() implies fits_a_line(#[trigger] more[i]) by {
            assert(more[i] == lines[i + 1]);
        }
        assert forall|i: int| 0 <= i < more.len() implies ends_plainly(#[trigger] more[i])
            || ends[i] by {
            assert(more[i] == lines[i + 1] && ends[i] == carriage[i + 1]);
        }
        unended_lines_are_read_back(more, ends, last);
        let rest = on_lines(more, ends) + last;
        assert(fits_a_line(lines[0]));
        assert(ends_plainly(lines[0]) || carriage[0]);
        the_first_line_is_the_first_record(lines[0], carriage[0], rest);
        let end = if carriage[0] {
            seq!['\r', '\n']
        } else {
            seq!['\n']
        };
        assert(on_lines(lines, carriage) + last =~= lines[0] + (end + rest));
        assert(seq![lines[0]] + more =~= lines);
        assert(seq![lines[0]] + more.push(last) =~= lines.push(last));
    }
}

/// Whether `s` is white space throughout.
pub open spec fn is_blank(s: Seq<char>) -> bool {
    forall|i: int| 0 <= i < s.len() ==> white_space(#[trigger] s[i])
}

/// Trimming takes white space off both ends, and nothing else: what starts and ends otherwise is
/// found again between any white space.
pub proof fn trimming_takes_the_ends(before: Seq<char>, s: Seq<char>, after: Seq<char>)
    requires
        is_blank(before),
        is_blank(after),
        s.len() > 0 ==> !white_space(s[0]) && !white_space(s.last()),
    ensures
        trimmed(before + s + after) == s,
    decreases before.len() + after.len(),
{
    let all = before + s + after;
    if before.len() > 0 {
        let less = before.skip(1);
        assert forall|i: int| 0 <= i < less.len() implies white_space(#[trigger] less[i]) by {
            assert(less[i] == before[i + 1]);
        }
        assert(all[0] == before[0]);
        assert(all.skip(1) =~= less + s + after);
        trimming_takes_the_ends(less, s, after);
    } else if after.len() > 0 {
        let less = after.drop_last();
        assert forall|i: int| 0 <= i < less.len() implies white_space(#[trigger] less[i]) by {
            assert(less[i] == after[i]);
        }
        assert(all.last() == after.last());
        assert(all.drop_last() =~= before + s + less);
        trimming_takes_the_ends(before, s, less);
        if s.len() > 0 {
            assert(all[0] == s[0]);
        } else {
            assert(all =~= after);
            blank_is_trimmed_away(after);
            assert(s =~= Seq::<char>::empty());
        }
    } else {
        assert(all =~= s);
    }
}

/// Nothing is left of white space.
proof fn blank_is_trimmed_away(s: Seq<char>)
    requires
        is_blank(s),
    ensures
        trimmed(s) == Seq::<char>::empty(),
    decreases s.len(),
{
    if s.len() > 0 {
        let less = s.skip(1);
        assert forall|i: int| 0 <= i < less.len() implies white_space(#[trigger] less[i]) by {
            assert(less[i] == s[i + 1]);
        }
        blank_is_trimmed_away(less);
    } else {
        assert(s =~= Seq::<char>::empty());
    }
}

} // verus!
