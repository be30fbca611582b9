//! Character-level helpers for strings: ordering of names, path segments and
//! decimal numerals. Every contract speaks of a string through its view, the
//! sequence of its characters.

use vstd::prelude::*;
use vstd::string::{StrSliceExecFns, StringExecFns};

verus! {

/// Lexicographic order of two character sequences from position `i` on, by
/// code point: the order in which names are kept.
pub open spec fn lex_lt_from(a: Seq<char>, b: Seq<char>, i: int) -> bool
    decreases b.len() - i,
{
    if i < 0 || i >= b.len() {
        false
    } else if i >= a.len() {
        true
    } else if a[i] != b[i] {
        (a[i] as u32) < (b[i] as u32)
    } else {
        lex_lt_from(a, b, i + 1)
    }
}

/// `a` comes strictly before `b` in lexicographic order by code point.
pub open spec fn lex_lt(a: Seq<char>, b: Seq<char>) -> bool {
    lex_lt_from(a, b, 0)
}

/// The characters of `s`, in order.
pub fn chars_of(s: &str) -> (out: Vec<char>)
    ensures
        out@ == s@,
{
    let mut out: Vec<char> = Vec::new();
    for c in it: s.chars()
        invariant
            it.seq() == s@,
            out@ == s@.take(it.index()),
    {
        out.push(c);
    }
    out
}

/// Whether `a` sorts strictly before `b`.
pub fn name_lt(a: &str, b: &str) -> (r: bool)
    ensures
        r == lex_lt(a@, b@),
{
    let x = chars_of(a);
    let y = chars_of(b);
    let mut i: usize = 0;
    while i < x.len() && i < y.len()
        invariant
            x@ == a@,
            y@ == b@,
            i <= x.len(),
            i <= y.len(),
            lex_lt(a@, b@) == lex_lt_from(a@, b@, i as int),
        decreases x.len() - i,
    {
        if x[i] != y[i] {
            return (x[i] as u32) < (y[i] as u32);
        }
        i += 1;
    }
    i < y.len()
}

/// The views of a sequence of strings.
pub open spec fn views(v: Seq<String>) -> Seq<Seq<char>> {
    Seq::new(v.len(), |i: int| v[i]@)
}

/// The segments of a path: the pieces between its `/` separators, in order.
/// There is always at least one, and a segment may be empty.
pub open spec fn segments(path: Seq<char>) -> Seq<Seq<char>>
    decreases path.len(),
{
    if path.len() == 0 {
        seq![Seq::empty()]
    } else {
        let before = segments(path.drop_last());
        if path.last() == '/' {
            before.push(Seq::empty())
        } else {
            before.update(before.len() - 1, before.last().push(path.last()))
        }
    }
}

/// Splits a path at each `/`.
pub fn split_path(path: &str) -> (out: Vec<String>)
    ensures
        views(out@) == segments(path@),
{
    let chars = chars_of(path);
    let mut out: Vec<String> = Vec::new();
    let mut start: usize = 0;
    let mut i: usize = 0;
    assert(path@.take(0) =~= Seq::empty());
    assert(path@.subrange(0, 0) =~= Seq::empty());
    assert(segments(path@.take(0)) =~= views(out@).push(path@.subrange(0, 0)));
    while i < chars.len()
        invariant
            chars@ == path@,
            start <= i <= chars.len(),
            segments(path@.take(i as int)) == views(out@).push(
                path@.subrange(start as int, i as int),
            ),
        decreases chars.len() - i,
    {
        let ghost seen = path@.take(i as int);
        let ghost next = path@.take(i + 1);
        assert(next.drop_last() =~= seen);
        assert(next.last() == path@[i as int]);
        if chars[i] == '/' {
            let piece = path.substring_char(start, i);
            let ghost done = views(out@);
            out.push(piece.to_owned());
            assert(views(out@) =~= done.push(path@.subrange(start as int, i as int)));
            start = i + 1;
            assert(path@.subrange(start as int, i + 1) =~= Seq::empty());
        } else {
            assert(path@.subrange(start as int, i + 1) =~= path@.subrange(
                start as int,
                i as int,
            ).push(path@[i as int]));
            assert(segments(next) =~= views(out@).push(path@.subrange(start as int, i + 1)));
        }
        i += 1;
    }
    assert(path@.take(i as int) =~= path@);
    let piece = path.substring_char(start, i);
    let ghost done = views(out@);
    out.push(piece.to_owned());
    assert(views(out@) =~= done.push(path@.subrange(start as int, i as int)));
    out
}

/// Whether a character is white space: a blank, a tab, a line break or
/// another of the characters that Unicode counts as white space.
pub open spec fn is_white_space(c: char) -> bool {
    let n = c as u32 as int;
    ||| 0x09 <= n <= 0x0d
    ||| n == 0x20
    ||| n == 0x85
    ||| n == 0xa0
    ||| n == 0x1680
    ||| 0x2000 <= n <= 0x200a
    ||| n == 0x2028
    ||| n == 0x2029
    ||| n == 0x202f
    ||| n == 0x205f
    ||| n == 0x3000
}

/// Tells whether a character is white space.
pub fn white_space(c: char) -> (r: bool)
    ensures
        r == is_white_space(c),
{
    let n = c as u32;
    (0x09 <= n && n <= 0x0d) || n == 0x20 || n == 0x85 || n == 0xa0 || n == 0x1680 || (0x2000 <= n
        && n <= 0x200a) || n == 0x2028 || n == 0x2029 || n == 0x202f || n == 0x205f || n
        == 0x3000
}

/// How many characters stand before the first line feed of a text.
pub open spec fn line_len(text: Seq<char>) -> int
    decreases text.len(),
{
    if text.len() == 0 || text[0] == '\n' {
        0
    } else {
        1 + line_len(text.drop_first())
    }
}

/// How many characters of white space a text begins with.
pub open spec fn lead_len(text: Seq<char>) -> int
    decreases text.len(),
{
    if text.len() == 0 || !is_white_space(text[0]) {
        0
    } else {
        1 + lead_len(text.drop_first())
    }
}

/// How many characters of white space a text ends with.
pub open spec fn trail_len(text: Seq<char>) -> int
    decreases text.len(),
{
    if text.len() == 0 || !is_white_space(text.last()) {
        0
    } else {
        1 + trail_len(text.drop_last())
    }
}

/// A text without the white space that it begins and ends with.
pub open spec fn trimmed(text: Seq<char>) -> Seq<char> {
    let rest = text.skip(lead_len(text));
    rest.take(rest.len() - trail_len(rest))
}

/// The first line of a text, without the white space that it begins and ends
/// with.
pub open spec fn first_line(text: Seq<char>) -> Seq<char> {
    trimmed(text.take(line_len(text)))
}

/// The first line of a message, trimmed.
pub fn summary_line(message: &str) -> (line: String)
    ensures
        line@ == first_line(message@),
{
    let chars = chars_of(message);
    let mut end: usize = 0;
    assert(message@.skip(0) =~= message@);
    while end < chars.len() && chars[end] != '\n'
        invariant
            chars@ == message@,
            end <= chars.len(),
            line_len(message@) == end + line_len(message@.skip(end as int)),
        decreases chars.len() - end,
    {
        assert(message@.skip(end as int).drop_first() =~= message@.skip(end + 1));
        end += 1;
    }
    assert(line_len(message@.skip(end as int)) == 0);
    let ghost line = message@.take(end as int);
    let mut start: usize = 0;
    assert(line.skip(0) =~= line);
    while start < end && white_space(chars[start])
        invariant
            chars@ == message@,
            line == message@.take(end as int),
            start <= end <= chars.len(),
            lead_len(line) == start + lead_len(line.skip(start as int)),
        decreases end - start,
    {
        assert(line.skip(start as int).drop_first() =~= line.skip(start + 1));
        assert(line.skip(start as int)[0] == chars[start as int]);
        start += 1;
    }
    proof {
        if start < end {
            assert(line.skip(start as int)[0] == chars[start as int]);
        }
        assert(lead_len(line.skip(start as int)) == 0);
    }
    let ghost rest = line.skip(start as int);
    let mut stop: usize = end;
    assert(rest.take(rest.len() as int) =~= rest);
    while stop > start && white_space(chars[stop - 1])
        invariant
            chars@ == message@,
            line == message@.take(end as int),
            rest == line.skip(start as int),
            start <= stop <= end <= chars.len(),
            trail_len(rest) == (end - stop) + trail_len(rest.take(stop - start)),
        decreases stop - start,
    {
        assert(rest.take(stop - start).last() == chars[stop - 1]);
        assert(rest.take(stop - start).drop_last() =~= rest.take(stop - 1 - start));
        stop -= 1;
    }
    proof {
        if stop > start {
            assert(rest.take(stop - start).last() == chars[stop - 1]);
        }
        assert(trail_len(rest.take(stop - start)) == 0);
    }
    let piece = message.substring_char(start, stop);
    assert(piece@ =~= first_line(message@));
    piece.to_owned()
}

/// Lines as one text, with a line feed between each two.
pub open spec fn join_lines(lines: Seq<Seq<char>>) -> Seq<char>
    decreases lines.len(),
{
    if lines.len() == 0 {
        Seq::empty()
    } else if lines.len() == 1 {
        lines[0]
    } else {
        join_lines(lines.drop_last()) + seq!['\n'] + lines.last()
    }
}

/// Puts lines together, with a line feed between each two.
pub fn join_with_newlines(lines: &Vec<String>) -> (out: String)
    ensures
        out@ == join_lines(views(lines@)),
{
    let mut out = String::new();
    let mut i: usize = 0;
    assert(views(lines@).take(0) =~= Seq::empty());
    while i < lines.len()
        invariant
            i <= lines.len(),
            out@ == join_lines(views(lines@).take(i as int)),
        decreases lines.len() - i,
    {
        proof {
            reveal_strlit("\n");
            let done = views(lines@).take(i + 1);
            assert(done.drop_last() =~= views(lines@).take(i as int));
            assert(done.last() == lines@[i as int]@);
            assert(done[0] == lines@[0]@);
        }
        if i > 0 {
            out.append("\n");
        }
        out.append(lines[i].as_str());
        assert(out@ =~= join_lines(views(lines@).take(i + 1)));
        i += 1;
    }
    assert(views(lines@).take(i as int) =~= views(lines@));
    out
}

/// The decimal digit `d` as a character.
pub open spec fn digit_char(d: nat) -> char {
    if d == 0 {
        '0'
    } else if d == 1 {
        '1'
    } else if d == 2 {
        '2'
    } else if d == 3 {
        '3'
    } else if d == 4 {
        '4'
    } else if d == 5 {
        '5'
    } else if d == 6 {
        '6'
    } else if d == 7 {
        '7'
    } else if d == 8 {
        '8'
    } else {
        '9'
    }
}

/// The decimal numeral of `n`, most significant digit first, without
/// leading zeros.
pub open spec fn decimal(n: nat) -> Seq<char>
    decreases n,
{
    if n < 10 {
        seq![digit_char(n)]
    } else {
        decimal(n / 10).push(digit_char(n % 10))
    }
}

fn digit_str(d: u64) -> (s: &'static str)
    requires
        d < 10,
    ensures
        s@ == seq![digit_char(d as nat)],
{
    proof {
        reveal_strlit("0");
        reveal_strlit("1");
        reveal_strlit("2");
        reveal_strlit("3");
        reveal_strlit("4");
        reveal_strlit("5");
        reveal_strlit("6");
        reveal_strlit("7");
        reveal_strlit("8");
        reveal_strlit("9");
    }
    let s = if d == 0 {
        "0"
    } else if d == 1 {
        "1"
    } else if d == 2 {
        "2"
    } else if d == 3 {
        "3"
    } else if d == 4 {
        "4"
    } else if d == 5 {
        "5"
    } else if d == 6 {
        "6"
    } else if d == 7 {
        "7"
    } else if d == 8 {
        "8"
    } else {
        "9"
    };
    assert(s@ =~= seq![digit_char(d as nat)]);
    s
}

/// Writes `n` as a decimal numeral.
pub fn decimal_string(n: u64) -> (s: String)
    ensures
        s@ == decimal(n as nat),
    decreases n,
{
    if n < 10 {
        digit_str(n).to_owned()
    } else {
        let mut s = decimal_string(n / 10);
        s.append(digit_str(n % 10));
        assert(s@ =~= decimal(n as nat));
        s
    }
}

} // verus!
