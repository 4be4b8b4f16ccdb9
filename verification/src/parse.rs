//! The edge-list text format.
//!
//! The text holds one edge on each line, as two unsigned decimal numbers with
//! white space between and around them. A line whose first character after
//! the leading white space is `#` is a comment. Every other line has to hold
//! exactly two fields: an empty line is as malformed as one with three.

use crate::edges::arcs;
use crate::error::GraphError;
use crate::traits::NodeID;
use vstd::prelude::*;
use vstd::slice::slice_subrange;

verus! {

/// The character that ends a line.
pub const NEWLINE: char = '\n';

/// The character that starts a comment.
pub const HASH: char = '#';

/// The sign that a number may carry in front.
pub const PLUS: char = '+';

/// White space, as Unicode defines it: the blank, the characters from the
/// tab to the carriage return, and the separators beyond ASCII.
pub open spec fn is_space(c: char) -> bool {
    let x = c as u32;
    ||| 0x09 <= x <= 0x0d
    ||| x == 0x20
    ||| x == 0x85
    ||| x == 0xa0
    ||| x == 0x1680
    ||| 0x2000 <= x <= 0x200a
    ||| x == 0x2028
    ||| x == 0x2029
    ||| x == 0x202f
    ||| x == 0x205f
    ||| x == 0x3000
}

/// A decimal digit.
pub open spec fn is_digit(c: char) -> bool {
    0x30 <= c as u32 <= 0x39
}

/// The number that a digit stands for.
pub open spec fn digit_value(c: char) -> nat {
    (c as u32 - 0x30) as nat
}

/// The lines of a text. A newline ends a line; what follows the last newline
/// is a line too unless it is empty.
///
/// Read from the front: a newline stands for an empty first line, and any
/// other character is put in front of the first line of what follows it.
/// `lemma_lines_after_line` says the same of a whole line at once.
pub open spec fn lines(text: Seq<char>) -> Seq<Seq<char>>
    decreases text.len(),
{
    if text.len() == 0 {
        Seq::empty()
    } else if text[0] == NEWLINE {
        seq![Seq::empty()] + lines(text.drop_first())
    } else if text.len() == 1 {
        seq![text]
    } else {
        let rest = lines(text.drop_first());
        rest.update(0, seq![text[0]] + rest[0])
    }
}

/// The fields of a line: its longest runs of characters that are not white
/// space, first to last.
///
/// Read from the front: white space is passed over, a character with white
/// space or the end behind it is a field by itself, and any other character
/// is put in front of the first field of what follows it.
/// `lemma_fields_after_word` says the same of a whole field at once.
pub open spec fn fields(line: Seq<char>) -> Seq<Seq<char>>
    decreases line.len(),
{
    if line.len() == 0 {
        Seq::empty()
    } else if is_space(line[0]) {
        fields(line.drop_first())
    } else if line.len() == 1 || is_space(line[1]) {
        seq![seq![line[0]]] + fields(line.drop_first())
    } else {
        let rest = fields(line.drop_first());
        rest.update(0, seq![line[0]] + rest[0])
    }
}

/// The number that a run of digits stands for.
pub open spec fn decimal(digits: Seq<char>) -> nat
    decreases digits.len(),
{
    if digits.len() == 0 {
        0
    } else {
        decimal(digits.drop_last()) * 10 + digit_value(digits.last())
    }
}

/// The digits of a field: the field without the one `+` that may stand in
/// front.
pub open spec fn digits_of(field: Seq<char>) -> Seq<char> {
    if field.len() > 0 && field[0] == PLUS {
        field.drop_first()
    } else {
        field
    }
}

/// The number that a field stands for, if it is one: at least one digit and
/// nothing but digits after the optional sign, and no more than 128 bits.
pub open spec fn number(field: Seq<char>) -> Option<nat> {
    let digits = digits_of(field);
    if digits.len() > 0 && (forall|i: int| 0 <= i < digits.len() ==> is_digit(#[trigger] digits[i]))
        && decimal(digits) <= u128::MAX {
        Some(decimal(digits))
    } else {
        None
    }
}

/// The line is a comment: its first field starts with `#`.
pub open spec fn is_comment(line: Seq<char>) -> bool {
    fields(line).len() > 0 && fields(line)[0].len() > 0 && fields(line)[0][0] == HASH
}

/// What a line holds for identifiers of type `T`: nothing if it is a comment,
/// else the arc that its two fields name, else the reason why it is refused.
/// A line without exactly two fields is malformed; if it has two, both have
/// to be numbers, and then both have to fit the identifier width.
pub open spec fn parse_line<T: NodeID>(line: Seq<char>) -> Result<Option<(nat, nat)>, GraphError> {
    let f = fields(line);
    if is_comment(line) {
        Ok(None)
    } else if f.len() != 2 {
        Err(GraphError::MalformedLine)
    } else if number(f[0]) is None || number(f[1]) is None {
        Err(GraphError::ParseError)
    } else if number(f[0])->0 > T::limit() || number(f[1])->0 > T::limit() {
        Err(GraphError::VertexOutOfRange)
    } else {
        Ok(Some((number(f[0])->0, number(f[1])->0)))
    }
}

/// What a sequence of lines holds: the arcs of its lines in their order, or
/// the reason why its first refused line is refused.
pub open spec fn parse_lines<T: NodeID>(lines: Seq<Seq<char>>) -> Result<
    Seq<(nat, nat)>,
    GraphError,
>
    decreases lines.len(),
{
    if lines.len() == 0 {
        Ok(Seq::empty())
    } else {
        match parse_line::<T>(lines[0]) {
            Err(e) => Err(e),
            Ok(found) => match parse_lines::<T>(lines.drop_first()) {
                Err(e) => Err(e),
                Ok(rest) => match found {
                    Some(arc) => Ok(seq![arc] + rest),
                    None => Ok(rest),
                },
            },
        }
    }
}

/// What an edge-list text holds.
pub open spec fn parse_text<T: NodeID>(text: Seq<char>) -> Result<Seq<(nat, nat)>, GraphError> {
    parse_lines::<T>(lines(text))
}

/// The characters from `from` up to `to` are white space, and `to` is where
/// the white space ends.
pub open spec fn is_gap(line: Seq<char>, from: int, to: int) -> bool {
    &&& 0 <= from <= to <= line.len()
    &&& forall|k: int| from <= k < to ==> is_space(#[trigger] line[k])
    &&& (to == line.len() || !is_space(line[to]))
}

/// The characters from `from` up to `to` are a field: none of them is white
/// space, there is at least one, and `to` is where the run ends.
pub open spec fn is_word(line: Seq<char>, from: int, to: int) -> bool {
    &&& 0 <= from < to <= line.len()
    &&& forall|k: int| from <= k < to ==> !is_space(#[trigger] line[k])
    &&& (to == line.len() || is_space(line[to]))
}

/// White space in front of the fields adds no field.
pub proof fn lemma_fields_after_spaces(line: Seq<char>, from: int, to: int)
    requires
        0 <= from <= to <= line.len(),
        forall|k: int| from <= k < to ==> is_space(#[trigger] line[k]),
    ensures
        fields(line.skip(from)) == fields(line.skip(to)),
    decreases to - from,
{
    if from < to {
        assert(line.skip(from).drop_first() =~= line.skip(from + 1));
        assert(line.skip(from)[0] == line[from]);
        lemma_fields_after_spaces(line, from + 1, to);
    }
}

/// A run of characters that are not white space, with white space or the end
/// of the line behind it, is the first field of what starts with it.
pub proof fn lemma_fields_after_word(line: Seq<char>, from: int, to: int)
    requires
        is_word(line, from, to),
    ensures
        fields(line.skip(from)) == seq![line.subrange(from, to)] + fields(line.skip(to)),
    decreases to - from,
{
    let s = line.skip(from);
    assert(s[0] == line[from]);
    assert(s.drop_first() =~= line.skip(from + 1));
    if to == from + 1 {
        if s.len() > 1 {
            assert(s[1] == line[to]);
        }
        assert(seq![s[0]] =~= line.subrange(from, to));
    } else {
        assert(s[1] == line[from + 1]);
        assert(is_word(line, from + 1, to));
        lemma_fields_after_word(line, from + 1, to);
        let rest = fields(s.drop_first());
        assert(seq![s[0]] + rest[0] =~= line.subrange(from, to));
        assert(rest.update(0, seq![s[0]] + rest[0]) =~= seq![line.subrange(from, to)] + fields(
            line.skip(to),
        ));
    }
}

/// A character that is not white space starts a field.
pub proof fn lemma_word_exists(line: Seq<char>, from: int) -> (to: int)
    requires
        0 <= from < line.len(),
        !is_space(line[from]),
    ensures
        is_word(line, from, to),
    decreases line.len() - from,
{
    if from + 1 == line.len() || is_space(line[from + 1]) {
        from + 1
    } else {
        let to = lemma_word_exists(line, from + 1);
        assert forall|k: int| from <= k < to implies !is_space(#[trigger] line[k]) by {
            if k > from {
                assert(!is_space(line[k]));
            }
        }
        to
    }
}

/// A line of white space alone has no field.
pub proof fn lemma_no_field(line: Seq<char>)
    requires
        is_gap(line, 0, line.len() as int),
    ensures
        fields(line).len() == 0,
{
    lemma_fields_after_spaces(line, 0, line.len() as int);
    assert(line.skip(0) =~= line);
    assert(line.skip(line.len() as int) =~= Seq::<char>::empty());
}

/// The fields of a line whose first field stands from `a0` up to `a1`: that
/// field, and the fields of what follows it.
pub proof fn lemma_first_field(line: Seq<char>, a0: int, a1: int)
    requires
        is_gap(line, 0, a0),
        is_word(line, a0, a1),
    ensures
        fields(line) == seq![line.subrange(a0, a1)] + fields(line.skip(a1)),
        fields(line).len() >= 1,
        fields(line)[0] == line.subrange(a0, a1),
{
    lemma_fields_after_spaces(line, 0, a0);
    lemma_fields_after_word(line, a0, a1);
    assert(line.skip(0) =~= line);
}

/// What follows a field at `from` holds no field if only white space follows,
/// and else the next field and the fields behind that.
pub proof fn lemma_next_field(line: Seq<char>, from: int, b0: int)
    requires
        is_gap(line, from, b0),
    ensures
        b0 == line.len() ==> fields(line.skip(from)).len() == 0,
        b0 < line.len() ==> fields(line.skip(from)).len() >= 1,
        forall|b1: int|
            #[trigger] is_word(line, b0, b1) ==> fields(line.skip(from)) == seq![
                line.subrange(b0, b1),
            ] + fields(line.skip(b1)),
{
    lemma_fields_after_spaces(line, from, b0);
    if b0 == line.len() {
        assert(line.skip(b0) =~= Seq::<char>::empty());
    } else {
        let b1 = lemma_word_exists(line, b0);
        lemma_fields_after_word(line, b0, b1);
    }
    assert forall|b1: int| #[trigger] is_word(line, b0, b1) implies fields(line.skip(from)) == seq![
        line.subrange(b0, b1),
    ] + fields(line.skip(b1)) by {
        lemma_fields_after_word(line, b0, b1);
    }
}

/// The characters up to the first newline are the first line of what starts
/// with them, and the other lines are those of what follows that newline.
pub proof fn lemma_lines_after_line(text: Seq<char>, from: int, to: int)
    requires
        0 <= from <= to <= text.len(),
        from < text.len(),
        forall|k: int| from <= k < to ==> #[trigger] text[k] != NEWLINE,
        to == text.len() || text[to] == NEWLINE,
    ensures
        lines(text.skip(from)) == if to < text.len() {
            seq![text.subrange(from, to)] + lines(text.skip(to + 1))
        } else {
            seq![text.subrange(from, to)]
        },
    decreases to - from,
{
    let s = text.skip(from);
    assert(s[0] == text[from]);
    assert(s.drop_first() =~= text.skip(from + 1));
    if from == to {
        assert(text.subrange(from, to) =~= Seq::<char>::empty());
    } else if s.len() == 1 {
        assert(s =~= text.subrange(from, to));
    } else {
        lemma_lines_after_line(text, from + 1, to);
        let rest = lines(s.drop_first());
        assert(seq![s[0]] + rest[0] =~= text.subrange(from, to));
        if to < text.len() {
            assert(rest.update(0, seq![s[0]] + rest[0]) =~= seq![text.subrange(from, to)] + lines(
                text.skip(to + 1),
            ));
        } else {
            assert(rest.update(0, seq![s[0]] + rest[0]) =~= seq![text.subrange(from, to)]);
        }
    }
}

/// More digits do not make a number smaller.
pub proof fn lemma_decimal_grows(digits: Seq<char>, i: int)
    requires
        0 <= i <= digits.len(),
        forall|k: int| 0 <= k < digits.len() ==> is_digit(#[trigger] digits[k]),
    ensures
        decimal(digits.take(i)) <= decimal(digits),
    decreases digits.len() - i,
{
    if i < digits.len() {
        lemma_decimal_grows(digits, i + 1);
        assert(digits.take(i + 1).drop_last() =~= digits.take(i));
        assert(digits.take(i + 1).last() == digits[i]);
    } else {
        assert(digits.take(i) =~= digits);
    }
}

/// Whether a character is white space.
fn is_white(c: char) -> (b: bool)
    ensures
        b == is_space(c),
{
    let x = c as u32;
    (0x09 <= x && x <= 0x0d) || x == 0x20 || x == 0x85 || x == 0xa0 || x == 0x1680 || (0x2000 <= x
        && x <= 0x200a) || x == 0x2028 || x == 0x2029 || x == 0x202f || x == 0x205f || x == 0x3000
}

/// The first position at or after `from` that does not hold white space.
fn skip_spaces(line: &[char], from: usize) -> (to: usize)
    requires
        from <= line@.len(),
    ensures
        is_gap(line@, from as int, to as int),
{
    let n = line.len();
    let mut to = from;
    while to < n && is_white(line[to])
        invariant
            n == line@.len(),
            from <= to <= n,
            forall|k: int| from <= k < to ==> is_space(#[trigger] line@[k]),
        decreases n - to,
    {
        to = to + 1;
    }
    to
}

/// The first position after `from` that holds white space, or the end.
fn word_end(line: &[char], from: usize) -> (to: usize)
    requires
        from < line@.len(),
        !is_space(line@[from as int]),
    ensures
        is_word(line@, from as int, to as int),
{
    let n = line.len();
    let mut to = from + 1;
    while to < n && !is_white(line[to])
        invariant
            n == line@.len(),
            from < to <= n,
            forall|k: int| from <= k < to ==> !is_space(#[trigger] line@[k]),
        decreases n - to,
    {
        to = to + 1;
    }
    to
}

/// The number that a field stands for, if it is one.
fn parse_field(field: &[char]) -> (r: Option<u128>)
    ensures
        match r {
            Some(n) => number(field@) == Some(n as nat),
            None => number(field@) is None,
        },
{
    let n = field.len();
    let start: usize = if n > 0 && field[0] == PLUS {
        1
    } else {
        0
    };
    if start == n {
        return None;
    }
    let ghost digits = digits_of(field@);
    assert(digits =~= field@.skip(start as int));
    let mut acc: u128 = 0;
    let mut i: usize = start;
    while i < n
        invariant
            n == field@.len(),
            start <= i <= n,
            start < n,
            digits == field@.skip(start as int),
            digits == digits_of(field@),
            forall|k: int| 0 <= k < i - start ==> is_digit(#[trigger] digits[k]),
            acc == decimal(digits.take(i - start)),
        decreases n - i,
    {
        let x = field[i] as u32;
        assert(digits[i - start] == field@[i as int]);
        if x < 0x30 || x > 0x39 {
            return None;
        }
        let d = (x - 0x30) as u128;
        proof {
            assert(digits.take(i + 1 - start).drop_last() =~= digits.take(i - start));
            assert(digits.take(i + 1 - start).last() == field@[i as int]);
            if forall|k: int| 0 <= k < digits.len() ==> is_digit(#[trigger] digits[k]) {
                lemma_decimal_grows(digits, i + 1 - start);
            }
        }
        let tens = match acc.checked_mul(10) {
            Some(t) => t,
            None => {
                return None;
            },
        };
        acc = match tens.checked_add(d) {
            Some(t) => t,
            None => {
                return None;
            },
        };
        i = i + 1;
    }
    assert(digits.take(n - start) =~= digits);
    Some(acc)
}

/// The characters of a string.
fn chars_of(text: &str) -> (v: Vec<char>)
    ensures
        v@ == text@,
{
    let mut v: Vec<char> = Vec::new();
    for c in it: text.chars()
        invariant
            it.seq() == text@,
            v@ == text@.take(it.index() as int),
    {
        v.push(c);
        assert(v@ =~= text@.take(it.index() + 1));
    }
    assert(text@.take(text@.len() as int) =~= text@);
    v
}

/// The number that a field stands for, if it is one: an unsigned decimal
/// number of at most 128 bits, which may carry one `+` in front.
pub fn parse_number(field: &str) -> (r: Option<u128>)
    ensures
        match r {
            Some(n) => number(field@) == Some(n as nat),
            None => number(field@) is None,
        },
{
    let chars = chars_of(field);
    parse_field(chars.as_slice())
}

/// The arc that a line holds, as numbers: what `parse_line` says of the line,
/// seen through the identifiers that `r` holds.
pub open spec fn line_model<T: NodeID>(r: Result<Option<(T, T)>, GraphError>) -> Result<
    Option<(nat, nat)>,
    GraphError,
> {
    match r {
        Ok(Some(e)) => Ok(Some((e.0.value(), e.1.value()))),
        Ok(None) => Ok(None),
        Err(e) => Err(e),
    }
}

/// The arcs that a text holds, as numbers.
pub open spec fn list_model<T: NodeID>(r: Result<Vec<(T, T)>, GraphError>) -> Result<
    Seq<(nat, nat)>,
    GraphError,
> {
    match r {
        Ok(edges) => Ok(arcs(edges@)),
        Err(e) => Err(e),
    }
}

/// Reads the characters of one line.
fn parse_chars<T: NodeID>(line: &[char]) -> (r: Result<Option<(T, T)>, GraphError>)
    ensures
        line_model(r) == parse_line::<T>(line@),
{
    let n = line.len();
    let ghost l = line@;
    let a0 = skip_spaces(line, 0);
    if a0 == n {
        proof {
            lemma_no_field(l);
        }
        return Err(GraphError::MalformedLine);
    }
    let a1 = word_end(line, a0);
    proof {
        lemma_first_field(l, a0 as int, a1 as int);
    }
    if line[a0] == HASH {
        return Ok(None);
    }
    let b0 = skip_spaces(line, a1);
    proof {
        lemma_next_field(l, a1 as int, b0 as int);
    }
    if b0 == n {
        return Err(GraphError::MalformedLine);
    }
    let b1 = word_end(line, b0);
    let c0 = skip_spaces(line, b1);
    proof {
        lemma_next_field(l, b1 as int, c0 as int);
    }
    if c0 != n {
        return Err(GraphError::MalformedLine);
    }
    proof {
        assert(fields(l) =~= seq![
            l.subrange(a0 as int, a1 as int),
            l.subrange(b0 as int, b1 as int),
        ]);
    }
    let first = parse_field(slice_subrange(line, a0, a1));
    let second = parse_field(slice_subrange(line, b0, b1));
    let x = match first {
        Some(x) => x,
        None => {
            return Err(GraphError::ParseError);
        },
    };
    let y = match second {
        Some(y) => y,
        None => {
            return Err(GraphError::ParseError);
        },
    };
    let src = match T::from_u128(x) {
        Some(id) => id,
        None => {
            return Err(GraphError::VertexOutOfRange);
        },
    };
    let dst = match T::from_u128(y) {
        Some(id) => id,
        None => {
            return Err(GraphError::VertexOutOfRange);
        },
    };
    Ok(Some((src, dst)))
}

/// Reads one line: `Ok(None)` for a comment, the edge that the line names, or
/// the reason why the line is refused.
pub fn parse_edge_line<T: NodeID>(line: &str) -> (r: Result<Option<(T, T)>, GraphError>)
    ensures
        line_model(r) == parse_line::<T>(line@),
{
    let chars = chars_of(line);
    parse_chars::<T>(chars.as_slice())
}

/// The arcs `done` in front of what the rest of a text holds.
pub open spec fn after<T: NodeID>(
    done: Seq<(nat, nat)>,
    rest: Result<Seq<(nat, nat)>, GraphError>,
) -> Result<Seq<(nat, nat)>, GraphError> {
    match rest {
        Ok(arcs) => Ok(done + arcs),
        Err(e) => Err(e),
    }
}

/// Reading the first of some lines: an error ends the reading, a comment
/// leaves the arcs read so far as they are, and an arc is added to them.
proof fn lemma_parse_step<T: NodeID>(done: Seq<(nat, nat)>, line: Seq<char>, rest: Seq<Seq<char>>)
    ensures
        after::<T>(done, parse_lines::<T>(seq![line] + rest)) == match parse_line::<T>(line) {
            Err(e) => Err(e),
            Ok(None) => after::<T>(done, parse_lines::<T>(rest)),
            Ok(Some(arc)) => after::<T>(done.push(arc), parse_lines::<T>(rest)),
        },
{
    let all = seq![line] + rest;
    assert(all[0] == line);
    assert(all.drop_first() =~= rest);
    match parse_line::<T>(line) {
        Ok(Some(arc)) => {
            match parse_lines::<T>(rest) {
                Ok(more) => {
                    assert(done + (seq![arc] + more) =~= done.push(arc) + more);
                },
                Err(e) => {},
            }
        },
        _ => {},
    }
}

/// Reads an edge-list text: the edges of its lines in their order, or the
/// reason why its first refused line is refused.
pub fn parse_edge_list<T: NodeID>(text: &str) -> (r: Result<Vec<(T, T)>, GraphError>)
    ensures
        list_model(r) == parse_text::<T>(text@),
{
    let mut edges: Vec<(T, T)> = Vec::new();
    let mut line: Vec<char> = Vec::new();
    let ghost mut start: int = 0;
    proof {
        assert(text@.skip(0) =~= text@);
        lemma_after_nothing::<T>(parse_text::<T>(text@));
    }
    for c in it: text.chars()
        invariant
            it.seq() == text@,
            0 <= start <= it.index(),
            line@ == text@.subrange(start, it.index() as int),
            forall|k: int| start <= k < it.index() ==> #[trigger] text@[k] != NEWLINE,
            parse_text::<T>(text@) == after::<T>(
                arcs(edges@),
                parse_lines::<T>(lines(text@.skip(start))),
            ),
    {
        if c == NEWLINE {
            proof {
                lemma_lines_after_line(text@, start, it.index() as int);
                lemma_parse_step::<T>(arcs(edges@), line@, lines(text@.skip(it.index() + 1)));
            }
            match parse_chars::<T>(line.as_slice()) {
                Err(e) => {
                    return Err(e);
                },
                Ok(None) => {},
                Ok(Some(e)) => {
                    proof {
                        assert(arcs(edges@.push(e)) =~= arcs(edges@).push(
                            (e.0.value(), e.1.value()),
                        ));
                    }
                    edges.push(e);
                },
            }
            line.clear();
            proof {
                start = it.index() + 1;
            }
            assert(line@ =~= text@.subrange(start, it.index() + 1));
        } else {
            line.push(c);
            assert(line@ =~= text@.subrange(start, it.index() + 1));
        }
    }
    if line.len() > 0 {
        proof {
            lemma_lines_after_line(text@, start, text@.len() as int);
            lemma_parse_step::<T>(arcs(edges@), line@, Seq::<Seq<char>>::empty());
            assert(seq![line@] + Seq::<Seq<char>>::empty() =~= seq![line@]);
        }
        match parse_chars::<T>(line.as_slice()) {
            Err(e) => {
                return Err(e);
            },
            Ok(None) => {},
            Ok(Some(e)) => {
                proof {
                    assert(arcs(edges@.push(e)) =~= arcs(edges@).push((e.0.value(), e.1.value())));
                }
                edges.push(e);
            },
        }
    } else {
        assert(text@.skip(start) =~= Seq::<char>::empty());
    }
    proof {
        assert(arcs(edges@) + Seq::<(nat, nat)>::empty() =~= arcs(edges@));
    }
    Ok(edges)
}

/// Nothing in front of what a text holds leaves it as it is.
proof fn lemma_after_nothing<T: NodeID>(rest: Result<Seq<(nat, nat)>, GraphError>)
    ensures
        after::<T>(Seq::empty(), rest) == rest,
{
    match rest {
        Ok(all) => {
            assert(Seq::<(nat, nat)>::empty() + all =~= all);
        },
        Err(e) => {},
    }
}

} // verus!
