//! Reading interaction records. A record is a line of text whose fields are
//! parted by `;`. Its first two fields are the source and the destination
//! node, written as decimal numbers; further fields are not looked at.

use vstd::prelude::*;
use vstd::slice::slice_subrange;
use crate::error::CentralityError;
use crate::graph::{EdgeWeightedDigraph, MAX_INTERACTIONS};
use crate::matrix::{matrix_total, record};

verus! {

/// The byte `;`, which parts the fields of a record.
pub const SEPARATOR: u8 = 59;

/// The byte `+`, which may stand before a number.
pub const PLUS: u8 = 43;

/// The byte `0`.
pub const ZERO: u8 = 48;

/// The byte `9`.
pub const NINE: u8 = 57;

/// `b` is a decimal digit.
pub open spec fn is_digit(b: u8) -> bool {
    ZERO <= b <= NINE
}

/// The number that a sequence of digits stands for; zero for no digits.
pub open spec fn decimal_value(digits: Seq<u8>) -> nat
    decreases digits.len(),
{
    if digits.len() == 0 {
        0
    } else {
        10 * decimal_value(digits.drop_last()) + (digits.last() - ZERO) as nat
    }
}

/// `text` is one digit or more, and nothing else.
pub open spec fn is_number(text: Seq<u8>) -> bool {
    text.len() > 0 && forall|i: int| 0 <= i < text.len() ==> is_digit(#[trigger] text[i])
}

/// `text` without the `+` that it may begin with.
pub open spec fn without_sign(text: Seq<u8>) -> Seq<u8> {
    if text.len() > 0 && text[0] == PLUS {
        text.skip(1)
    } else {
        text
    }
}

/// The node index that a field holds: the field is a number, with or without
/// a `+` before it, that fits a `usize`. Any other field holds none.
pub open spec fn index_value(text: Seq<u8>) -> Option<usize> {
    let digits = without_sign(text);
    if is_number(digits) && decimal_value(digits) <= usize::MAX {
        Some(decimal_value(digits) as usize)
    } else {
        None
    }
}

/// Where the field that begins at `from` ends: at the first separator at or
/// behind `from`, or at the end of the line where there is none.
pub open spec fn field_end(line: Seq<u8>, from: int) -> int
    decreases line.len() - from,
{
    if from < 0 || from >= line.len() {
        line.len() as int
    } else if line[from] == SEPARATOR {
        from
    } else {
        field_end(line, from + 1)
    }
}

/// The first field of a line.
pub open spec fn first_field(line: Seq<u8>) -> Seq<u8> {
    line.subrange(0, field_end(line, 0))
}

/// The second field of a line, if the line has a separator at all.
pub open spec fn second_field(line: Seq<u8>) -> Option<Seq<u8>> {
    let first_end = field_end(line, 0);
    if first_end < line.len() {
        Some(line.subrange(first_end + 1, field_end(line, first_end + 1)))
    } else {
        None
    }
}

/// The pair of nodes that a line records: it has two fields at least, and
/// the first two hold a node index each.
pub open spec fn record_value(line: Seq<u8>) -> Option<(usize, usize)> {
    match second_field(line) {
        Some(second) => match (index_value(first_field(line)), index_value(second)) {
            (Some(source), Some(target)) => Some((source, target)),
            _ => None,
        },
        None => None,
    }
}

/// The edge that a line adds to a graph of `n` nodes: the pair it records,
/// if both are nodes of the graph.
pub open spec fn edge_value(line: Seq<u8>, n: nat) -> Option<(usize, usize)> {
    match record_value(line) {
        Some((source, target)) => if source < n && target < n {
            Some((source, target))
        } else {
            None
        },
        None => None,
    }
}

/// The end of a field is not before its beginning nor behind the line, no
/// separator lies between the two, and one stands at the end unless the line
/// ends there.
pub proof fn lemma_field_end(line: Seq<u8>, from: int)
    requires
        0 <= from <= line.len(),
    ensures
        from <= field_end(line, from) <= line.len(),
        forall|i: int| from <= i < field_end(line, from) ==> line[i] != SEPARATOR,
        field_end(line, from) < line.len() ==> line[field_end(line, from)] == SEPARATOR,
    decreases line.len() - from,
{
    if from < line.len() && line[from] != SEPARATOR {
        lemma_field_end(line, from + 1);
    }
}

/// A number does not get smaller when more digits follow.
proof fn lemma_decimal_prefix(digits: Seq<u8>, k: int)
    requires
        0 <= k <= digits.len(),
        forall|i: int| 0 <= i < digits.len() ==> is_digit(#[trigger] digits[i]),
    ensures
        decimal_value(digits.take(k)) <= decimal_value(digits),
    decreases digits.len() - k,
{
    if k < digits.len() {
        lemma_decimal_prefix(digits, k + 1);
        assert(digits.take(k + 1).drop_last() =~= digits.take(k));
    } else {
        assert(digits.take(k) =~= digits);
    }
}

/// Where the field that begins at `from` ends.
fn find_field_end(line: &[u8], from: usize) -> (end: usize)
    requires
        from <= line@.len(),
    ensures
        end == field_end(line@, from as int),
        from <= end <= line@.len(),
{
    let mut at: usize = from;
    while at < line.len() && line[at] != SEPARATOR
        invariant
            from <= at <= line@.len(),
            field_end(line@, at as int) == field_end(line@, from as int),
        decreases line@.len() - at,
    {
        at += 1;
    }
    at
}

/// Reads a node index: one digit or more, with or without a `+` before
/// them, whose decimal value fits a `usize`.
pub fn parse_index(text: &[u8]) -> (r: Option<usize>)
    ensures
        r == index_value(text@),
{
    let start: usize = if text.len() > 0 && text[0] == PLUS {
        1
    } else {
        0
    };
    let ghost digits = without_sign(text@);
    if start == text.len() {
        return None;
    }
    let mut value: usize = 0;
    let mut at: usize = start;
    assert(digits.take(0) =~= Seq::empty());
    while at < text.len()
        invariant
            start <= at <= text@.len(),
            start <= 1,
            digits == without_sign(text@),
            digits == text@.skip(start as int),
            digits.len() > 0,
            forall|i: int| 0 <= i < at - start ==> is_digit(#[trigger] digits[i]),
            value == decimal_value(digits.take(at - start)),
        decreases text@.len() - at,
    {
        let b = text[at];
        assert(b == digits[at - start]);
        if b < ZERO || b > NINE {
            assert(!is_digit(digits[at - start]));
            return None;
        }
        proof {
            let longer = digits.take(at - start + 1);
            assert(longer.drop_last() =~= digits.take(at - start));
            assert(longer.last() == b);
            assert(decimal_value(longer) == 10 * value + (b - ZERO));
            if is_number(digits) {
                lemma_decimal_prefix(digits, at - start + 1);
            }
        }
        let tens = match value.checked_mul(10) {
            Some(tens) => tens,
            None => {
                return None;
            },
        };
        value = match tens.checked_add((b - ZERO) as usize) {
            Some(sum) => sum,
            None => {
                return None;
            },
        };
        at += 1;
    }
    assert(digits.take(at - start) =~= digits);
    Some(value)
}

/// Reads a record: the node indices in the first two fields of `line`.
/// Gives nothing where the line has one field only, or where one of the two
/// fields holds no node index.
pub fn parse_record(line: &[u8]) -> (r: Option<(usize, usize)>)
    ensures
        r == record_value(line@),
{
    let first_end = find_field_end(line, 0);
    if first_end >= line.len() {
        return None;
    }
    let second_end = find_field_end(line, first_end + 1);
    let source = parse_index(slice_subrange(line, 0, first_end));
    let target = parse_index(slice_subrange(line, first_end + 1, second_end));
    match (source, target) {
        (Some(source), Some(target)) => Some((source, target)),
        _ => None,
    }
}

impl EdgeWeightedDigraph {
    /// Records the interaction that `line` describes. A line that is no
    /// record, or that names a node the graph does not have, is refused and
    /// leaves the graph as it was.
    pub fn record_line(&mut self, line: &[u8]) -> (r: Result<(), CentralityError>)
        requires
            old(self).wf(),
            edge_value(line@, old(self)@.len()) is Some ==> matrix_total(old(self)@)
                < MAX_INTERACTIONS,
        ensures
            final(self).wf(),
            match edge_value(line@, old(self)@.len()) {
                Some((source, target)) => r is Ok && final(self)@ == record(
                    old(self)@,
                    source as int,
                    target as int,
                ) && matrix_total(final(self)@) == matrix_total(old(self)@) + 1,
                None => r == Err::<(), CentralityError>(CentralityError::IndexOutOfRange)
                    && final(self)@ == old(self)@,
            },
    {
        match parse_record(line) {
            Some((source, target)) => self.add_weight(source, target),
            None => Err(CentralityError::IndexOutOfRange),
        }
    }
}

} // verus!
