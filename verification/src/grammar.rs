//! The grammar of path texts, as functions on sequences of characters.
//!
//! A path is written as segments from left to right. A name stands as it is
//! where it holds no dot, bracket or white space and does not begin with a
//! double quote; any name without a double quote in it can stand between
//! double quotes. An index stands between square brackets, in decimal
//! without leading zeros. A group stands between round brackets, its
//! alternatives are parted by ` | `, and the segments of an alternative,
//! which are fields and indices, by dots. Outside a group a dot stands
//! before every field and group but the first, and nothing before an index.

use crate::error::{Expected, LookupError};
use crate::model::SegmentView;
use vstd::prelude::*;

verus! {

/// Whether `c` ends a name that is written without quotes: a dot, a
/// bracket, or white space.
pub open spec fn is_delimiter(c: char) -> bool {
    c == '.' || c == '[' || c == ']' || c == '(' || c == ')' || c == ' ' || c == '\t' || c
        == '\n' || c == '\r'
}

/// The value of a decimal digit, and -1 for any other character.
pub open spec fn digit_value(c: char) -> int {
    if c == '0' {
        0
    } else if c == '1' {
        1
    } else if c == '2' {
        2
    } else if c == '3' {
        3
    } else if c == '4' {
        4
    } else if c == '5' {
        5
    } else if c == '6' {
        6
    } else if c == '7' {
        7
    } else if c == '8' {
        8
    } else if c == '9' {
        9
    } else {
        -1
    }
}

pub open spec fn is_digit(c: char) -> bool {
    digit_value(c) >= 0
}

/// The number that a run of digits stands for.
pub open spec fn digits_value(d: Seq<char>) -> nat
    decreases d.len(),
{
    if d.len() == 0 {
        0
    } else {
        (digits_value(d.drop_last()) * 10 + digit_value(d.last())) as nat
    }
}

/// A name that can stand without quotes: not empty, free of delimiters, and
/// not begun with a double quote.
pub open spec fn bare_name(name: Seq<char>) -> bool {
    &&& name.len() > 0
    &&& name[0] != '"'
    &&& forall|i: int| 0 <= i < name.len() ==> !is_delimiter(#[trigger] name[i])
}

/// A name that can stand between quotes: free of double quotes.
pub open spec fn quoted_name(name: Seq<char>) -> bool {
    forall|i: int| 0 <= i < name.len() ==> #[trigger] name[i] != '"'
}

/// A field or an index that a text can stand for.
pub open spec fn leaf_ok(s: SegmentView) -> bool {
    match s {
        SegmentView::Field { name, requires_quoting } => if requires_quoting {
            quoted_name(name)
        } else {
            bare_name(name)
        },
        SegmentView::Index(n) => n <= usize::MAX,
        SegmentView::Coalesce(_) => false,
    }
}

/// An alternative that a text can stand for: one or more fields and indices.
pub open spec fn branch_ok(b: Seq<SegmentView>) -> bool {
    &&& b.len() >= 1
    &&& forall|j: int| 0 <= j < b.len() ==> leaf_ok(#[trigger] b[j])
}

/// A segment that a text can stand for: a field, an index, or a group of two
/// or more alternatives.
pub open spec fn segment_ok(s: SegmentView) -> bool {
    match s {
        SegmentView::Coalesce(alts) => {
            &&& alts.len() >= 2
            &&& forall|i: int| 0 <= i < alts.len() ==> branch_ok(#[trigger] alts[i])
        },
        _ => leaf_ok(s),
    }
}

/// A path that a text can stand for.
pub open spec fn parseable(p: Seq<SegmentView>) -> bool {
    &&& p.len() >= 1
    &&& forall|i: int| 0 <= i < p.len() ==> segment_ok(#[trigger] p[i])
}

/// Where the run of characters that are no delimiters, begun at `pos`, ends.
pub open spec fn bare_end(s: Seq<char>, pos: int) -> int
    decreases s.len() - pos,
{
    if pos < 0 || pos >= s.len() || is_delimiter(s[pos]) {
        pos
    } else {
        bare_end(s, pos + 1)
    }
}

/// Where the first double quote at or after `pos` stands; the length of the
/// text if there is none.
pub open spec fn quote_end(s: Seq<char>, pos: int) -> int
    decreases s.len() - pos,
{
    if pos < 0 || pos >= s.len() || s[pos] == '"' {
        pos
    } else {
        quote_end(s, pos + 1)
    }
}

/// Where the run of digits begun at `pos` ends.
pub open spec fn digits_end(s: Seq<char>, pos: int) -> int
    decreases s.len() - pos,
{
    if pos < 0 || pos >= s.len() || !is_digit(s[pos]) {
        pos
    } else {
        digits_end(s, pos + 1)
    }
}

/// The error of a text that breaks the grammar at `position`.
pub open spec fn malformed(position: int, expected: Expected) -> LookupError {
    LookupError::MalformedSegment { position: position as usize, expected }
}

/// Reads the index whose opening bracket stands at `pos`. Gives the segment
/// and the place after its closing bracket.
pub open spec fn parse_index(s: Seq<char>, pos: int) -> Result<(SegmentView, int), LookupError> {
    let end = digits_end(s, pos + 1);
    if end == pos + 1 {
        Err(malformed(pos + 1, Expected::Digit))
    } else if s[pos + 1] == '0' && end > pos + 2 {
        Err(malformed(pos + 2, Expected::ClosingBracket))
    } else if digits_value(s.subrange(pos + 1, end)) > usize::MAX {
        Err(malformed(pos + 1, Expected::IndexInRange))
    } else if end >= s.len() || s[end] != ']' {
        Err(malformed(end, Expected::ClosingBracket))
    } else {
        Ok((SegmentView::Index(digits_value(s.subrange(pos + 1, end))), end + 1))
    }
}

/// Reads the field or index that begins at `pos`. Gives the segment and the
/// place after it.
pub open spec fn parse_leaf(s: Seq<char>, pos: int) -> Result<(SegmentView, int), LookupError> {
    if pos < 0 || pos >= s.len() {
        Err(malformed(pos, Expected::Segment))
    } else if s[pos] == '"' {
        let end = quote_end(s, pos + 1);
        if end >= s.len() {
            Err(malformed(s.len() as int, Expected::ClosingQuote))
        } else {
            Ok(
                (
                    SegmentView::Field { name: s.subrange(pos + 1, end), requires_quoting: true },
                    end + 1,
                ),
            )
        }
    } else if s[pos] == '[' {
        parse_index(s, pos)
    } else if is_delimiter(s[pos]) {
        Err(malformed(pos, Expected::Segment))
    } else {
        Ok(
            (
                SegmentView::Field {
                    name: s.subrange(pos, bare_end(s, pos)),
                    requires_quoting: false,
                },
                bare_end(s, pos),
            ),
        )
    }
}

/// A run that is scanned from inside the text ends inside the text, at or
/// after the place where it began.
pub proof fn lemma_scan_bounds(s: Seq<char>, pos: int)
    requires
        0 <= pos <= s.len(),
    ensures
        pos <= bare_end(s, pos) <= s.len(),
        pos <= quote_end(s, pos) <= s.len(),
        pos <= digits_end(s, pos) <= s.len(),
    decreases s.len() - pos,
{
    if pos < s.len() {
        lemma_scan_bounds(s, pos + 1);
    }
}

/// An index that was read ends after its opening bracket, inside the text.
pub proof fn lemma_index_bounds(s: Seq<char>, pos: int)
    requires
        0 <= pos < s.len(),
    ensures
        parse_index(s, pos) matches Ok((_, end)) ==> pos + 2 < end <= s.len(),
{
    lemma_scan_bounds(s, pos + 1);
}

/// A field or index that was read is not empty and ends inside the text.
pub proof fn lemma_leaf_bounds(s: Seq<char>, pos: int)
    ensures
        parse_leaf(s, pos) matches Ok((_, end)) ==> 0 <= pos < end <= s.len(),
{
    if 0 <= pos < s.len() {
        lemma_scan_bounds(s, pos + 1);
        lemma_scan_bounds(s, pos);
        lemma_index_bounds(s, pos);
    }
}

#[via_fn]
proof fn parse_branch_decreases(s: Seq<char>, pos: int, acc: Seq<SegmentView>)
{
    lemma_leaf_bounds(s, pos);
}

/// Reads the rest of an alternative of which `acc` has been read, from
/// `pos`, where a field or index must begin. Gives the whole alternative and
/// the place after it.
pub open spec fn parse_branch(s: Seq<char>, pos: int, acc: Seq<SegmentView>) -> Result<
    (Seq<SegmentView>, int),
    LookupError,
>
    decreases s.len() - pos,
    via parse_branch_decreases
{
    match parse_leaf(s, pos) {
        Err(e) => Err(e),
        Ok((seg, end)) => {
            if end < s.len() && s[end] == '.' {
                parse_branch(s, end + 1, acc.push(seg))
            } else {
                Ok((acc.push(seg), end))
            }
        },
    }
}

/// An alternative that was read is not empty and ends inside the text.
pub proof fn lemma_branch_bounds(s: Seq<char>, pos: int, acc: Seq<SegmentView>)
    ensures
        parse_branch(s, pos, acc) matches Ok((_, end)) ==> 0 <= pos < end <= s.len(),
    decreases s.len() - pos,
{
    lemma_leaf_bounds(s, pos);
    if let Ok((seg, end)) = parse_leaf(s, pos) {
        if end < s.len() && s[end] == '.' {
            lemma_branch_bounds(s, end + 1, acc.push(seg));
        }
    }
}

#[via_fn]
proof fn parse_alternatives_decreases(s: Seq<char>, pos: int, acc: Seq<Seq<SegmentView>>)
{
    lemma_branch_bounds(s, pos, Seq::empty());
}

/// Reads the rest of a group of which the alternatives `acc` have been
/// read, from `pos`, where an alternative must begin. Gives all the
/// alternatives and the place after the closing bracket.
pub open spec fn parse_alternatives(s: Seq<char>, pos: int, acc: Seq<Seq<SegmentView>>) -> Result<
    (Seq<Seq<SegmentView>>, int),
    LookupError,
>
    decreases s.len() - pos,
    via parse_alternatives_decreases
{
    match parse_branch(s, pos, Seq::empty()) {
        Err(e) => Err(e),
        Ok((branch, end)) => {
            if end >= s.len() {
                Err(malformed(end, Expected::ClosingParen))
            } else if s[end] == ')' {
                if acc.len() == 0 {
                    Err(LookupError::InvalidStructure)
                } else {
                    Ok((acc.push(branch), end + 1))
                }
            } else if s[end] == ' ' {
                if end + 2 < s.len() && s[end + 1] == '|' && s[end + 2] == ' ' {
                    parse_alternatives(s, end + 3, acc.push(branch))
                } else {
                    Err(malformed(end, Expected::AlternativeSeparator))
                }
            } else {
                Err(malformed(end, Expected::ClosingParen))
            }
        },
    }
}

/// The alternatives of a group that was read end inside the text.
pub proof fn lemma_alternatives_bounds(s: Seq<char>, pos: int, acc: Seq<Seq<SegmentView>>)
    ensures
        parse_alternatives(s, pos, acc) matches Ok((_, end)) ==> 0 <= pos < end <= s.len(),
    decreases s.len() - pos,
{
    lemma_branch_bounds(s, pos, Seq::empty());
    if let Ok((branch, end)) = parse_branch(s, pos, Seq::empty()) {
        if end + 2 < s.len() && s[end] == ' ' && s[end + 1] == '|' && s[end + 2] == ' ' {
            lemma_alternatives_bounds(s, end + 3, acc.push(branch));
        }
    }
}

/// A segment that was read is not empty and ends inside the text.
pub proof fn lemma_segment_bounds(s: Seq<char>, pos: int)
    ensures
        parse_segment(s, pos) matches Ok((_, end)) ==> 0 <= pos < end <= s.len(),
{
    lemma_leaf_bounds(s, pos);
    lemma_alternatives_bounds(s, pos + 1, Seq::empty());
}

#[via_fn]
proof fn parse_rest_decreases(s: Seq<char>, pos: int, acc: Seq<SegmentView>)
{
    if 0 <= pos < s.len() {
        lemma_index_bounds(s, pos);
        lemma_segment_bounds(s, pos + 1);
    }
}

/// Reads the segment that begins at `pos`: a group, a field or an index.
pub open spec fn parse_segment(s: Seq<char>, pos: int) -> Result<(SegmentView, int), LookupError> {
    if 0 <= pos < s.len() && s[pos] == '(' {
        match parse_alternatives(s, pos + 1, Seq::empty()) {
            Err(e) => Err(e),
            Ok((alts, end)) => Ok((SegmentView::Coalesce(alts), end)),
        }
    } else {
        parse_leaf(s, pos)
    }
}

/// Reads the rest of a path of which the segments `acc` have been read,
/// from `pos`, where the text ends or a separator or an index stands.
pub open spec fn parse_rest(s: Seq<char>, pos: int, acc: Seq<SegmentView>) -> Result<
    Seq<SegmentView>,
    LookupError,
>
    decreases s.len() - pos,
    via parse_rest_decreases
{
    if pos < 0 || pos >= s.len() {
        Ok(acc)
    } else if s[pos] == '[' {
        match parse_index(s, pos) {
            Err(e) => Err(e),
            Ok((seg, end)) => parse_rest(s, end, acc.push(seg)),
        }
    } else if s[pos] == '.' {
        if pos + 1 < s.len() && s[pos + 1] == '[' {
            Err(malformed(pos + 1, Expected::Segment))
        } else {
            match parse_segment(s, pos + 1) {
                Err(e) => Err(e),
                Ok((seg, end)) => parse_rest(s, end, acc.push(seg)),
            }
        }
    } else {
        Err(malformed(pos, Expected::Separator))
    }
}

/// Reads a whole text as a path.
#[verifier::opaque]
pub open spec fn parse_path(s: Seq<char>) -> Result<Seq<SegmentView>, LookupError> {
    if s.len() == 0 {
        Err(LookupError::EmptyPath)
    } else {
        match parse_segment(s, 0) {
            Err(e) => Err(e),
            Ok((seg, end)) => parse_rest(s, end, seq![seg]),
        }
    }
}

} // verus!
