//! Reading a path from its text.

use crate::error::{Expected, LookupError};
use crate::grammar::{
    bare_end, digit_value, digits_end, digits_value, is_delimiter, is_digit, lemma_branch_bounds,
    lemma_index_bounds, lemma_leaf_bounds, lemma_segment_bounds, parse_alternatives,
    parse_branch, parse_index, parse_leaf, parse_path, parse_rest, parse_segment, quote_end,
};
use crate::model::SegmentView;
use crate::segmentbuf::{alternatives_view, lemma_view_coalesce, path_view, SegmentBuf};
use crate::text::string_of;
use std::collections::VecDeque;
use vstd::prelude::*;

verus! {

/// Whether `c` ends a name that is written without quotes.
pub fn is_delimiter_char(c: char) -> (r: bool)
    ensures
        r == is_delimiter(c),
{
    c == '.' || c == '[' || c == ']' || c == '(' || c == ')' || c == ' ' || c == '\t' || c == '\n'
        || c == '\r'
}

/// The value of the digit `c`, if it is one.
pub fn digit_of_char(c: char) -> (r: Option<usize>)
    ensures
        r matches Some(d) ==> d == digit_value(c),
        r is None ==> !is_digit(c),
{
    if c == '0' {
        Some(0)
    } else if c == '1' {
        Some(1)
    } else if c == '2' {
        Some(2)
    } else if c == '3' {
        Some(3)
    } else if c == '4' {
        Some(4)
    } else if c == '5' {
        Some(5)
    } else if c == '6' {
        Some(6)
    } else if c == '7' {
        Some(7)
    } else if c == '8' {
        Some(8)
    } else if c == '9' {
        Some(9)
    } else {
        None
    }
}

/// Where the run of characters that are no delimiters, begun at `pos`, ends.
pub fn scan_bare(chars: &Vec<char>, pos: usize) -> (end: usize)
    requires
        pos <= chars.len(),
    ensures
        end == bare_end(chars@, pos as int),
        pos <= end <= chars.len(),
{
    let mut i: usize = pos;
    while i < chars.len() && !is_delimiter_char(chars[i])
        invariant
            pos <= i <= chars.len(),
            bare_end(chars@, pos as int) == bare_end(chars@, i as int),
        decreases chars.len() - i,
    {
        i += 1;
    }
    i
}

/// Where the first double quote at or after `pos` stands.
pub fn scan_quote(chars: &Vec<char>, pos: usize) -> (end: usize)
    requires
        pos <= chars.len(),
    ensures
        end == quote_end(chars@, pos as int),
        pos <= end <= chars.len(),
{
    let mut i: usize = pos;
    while i < chars.len() && chars[i] != '"'
        invariant
            pos <= i <= chars.len(),
            quote_end(chars@, pos as int) == quote_end(chars@, i as int),
        decreases chars.len() - i,
    {
        i += 1;
    }
    i
}

/// The number of a run of digits is at least the number of any run that it
/// begins with.
pub proof fn lemma_digits_value_grows(d: Seq<char>, k: int)
    requires
        0 <= k <= d.len(),
        forall|i: int| 0 <= i < d.len() ==> is_digit(#[trigger] d[i]),
    ensures
        digits_value(d.take(k)) <= digits_value(d),
    decreases d.len() - k,
{
    if k < d.len() {
        lemma_digits_value_grows(d, k + 1);
        assert(d.take(k + 1).drop_last() =~= d.take(k));
    } else {
        assert(d.take(k) =~= d);
    }
}

/// The digits of a text from `from` to the end of their run.
pub proof fn lemma_digits_run(s: Seq<char>, from: int, at: int)
    requires
        0 <= from <= at <= s.len(),
        forall|i: int| from <= i < at ==> is_digit(#[trigger] s[i]),
    ensures
        digits_end(s, from) == digits_end(s, at),
        forall|i: int| from <= i < digits_end(s, at) ==> is_digit(#[trigger] s[i]),
        at <= digits_end(s, at) <= s.len(),
    decreases s.len() - at,
{
    lemma_digits_same_end(s, from, at);
    if at < s.len() && is_digit(s[at]) {
        lemma_digits_run(s, from, at + 1);
    }
}

/// A run of digits ends where the run begun further inside it ends.
pub proof fn lemma_digits_same_end(s: Seq<char>, from: int, at: int)
    requires
        0 <= from <= at <= s.len(),
        forall|i: int| from <= i < at ==> is_digit(#[trigger] s[i]),
    ensures
        digits_end(s, from) == digits_end(s, at),
    decreases at - from,
{
    if from < at {
        lemma_digits_same_end(s, from + 1, at);
    }
}

/// What a reading function gave, held against what the grammar gives.
pub open spec fn segment_agrees(
    r: Result<(SegmentBuf, usize), LookupError>,
    m: Result<(SegmentView, int), LookupError>,
) -> bool {
    match (r, m) {
        (Ok((seg, end)), Ok((sv, e))) => seg@ == sv && end == e,
        (Err(a), Err(b)) => a == b,
        _ => false,
    }
}

/// Reads the index whose opening bracket stands at `pos`.
pub fn read_index(chars: &Vec<char>, pos: usize) -> (r: Result<(SegmentBuf, usize), LookupError>)
    requires
        pos < chars.len(),
    ensures
        segment_agrees(r, parse_index(chars@, pos as int)),
{
    let ghost s = chars@;
    let start: usize = pos + 1;
    let mut i: usize = start;
    let mut value: usize = 0;
    loop
        invariant
            s == chars@,
            start == pos + 1,
            start <= i <= chars.len(),
            forall|k: int| start <= k < i ==> is_digit(#[trigger] s[k]),
            value == digits_value(s.subrange(start as int, i as int)),
            i > start + 1 ==> s[start as int] != '0',
        ensures
            i >= chars.len() || !is_digit(s[i as int]),
        decreases chars.len() - i,
    {
        if i >= chars.len() {
            break;
        }
        let d: usize = match digit_of_char(chars[i]) {
            Some(d) => d,
            None => {
                break;
            },
        };
        proof {
            lemma_digits_run(s, start as int, i + 1);
        }
        if i == start + 1 && chars[start] == '0' {
            return Err(
                LookupError::MalformedSegment {
                    position: start + 1,
                    expected: Expected::ClosingBracket,
                },
            );
        }
        if value > (usize::MAX - d) / 10 {
            proof {
                let end = digits_end(s, start as int);
                let run = s.subrange(start as int, end);
                assert(run.take(i + 1 - start) =~= s.subrange(start as int, i + 1));
                assert(s.subrange(start as int, i + 1).drop_last() =~= s.subrange(
                    start as int,
                    i as int,
                ));
                lemma_digits_value_grows(run, i + 1 - start);
            }
            return Err(
                LookupError::MalformedSegment { position: start, expected: Expected::IndexInRange },
            );
        }
        proof {
            assert(s.subrange(start as int, i + 1).drop_last() =~= s.subrange(
                start as int,
                i as int,
            ));
        }
        value = value * 10 + d;
        i += 1;
    }
    proof {
        lemma_digits_run(s, start as int, i as int);
    }
    if i == start {
        return Err(LookupError::MalformedSegment { position: start, expected: Expected::Digit });
    }
    if i >= chars.len() || chars[i] != ']' {
        return Err(
            LookupError::MalformedSegment { position: i, expected: Expected::ClosingBracket },
        );
    }
    Ok((SegmentBuf::Index(value), i + 1))
}

/// Reads the field or index that begins at `pos`.
pub fn read_leaf(chars: &Vec<char>, pos: usize) -> (r: Result<(SegmentBuf, usize), LookupError>)
    requires
        pos <= chars.len(),
    ensures
        segment_agrees(r, parse_leaf(chars@, pos as int)),
{
    if pos >= chars.len() {
        return Err(LookupError::MalformedSegment { position: pos, expected: Expected::Segment });
    }
    let c = chars[pos];
    if c == '"' {
        let end = scan_quote(chars, pos + 1);
        if end >= chars.len() {
            Err(
                LookupError::MalformedSegment {
                    position: chars.len(),
                    expected: Expected::ClosingQuote,
                },
            )
        } else {
            let name = string_of(chars, pos + 1, end);
            Ok((SegmentBuf::Field { name, requires_quoting: true }, end + 1))
        }
    } else if c == '[' {
        read_index(chars, pos)
    } else if is_delimiter_char(c) {
        Err(LookupError::MalformedSegment { position: pos, expected: Expected::Segment })
    } else {
        let end = scan_bare(chars, pos);
        let name = string_of(chars, pos, end);
        Ok((SegmentBuf::Field { name, requires_quoting: false }, end))
    }
}

/// Reads the alternative that begins at `pos`.
pub fn read_branch(chars: &Vec<char>, pos: usize) -> (r: Result<
    (VecDeque<SegmentBuf>, usize),
    LookupError,
>)
    requires
        pos <= chars.len(),
    ensures
        match (r, parse_branch(chars@, pos as int, Seq::empty())) {
            (Ok((branch, end)), Ok((b, e))) => path_view(branch@) == b && end == e,
            (Err(a), Err(b)) => a == b,
            _ => false,
        },
{
    let mut acc: VecDeque<SegmentBuf> = VecDeque::new();
    let mut at: usize = pos;
    assert(path_view(acc@) =~= Seq::empty());
    loop
        invariant
            at <= chars.len(),
            parse_branch(chars@, pos as int, Seq::empty()) == parse_branch(
                chars@,
                at as int,
                path_view(acc@),
            ),
        decreases chars.len() - at,
    {
        let ghost before = path_view(acc@);
        proof {
            lemma_leaf_bounds(chars@, at as int);
        }
        match read_leaf(chars, at) {
            Err(e) => {
                return Err(e);
            },
            Ok((seg, end)) => {
                acc.push_back(seg);
                assert(path_view(acc@) =~= before.push(seg@));
                if end < chars.len() && chars[end] == '.' {
                    at = end + 1;
                } else {
                    return Ok((acc, end));
                }
            },
        }
    }
}

/// Reads the alternatives of the group whose opening bracket stands before
/// `pos`, and its closing bracket.
pub fn read_alternatives(chars: &Vec<char>, pos: usize) -> (r: Result<
    (Vec<VecDeque<SegmentBuf>>, usize),
    LookupError,
>)
    requires
        pos <= chars.len(),
    ensures
        match (r, parse_alternatives(chars@, pos as int, Seq::empty())) {
            (Ok((alts, end)), Ok((a, e))) => alternatives_view(alts@) == a && end == e,
            (Err(a), Err(b)) => a == b,
            _ => false,
        },
{
    let mut acc: Vec<VecDeque<SegmentBuf>> = Vec::new();
    let mut at: usize = pos;
    assert(alternatives_view(acc@) =~= Seq::empty());
    loop
        invariant
            at <= chars.len(),
            parse_alternatives(chars@, pos as int, Seq::empty()) == parse_alternatives(
                chars@,
                at as int,
                alternatives_view(acc@),
            ),
        decreases chars.len() - at,
    {
        let ghost before = alternatives_view(acc@);
        proof {
            lemma_branch_bounds(chars@, at as int, Seq::empty());
        }
        match read_branch(chars, at) {
            Err(e) => {
                return Err(e);
            },
            Ok((branch, end)) => {
                if end >= chars.len() {
                    return Err(
                        LookupError::MalformedSegment {
                            position: end,
                            expected: Expected::ClosingParen,
                        },
                    );
                }
                let c = chars[end];
                if c == ')' {
                    if acc.len() == 0 {
                        return Err(LookupError::InvalidStructure);
                    }
                    let ghost b = path_view(branch@);
                    acc.push(branch);
                    return Ok((acc, end + 1));
                } else if c == ' ' {
                    if chars.len() - end > 2 && chars[end + 1] == '|' && chars[end + 2] == ' ' {
                        let ghost b = path_view(branch@);
                        acc.push(branch);
                        assert(alternatives_view(acc@) =~= before.push(b));
                        at = end + 3;
                    } else {
                        return Err(
                            LookupError::MalformedSegment {
                                position: end,
                                expected: Expected::AlternativeSeparator,
                            },
                        );
                    }
                } else {
                    return Err(
                        LookupError::MalformedSegment {
                            position: end,
                            expected: Expected::ClosingParen,
                        },
                    );
                }
            },
        }
    }
}

/// Reads the segment that begins at `pos`: a group, a field or an index.
pub fn read_segment(chars: &Vec<char>, pos: usize) -> (r: Result<(SegmentBuf, usize), LookupError>)
    requires
        pos <= chars.len(),
    ensures
        segment_agrees(r, parse_segment(chars@, pos as int)),
{
    if pos < chars.len() && chars[pos] == '(' {
        match read_alternatives(chars, pos + 1) {
            Err(e) => Err(e),
            Ok((alts, end)) => {
                proof {
                    lemma_view_coalesce(alts);
                }
                Ok((SegmentBuf::Coalesce(alts), end))
            },
        }
    } else {
        read_leaf(chars, pos)
    }
}

/// Reads the characters of a whole text as the segments of a path.
pub fn read_path(chars: &Vec<char>) -> (r: Result<VecDeque<SegmentBuf>, LookupError>)
    ensures
        match (r, parse_path(chars@)) {
            (Ok(segments), Ok(p)) => path_view(segments@) == p,
            (Err(a), Err(b)) => a == b,
            _ => false,
        },
{
    proof {
        reveal(parse_path);
    }
    if chars.len() == 0 {
        return Err(LookupError::EmptyPath);
    }
    let mut acc: VecDeque<SegmentBuf> = VecDeque::new();
    let mut at: usize = 0;
    proof {
        lemma_segment_bounds(chars@, 0);
    }
    match read_segment(chars, 0) {
        Err(e) => {
            return Err(e);
        },
        Ok((seg, end)) => {
            acc.push_back(seg);
            assert(path_view(acc@) =~= seq![seg@]);
            at = end;
        },
    }
    loop
        invariant
            at <= chars.len(),
            parse_path(chars@) == parse_rest(chars@, at as int, path_view(acc@)),
        decreases chars.len() - at,
    {
        let ghost before = path_view(acc@);
        if at >= chars.len() {
            return Ok(acc);
        }
        let c = chars[at];
        if c == '[' {
            proof {
                lemma_index_bounds(chars@, at as int);
            }
            match read_index(chars, at) {
                Err(e) => {
                    return Err(e);
                },
                Ok((seg, end)) => {
                    acc.push_back(seg);
                    assert(path_view(acc@) =~= before.push(seg@));
                    at = end;
                },
            }
        } else if c == '.' {
            if chars.len() - at > 1 && chars[at + 1] == '[' {
                return Err(
                    LookupError::MalformedSegment {
                        position: at + 1,
                        expected: Expected::Segment,
                    },
                );
            }
            proof {
                lemma_segment_bounds(chars@, at + 1);
            }
            match read_segment(chars, at + 1) {
                Err(e) => {
                    return Err(e);
                },
                Ok((seg, end)) => {
                    acc.push_back(seg);
                    assert(path_view(acc@) =~= before.push(seg@));
                    at = end;
                },
            }
        } else {
            return Err(
                LookupError::MalformedSegment { position: at, expected: Expected::Separator },
            );
        }
    }
}

} // verus!
