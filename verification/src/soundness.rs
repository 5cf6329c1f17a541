//! What the grammar reads, it reads rightly: the text of what was read is
//! the text that was read.

use crate::digits::{canonical_digits, lemma_decimal_of_digits};
use crate::grammar::{
    bare_end, branch_ok, digits_end, is_delimiter, is_digit, leaf_ok, parse_alternatives,
    parse_branch, parse_index, parse_leaf, parse_path, parse_rest, parse_segment, parseable,
    quote_end, segment_ok,
};
use crate::model::{
    alternatives_text, bar, branch_text, dot, lemma_alternatives_text_push,
    lemma_branch_text_push, lemma_path_text_push, path_text, segment_text, separator_before,
    SegmentView,
};
use vstd::prelude::*;

verus! {

/// The run of characters that are no delimiters holds none, and ends at a
/// delimiter or at the end of the text.
pub proof fn lemma_bare_run(s: Seq<char>, pos: int)
    requires
        0 <= pos <= s.len(),
    ensures
        pos <= bare_end(s, pos) <= s.len(),
        forall|i: int| pos <= i < bare_end(s, pos) ==> !is_delimiter(#[trigger] s[i]),
        bare_end(s, pos) == s.len() || is_delimiter(s[bare_end(s, pos)]),
    decreases s.len() - pos,
{
    if pos < s.len() && !is_delimiter(s[pos]) {
        lemma_bare_run(s, pos + 1);
    }
}

/// The run up to the first double quote holds none, and ends at one or at
/// the end of the text.
pub proof fn lemma_quote_run(s: Seq<char>, pos: int)
    requires
        0 <= pos <= s.len(),
    ensures
        pos <= quote_end(s, pos) <= s.len(),
        forall|i: int| pos <= i < quote_end(s, pos) ==> #[trigger] s[i] != '"',
        quote_end(s, pos) == s.len() || s[quote_end(s, pos)] == '"',
    decreases s.len() - pos,
{
    if pos < s.len() && s[pos] != '"' {
        lemma_quote_run(s, pos + 1);
    }
}

/// The run of digits holds digits only, and ends at another character or at
/// the end of the text.
pub proof fn lemma_digit_run(s: Seq<char>, pos: int)
    requires
        0 <= pos <= s.len(),
    ensures
        pos <= digits_end(s, pos) <= s.len(),
        forall|i: int| pos <= i < digits_end(s, pos) ==> is_digit(#[trigger] s[i]),
        digits_end(s, pos) == s.len() || !is_digit(s[digits_end(s, pos)]),
    decreases s.len() - pos,
{
    if pos < s.len() && is_digit(s[pos]) {
        lemma_digit_run(s, pos + 1);
    }
}

/// An index that was read stands in the text as it is written.
pub proof fn lemma_index_sound(s: Seq<char>, pos: int)
    requires
        0 <= pos < s.len(),
        s[pos] == '[',
    ensures
        parse_index(s, pos) matches Ok((seg, end)) ==> {
            &&& seg is Index
            &&& leaf_ok(seg)
            &&& pos < end <= s.len()
            &&& s.subrange(pos, end) == segment_text(seg)
        },
{
    lemma_digit_run(s, pos + 1);
    if let Ok((seg, end)) = parse_index(s, pos) {
        let d = s.subrange(pos + 1, digits_end(s, pos + 1));
        assert(canonical_digits(d));
        lemma_decimal_of_digits(d);
    }
}

/// A field or index that was read stands in the text as it is written.
pub proof fn lemma_leaf_sound(s: Seq<char>, pos: int)
    ensures
        parse_leaf(s, pos) matches Ok((seg, end)) ==> {
            &&& leaf_ok(seg)
            &&& 0 <= pos < end <= s.len()
            &&& s.subrange(pos, end) == segment_text(seg)
            &&& seg is Index <==> s[pos] == '['
        },
{
    if let Ok((seg, end)) = parse_leaf(s, pos) {
        if s[pos] == '"' {
            lemma_quote_run(s, pos + 1);
        } else if s[pos] == '[' {
            lemma_index_sound(s, pos);
        } else {
            lemma_bare_run(s, pos);
        }
    }
}

/// What stands before the next segment of an alternative of which `acc` has
/// been read.
pub open spec fn branch_so_far(acc: Seq<SegmentView>) -> Seq<char> {
    if acc.len() == 0 {
        Seq::empty()
    } else {
        branch_text(acc) + dot()
    }
}

/// An alternative that was read stands in the text as it is written.
pub proof fn lemma_branch_sound(s: Seq<char>, pos: int, acc: Seq<SegmentView>)
    requires
        forall|j: int| 0 <= j < acc.len() ==> leaf_ok(#[trigger] acc[j]),
    ensures
        parse_branch(s, pos, acc) matches Ok((b, end)) ==> {
            &&& branch_ok(b)
            &&& 0 <= pos < end <= s.len()
            &&& branch_text(b) == branch_so_far(acc) + s.subrange(pos, end)
        },
    decreases s.len() - pos,
{
    lemma_leaf_sound(s, pos);
    if let Ok((seg, stop)) = parse_leaf(s, pos) {
        lemma_branch_text_push(acc, seg);
        if stop < s.len() && s[stop] == '.' {
            lemma_branch_sound(s, stop + 1, acc.push(seg));
        }
    }
}

/// What stands before the next alternative of a group of which `acc` has
/// been read.
pub open spec fn alternatives_so_far(acc: Seq<Seq<SegmentView>>) -> Seq<char> {
    if acc.len() == 0 {
        Seq::empty()
    } else {
        alternatives_text(acc) + bar()
    }
}

/// The alternatives of a group that was read stand in the text as they are
/// written, and are two or more.
pub proof fn lemma_alternatives_sound(s: Seq<char>, pos: int, acc: Seq<Seq<SegmentView>>)
    requires
        forall|i: int| 0 <= i < acc.len() ==> branch_ok(#[trigger] acc[i]),
    ensures
        parse_alternatives(s, pos, acc) matches Ok((alts, end)) ==> {
            &&& alts.len() >= 2
            &&& forall|i: int| 0 <= i < alts.len() ==> branch_ok(#[trigger] alts[i])
            &&& 0 <= pos < end <= s.len()
            &&& alternatives_text(alts) + seq![')'] == alternatives_so_far(acc) + s.subrange(
                pos,
                end,
            )
        },
    decreases s.len() - pos,
{
    lemma_branch_sound(s, pos, Seq::empty());
    if let Ok((branch, stop)) = parse_branch(s, pos, Seq::empty()) {
        lemma_alternatives_text_push(acc, branch);
        if stop + 2 < s.len() && s[stop] == ' ' && s[stop + 1] == '|' && s[stop + 2] == ' ' {
            lemma_alternatives_sound(s, stop + 3, acc.push(branch));
        }
    }
}

/// A segment that was read stands in the text as it is written.
pub proof fn lemma_segment_sound(s: Seq<char>, pos: int)
    ensures
        parse_segment(s, pos) matches Ok((seg, end)) ==> {
            &&& segment_ok(seg)
            &&& 0 <= pos < end <= s.len()
            &&& s.subrange(pos, end) == segment_text(seg)
            &&& seg is Index <==> s[pos] == '['
        },
{
    if 0 <= pos < s.len() && s[pos] == '(' {
        lemma_alternatives_sound(s, pos + 1, Seq::empty());
        if let Ok((alts, end)) = parse_alternatives(s, pos + 1, Seq::empty()) {
            assert(s.subrange(pos, end) =~= seq!['('] + s.subrange(pos + 1, end));
        }
    } else {
        lemma_leaf_sound(s, pos);
    }
}

/// The rest of a path that was read stands in the text as it is written.
pub proof fn lemma_rest_sound(s: Seq<char>, pos: int, acc: Seq<SegmentView>)
    requires
        parseable(acc),
        0 <= pos <= s.len(),
        path_text(acc) == s.subrange(0, pos),
    ensures
        parse_rest(s, pos, acc) matches Ok(p) ==> parseable(p) && path_text(p) == s,
    decreases s.len() - pos,
{
    if pos == s.len() {
        assert(s.subrange(0, pos) =~= s);
    } else if s[pos] == '[' {
        lemma_leaf_sound(s, pos);
        if let Ok((seg, end)) = parse_index(s, pos) {
            lemma_one_more(s, pos, acc, seg, end);
            lemma_rest_sound(s, end, acc.push(seg));
        }
    } else if s[pos] == '.' && !(pos + 1 < s.len() && s[pos + 1] == '[') {
        lemma_segment_sound(s, pos + 1);
        if let Ok((seg, end)) = parse_segment(s, pos + 1) {
            assert(s.subrange(pos, end) =~= dot() + s.subrange(pos + 1, end));
            lemma_one_more(s, pos, acc, seg, end);
            lemma_rest_sound(s, end, acc.push(seg));
        }
    }
}

/// A path that stands at the front of the text, with one more segment that
/// stands after it behind its separator, stands at the front of the text.
proof fn lemma_one_more(
    s: Seq<char>,
    pos: int,
    acc: Seq<SegmentView>,
    seg: SegmentView,
    end: int,
)
    requires
        parseable(acc),
        segment_ok(seg),
        0 <= pos <= end <= s.len(),
        path_text(acc) == s.subrange(0, pos),
        s.subrange(pos, end) == separator_before(seg) + segment_text(seg),
    ensures
        parseable(acc.push(seg)),
        path_text(acc.push(seg)) == s.subrange(0, end),
{
    let next = acc.push(seg);
    lemma_path_text_push(acc, seg);
    assert(path_text(next) =~= s.subrange(0, pos) + s.subrange(pos, end));
    assert(s.subrange(0, pos) + s.subrange(pos, end) =~= s.subrange(0, end));
    assert forall|i: int| 0 <= i < next.len() implies segment_ok(#[trigger] next[i]) by {
        if i < acc.len() {
            assert(next[i] == acc[i]);
        }
    }
}

/// A path that was read stands in the text as it is written.
pub proof fn lemma_path_sound(s: Seq<char>)
    ensures
        parse_path(s) matches Ok(p) ==> parseable(p) && path_text(p) == s,
{
    reveal(parse_path);
    if s.len() > 0 {
        lemma_segment_sound(s, 0);
        if let Ok((seg, end)) = parse_segment(s, 0) {
            lemma_rest_sound(s, end, seq![seg]);
        }
    }
}

} // verus!
