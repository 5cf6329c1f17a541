//! What is written as the grammar asks, the grammar reads back: the text of
//! a path that a text can stand for is read as that path.

use crate::digits::lemma_digits_of_decimal;
use crate::error::LookupError;
use crate::grammar::{
    bare_end, branch_ok, digits_end, is_delimiter, is_digit, leaf_ok, parse_alternatives,
    parse_branch, parse_leaf, parse_path, parse_rest, parse_segment, parseable, quote_end,
    segment_ok,
};
use crate::model::{
    alternatives_text, bar, branch_text, decimal, dot, lemma_alternatives_text_push,
    lemma_branch_text_push, lemma_path_text_push, path_text, segment_text, separator_before,
    SegmentView,
};
use crate::soundness::{alternatives_so_far, branch_so_far};
use vstd::prelude::*;

verus! {

/// `t` stands in `s` at `pos`.
pub open spec fn occurs_at(s: Seq<char>, pos: int, t: Seq<char>) -> bool {
    &&& 0 <= pos
    &&& pos + t.len() <= s.len()
    &&& s.subrange(pos, pos + t.len()) == t
}

/// After `end` the text is over, or a delimiter stands there.
pub open spec fn ends_at(s: Seq<char>, end: int) -> bool {
    end == s.len() || (0 <= end < s.len() && is_delimiter(s[end]))
}

/// Where two texts stand one after the other, each of them stands.
pub proof fn lemma_occurs_split(s: Seq<char>, pos: int, a: Seq<char>, b: Seq<char>)
    requires
        occurs_at(s, pos, a + b),
    ensures
        occurs_at(s, pos, a),
        occurs_at(s, pos + a.len(), b),
{
    let t = a + b;
    assert(s.subrange(pos, pos + a.len()) =~= t.subrange(0, a.len() as int));
    assert(t.subrange(0, a.len() as int) =~= a);
    assert(s.subrange(pos + a.len(), pos + a.len() + b.len()) =~= t.subrange(
        a.len() as int,
        t.len() as int,
    ));
    assert(t.subrange(a.len() as int, t.len() as int) =~= b);
}

/// What stands in a text that stands in `s`, stands in `s`.
pub proof fn lemma_occurs_within(s: Seq<char>, pos: int, t: Seq<char>, off: int, u: Seq<char>)
    requires
        occurs_at(s, pos, t),
        occurs_at(t, off, u),
    ensures
        occurs_at(s, pos + off, u),
{
    assert(s.subrange(pos + off, pos + off + u.len()) =~= t.subrange(off, off + u.len()));
}

/// A character of a text that stands in `s`.
pub proof fn lemma_occurs_char(s: Seq<char>, pos: int, t: Seq<char>, i: int)
    requires
        occurs_at(s, pos, t),
        0 <= i < t.len(),
    ensures
        s[pos + i] == t[i],
{
}

/// A run of characters that are no delimiters, with a delimiter or the end
/// of the text after it, is the run that is scanned.
pub proof fn lemma_bare_end_is(s: Seq<char>, pos: int, end: int)
    requires
        0 <= pos <= end <= s.len(),
        forall|i: int| pos <= i < end ==> !is_delimiter(#[trigger] s[i]),
        end == s.len() || is_delimiter(s[end]),
    ensures
        bare_end(s, pos) == end,
    decreases end - pos,
{
    if pos < end {
        lemma_bare_end_is(s, pos + 1, end);
    }
}

/// A run without double quotes, with one after it, is the run that is
/// scanned.
pub proof fn lemma_quote_end_is(s: Seq<char>, pos: int, end: int)
    requires
        0 <= pos <= end < s.len(),
        forall|i: int| pos <= i < end ==> #[trigger] s[i] != '"',
        s[end] == '"',
    ensures
        quote_end(s, pos) == end,
    decreases end - pos,
{
    if pos < end {
        lemma_quote_end_is(s, pos + 1, end);
    }
}

/// A run of digits, with another character after it, is the run that is
/// scanned.
pub proof fn lemma_digits_end_is(s: Seq<char>, pos: int, end: int)
    requires
        0 <= pos <= end < s.len(),
        forall|i: int| pos <= i < end ==> is_digit(#[trigger] s[i]),
        !is_digit(s[end]),
    ensures
        digits_end(s, pos) == end,
    decreases end - pos,
{
    if pos < end {
        lemma_digits_end_is(s, pos + 1, end);
    }
}

/// The text of a segment is not empty, and its first character tells an
/// index and a group from a field.
pub proof fn lemma_text_begins(seg: SegmentView)
    requires
        segment_ok(seg),
    ensures
        segment_text(seg).len() >= 1,
        segment_text(seg)[0] == '[' <==> seg is Index,
        segment_text(seg)[0] == '(' <==> seg is Coalesce,
        segment_text(seg)[0] != '.',
{
}

/// A field or index that is written in the text with a delimiter or the end
/// after it is read as it is.
pub proof fn lemma_leaf_complete(s: Seq<char>, pos: int, seg: SegmentView)
    requires
        leaf_ok(seg),
        occurs_at(s, pos, segment_text(seg)),
        ends_at(s, pos + segment_text(seg).len()),
    ensures
        parse_leaf(s, pos) == Ok::<(SegmentView, int), LookupError>(
            (seg, pos + segment_text(seg).len()),
        ),
{
    let t = segment_text(seg);
    let end = pos + t.len();
    lemma_text_begins(seg);
    lemma_occurs_char(s, pos, t, 0);
    match seg {
        SegmentView::Field { name, requires_quoting } => {
            if requires_quoting {
                lemma_occurs_split(s, pos, seq!['"'] + name, seq!['"']);
                lemma_occurs_split(s, pos, seq!['"'], name);
                let stop = pos + 1 + name.len();
                lemma_occurs_char(s, stop, seq!['"'], 0);
                assert forall|i: int| pos + 1 <= i < stop implies #[trigger] s[i] != '"' by {
                    lemma_occurs_char(s, pos + 1, name, i - pos - 1);
                }
                lemma_quote_end_is(s, pos + 1, stop);
            } else {
                assert forall|i: int| pos <= i < end implies !is_delimiter(#[trigger] s[i]) by {
                    lemma_occurs_char(s, pos, name, i - pos);
                }
                lemma_bare_end_is(s, pos, end);
            }
        },
        SegmentView::Index(n) => {
            let d = decimal(n);
            lemma_digits_of_decimal(n);
            lemma_occurs_split(s, pos, seq!['['] + d, seq![']']);
            lemma_occurs_split(s, pos, seq!['['], d);
            let stop = pos + 1 + d.len();
            lemma_occurs_char(s, stop, seq![']'], 0);
            assert forall|i: int| pos + 1 <= i < stop implies is_digit(#[trigger] s[i]) by {
                lemma_occurs_char(s, pos + 1, d, i - pos - 1);
            }
            lemma_digits_end_is(s, pos + 1, stop);
            lemma_occurs_char(s, pos + 1, d, 0);
        },
        SegmentView::Coalesce(alts) => {},
    }
}

/// The text of an alternative begins with the text of its first segments.
pub proof fn lemma_branch_prefix(b: Seq<SegmentView>, j: int)
    requires
        1 <= j <= b.len(),
    ensures
        occurs_at(branch_text(b), 0, branch_text(b.take(j))),
    decreases b.len() - j,
{
    if j == b.len() {
        assert(b.take(j) =~= b);
        assert(branch_text(b).subrange(0, branch_text(b).len() as int) =~= branch_text(b));
    } else {
        lemma_branch_prefix(b, j + 1);
        assert(b.take(j + 1) =~= b.take(j).push(b[j]));
        lemma_branch_text_push(b.take(j), b[j]);
        assert(branch_text(b.take(j)) + (dot() + segment_text(b[j])) =~= branch_text(
            b.take(j + 1),
        ));
        lemma_occurs_split(
            branch_text(b),
            0,
            branch_text(b.take(j)),
            dot() + segment_text(b[j]),
        );
    }
}

/// The text of a list of alternatives begins with the text of its first
/// alternatives.
pub proof fn lemma_alternatives_prefix(alts: Seq<Seq<SegmentView>>, j: int)
    requires
        1 <= j <= alts.len(),
    ensures
        occurs_at(alternatives_text(alts), 0, alternatives_text(alts.take(j))),
    decreases alts.len() - j,
{
    let whole = alternatives_text(alts);
    if j == alts.len() {
        assert(alts.take(j) =~= alts);
        assert(whole.subrange(0, whole.len() as int) =~= whole);
    } else {
        lemma_alternatives_prefix(alts, j + 1);
        assert(alts.take(j + 1) =~= alts.take(j).push(alts[j]));
        lemma_alternatives_text_push(alts.take(j), alts[j]);
        assert(alternatives_text(alts.take(j)) + (bar() + branch_text(alts[j]))
            =~= alternatives_text(alts.take(j + 1)));
        lemma_occurs_split(
            whole,
            0,
            alternatives_text(alts.take(j)),
            bar() + branch_text(alts[j]),
        );
    }
}

/// The text of a path begins with the text of its first segments.
pub proof fn lemma_path_prefix(p: Seq<SegmentView>, j: int)
    requires
        1 <= j <= p.len(),
    ensures
        occurs_at(path_text(p), 0, path_text(p.take(j))),
    decreases p.len() - j,
{
    let whole = path_text(p);
    if j == p.len() {
        assert(p.take(j) =~= p);
        assert(whole.subrange(0, whole.len() as int) =~= whole);
    } else {
        lemma_path_prefix(p, j + 1);
        assert(p.take(j + 1) =~= p.take(j).push(p[j]));
        lemma_path_text_push(p.take(j), p[j]);
        assert(path_text(p.take(j)) + (separator_before(p[j]) + segment_text(p[j]))
            =~= path_text(p.take(j + 1)));
        lemma_occurs_split(
            whole,
            0,
            path_text(p.take(j)),
            separator_before(p[j]) + segment_text(p[j]),
        );
    }
}

/// An alternative that is written in the text, with the end of the text or
/// a delimiter other than a dot after it, is read as it is.
pub proof fn lemma_branch_complete(
    s: Seq<char>,
    start: int,
    b: Seq<SegmentView>,
    k: int,
    pos: int,
)
    requires
        branch_ok(b),
        0 <= k < b.len(),
        occurs_at(s, start, branch_text(b)),
        ends_at(s, start + branch_text(b).len()),
        start + branch_text(b).len() < s.len() ==> s[start + branch_text(b).len()] != '.',
        pos == start + branch_so_far(b.take(k)).len(),
    ensures
        parse_branch(s, pos, b.take(k)) == Ok::<(Seq<SegmentView>, int), LookupError>(
            (b, start + branch_text(b).len()),
        ),
    decreases b.len() - k,
{
    let whole = branch_text(b);
    let acc = b.take(k);
    let seg = b[k];
    let next = b.take(k + 1);
    assert(next =~= acc.push(seg));
    lemma_branch_text_push(acc, seg);
    lemma_branch_prefix(b, k + 1);
    lemma_occurs_within(s, start, whole, 0, branch_text(next));
    lemma_occurs_split(s, start, branch_so_far(acc), segment_text(seg));
    let stop = start + branch_text(next).len();
    if k + 1 < b.len() {
        let after = b.take(k + 2);
        assert(after =~= next.push(b[k + 1]));
        lemma_branch_text_push(next, b[k + 1]);
        lemma_branch_prefix(b, k + 2);
        lemma_occurs_within(s, start, whole, 0, branch_text(after));
        assert(branch_text(after) =~= branch_text(next) + (dot() + segment_text(b[k + 1])));
        lemma_occurs_split(s, start, branch_text(next), dot() + segment_text(b[k + 1]));
        lemma_occurs_char(s, stop, dot() + segment_text(b[k + 1]), 0);
        lemma_leaf_complete(s, pos, seg);
        lemma_branch_complete(s, start, b, k + 1, stop + 1);
    } else {
        assert(next =~= b);
        lemma_leaf_complete(s, pos, seg);
    }
}

/// The alternatives of a group that are written in the text with the
/// closing bracket after them are read as they are.
pub proof fn lemma_alternatives_complete(
    s: Seq<char>,
    start: int,
    alts: Seq<Seq<SegmentView>>,
    k: int,
    pos: int,
)
    requires
        alts.len() >= 2,
        forall|i: int| 0 <= i < alts.len() ==> branch_ok(#[trigger] alts[i]),
        0 <= k < alts.len(),
        occurs_at(s, start, alternatives_text(alts) + seq![')']),
        pos == start + alternatives_so_far(alts.take(k)).len(),
    ensures
        parse_alternatives(s, pos, alts.take(k)) == Ok::<
            (Seq<Seq<SegmentView>>, int),
            LookupError,
        >((alts, start + alternatives_text(alts).len() + 1)),
    decreases alts.len() - k,
{
    let whole = alternatives_text(alts);
    let acc = alts.take(k);
    let branch = alts[k];
    let next = alts.take(k + 1);
    assert(next =~= acc.push(branch));
    lemma_alternatives_text_push(acc, branch);
    lemma_occurs_split(s, start, whole, seq![')']);
    lemma_alternatives_prefix(alts, k + 1);
    lemma_occurs_within(s, start, whole, 0, alternatives_text(next));
    lemma_occurs_split(s, start, alternatives_so_far(acc), branch_text(branch));
    let stop = start + alternatives_text(next).len();
    assert(branch.take(0) =~= Seq::<SegmentView>::empty());
    if k + 1 < alts.len() {
        let after = alts.take(k + 2);
        assert(after =~= next.push(alts[k + 1]));
        lemma_alternatives_text_push(next, alts[k + 1]);
        lemma_alternatives_prefix(alts, k + 2);
        lemma_occurs_within(s, start, whole, 0, alternatives_text(after));
        assert(alternatives_text(after) =~= alternatives_text(next) + (bar() + branch_text(
            alts[k + 1],
        )));
        lemma_occurs_split(s, start, alternatives_text(next), bar() + branch_text(alts[k + 1]));
        lemma_occurs_split(s, stop, bar(), branch_text(alts[k + 1]));
        lemma_occurs_char(s, stop, bar(), 0);
        lemma_occurs_char(s, stop, bar(), 1);
        lemma_occurs_char(s, stop, bar(), 2);
        lemma_branch_complete(s, pos, branch, 0, pos);
        lemma_alternatives_complete(s, start, alts, k + 1, stop + 3);
    } else {
        assert(next =~= alts);
        lemma_occurs_char(s, stop, seq![')'], 0);
        lemma_branch_complete(s, pos, branch, 0, pos);
    }
}

/// A segment that is written in the text with a delimiter or the end after
/// it is read as it is.
pub proof fn lemma_segment_complete(s: Seq<char>, pos: int, seg: SegmentView)
    requires
        segment_ok(seg),
        occurs_at(s, pos, segment_text(seg)),
        ends_at(s, pos + segment_text(seg).len()),
    ensures
        parse_segment(s, pos) == Ok::<(SegmentView, int), LookupError>(
            (seg, pos + segment_text(seg).len()),
        ),
{
    let t = segment_text(seg);
    lemma_text_begins(seg);
    lemma_occurs_char(s, pos, t, 0);
    match seg {
        SegmentView::Coalesce(alts) => {
            let inner = alternatives_text(alts);
            assert(t =~= seq!['('] + (inner + seq![')']));
            lemma_occurs_split(s, pos, seq!['('], inner + seq![')']);
            assert(alts.take(0) =~= Seq::<Seq<SegmentView>>::empty());
            lemma_alternatives_complete(s, pos + 1, alts, 0, pos + 1);
        },
        _ => {
            lemma_leaf_complete(s, pos, seg);
        },
    }
}

/// After the first segments of a path in its text, the end of the text or a
/// delimiter stands.
pub proof fn lemma_path_follow(p: Seq<SegmentView>, k: int)
    requires
        parseable(p),
        1 <= k <= p.len(),
    ensures
        ends_at(path_text(p), path_text(p.take(k)).len() as int),
        k < p.len() ==> occurs_at(
            path_text(p),
            path_text(p.take(k)).len() as int,
            separator_before(p[k]) + segment_text(p[k]),
        ),
{
    let s = path_text(p);
    lemma_path_prefix(p, k);
    if k == p.len() {
        assert(p.take(k) =~= p);
    } else {
        let next = p.take(k + 1);
        assert(next =~= p.take(k).push(p[k]));
        lemma_path_text_push(p.take(k), p[k]);
        lemma_path_prefix(p, k + 1);
        let tail = separator_before(p[k]) + segment_text(p[k]);
        assert(path_text(next) =~= path_text(p.take(k)) + tail);
        lemma_occurs_split(s, 0, path_text(p.take(k)), tail);
        lemma_text_begins(p[k]);
        lemma_occurs_char(s, path_text(p.take(k)).len() as int, tail, 0);
    }
}

/// The rest of a path that is written in the text is read as it is.
pub proof fn lemma_rest_complete(p: Seq<SegmentView>, k: int)
    requires
        parseable(p),
        1 <= k <= p.len(),
    ensures
        parse_rest(path_text(p), path_text(p.take(k)).len() as int, p.take(k)) == Ok::<
            Seq<SegmentView>,
            LookupError,
        >(p),
    decreases p.len() - k,
{
    let s = path_text(p);
    let acc = p.take(k);
    let pos = path_text(acc).len() as int;
    lemma_path_prefix(p, k);
    if k == p.len() {
        assert(acc =~= p);
    } else {
        let seg = p[k];
        let next = p.take(k + 1);
        assert(next =~= acc.push(seg));
        lemma_path_text_push(acc, seg);
        lemma_path_follow(p, k);
        lemma_path_follow(p, k + 1);
        lemma_text_begins(seg);
        let t = segment_text(seg);
        lemma_occurs_split(s, pos, separator_before(seg), t);
        if seg is Index {
            lemma_occurs_char(s, pos, t, 0);
            lemma_leaf_complete(s, pos, seg);
        } else {
            lemma_occurs_char(s, pos, dot(), 0);
            lemma_occurs_char(s, pos + 1, t, 0);
            lemma_segment_complete(s, pos + 1, seg);
        }
        lemma_rest_complete(p, k + 1);
    }
}

/// The text of a path that a text can stand for is read as that path.
pub proof fn lemma_path_complete(p: Seq<SegmentView>)
    requires
        parseable(p),
    ensures
        parse_path(path_text(p)) == Ok::<Seq<SegmentView>, LookupError>(p),
{
    reveal(parse_path);
    let s = path_text(p);
    let first = p.take(1);
    assert(first =~= seq![p[0]]);
    lemma_path_prefix(p, 1);
    lemma_path_follow(p, 1);
    lemma_text_begins(p[0]);
    lemma_segment_complete(s, 0, p[0]);
    lemma_rest_complete(p, 1);
}

} // verus!
