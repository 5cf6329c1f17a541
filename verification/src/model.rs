//! The mathematical model of a path, and the text that stands for it.

use vstd::prelude::*;

verus! {

/// What one segment of a path is, apart from how it is stored.
pub enum SegmentView {
    /// A field name. `requires_quoting` says whether the name is written
    /// between double quotes.
    Field { name: Seq<char>, requires_quoting: bool },
    /// A position in an array.
    Index(nat),
    /// A group of alternative sub-paths, tried in order.
    Coalesce(Seq<Seq<SegmentView>>),
}

/// Whether a list of alternatives can make a group: two or more, none empty.
pub open spec fn group_shape(alts: Seq<Seq<SegmentView>>) -> bool {
    &&& alts.len() >= 2
    &&& forall|i: int| 0 <= i < alts.len() ==> (#[trigger] alts[i]).len() >= 1
}

/// The segment that a name stands for when it is taken as it is, without
/// being parsed: one field. A name that begins with a double quote is taken
/// to be written with its quotes, and loses its first and its last
/// character.
pub open spec fn literal_segment(name: Seq<char>) -> SegmentView {
    if name.len() > 0 && name[0] == '"' {
        SegmentView::Field {
            name: name.subrange(
                1,
                if name.len() >= 2 {
                    name.len() - 1
                } else {
                    1
                },
            ),
            requires_quoting: true,
        }
    } else {
        SegmentView::Field { name, requires_quoting: false }
    }
}

/// A group holds two or more alternatives and none of them is empty, at
/// every depth.
pub open spec fn segment_wf(s: SegmentView) -> bool
    decreases s,
{
    match s {
        SegmentView::Coalesce(alts) => {
            &&& group_shape(alts)
            &&& forall|i: int, j: int|
                0 <= i < alts.len() && 0 <= j < alts[i].len() ==> segment_wf(
                    #[trigger] alts[i][j],
                )
        },
        _ => true,
    }
}

/// A path is well formed when it has a segment and every segment is.
pub open spec fn path_wf(p: Seq<SegmentView>) -> bool {
    &&& p.len() >= 1
    &&& forall|i: int| 0 <= i < p.len() ==> segment_wf(#[trigger] p[i])
}

/// The character of one decimal digit.
pub open spec fn digit_char(d: nat) -> char {
    if d == 0 {
        '0'
    } else if d == 1 {
        '1'
    } else if d == 2 {
        '2'
    } else if d == 3 {
        '3'
    } else if d == 4 {
        '4'
    } else if d == 5 {
        '5'
    } else if d == 6 {
        '6'
    } else if d == 7 {
        '7'
    } else if d == 8 {
        '8'
    } else {
        '9'
    }
}

/// The decimal digits of `n`, most significant first, without leading zeros.
pub open spec fn decimal(n: nat) -> Seq<char>
    decreases n,
{
    if n < 10 {
        seq![digit_char(n)]
    } else {
        decimal(n / 10).push(digit_char(n % 10))
    }
}

/// What stands between two segments of one alternative.
pub open spec fn dot() -> Seq<char> {
    seq!['.']
}

/// What stands between two alternatives of a group.
pub open spec fn bar() -> Seq<char> {
    seq![' ', '|', ' ']
}

/// The text of one segment: a field is its name, between double quotes if it
/// requires quoting; an index is its digits between square brackets; a group
/// is its alternatives between round brackets.
pub open spec fn segment_text(s: SegmentView) -> Seq<char>
    decreases s,
{
    match s {
        SegmentView::Field { name, requires_quoting } => if requires_quoting {
            seq!['"'] + name + seq!['"']
        } else {
            name
        },
        SegmentView::Index(n) => seq!['['] + decimal(n) + seq![']'],
        SegmentView::Coalesce(alts) => seq!['('] + alternatives_text(alts) + seq![')'],
    }
}

/// The text of one alternative of a group: its segments with a dot between
/// each two.
pub open spec fn branch_text(b: Seq<SegmentView>) -> Seq<char>
    decreases b,
{
    if b.len() == 0 {
        Seq::empty()
    } else if b.len() == 1 {
        segment_text(b[0])
    } else {
        branch_text(b.drop_last()) + dot() + segment_text(b.last())
    }
}

/// The text between the brackets of a group: its alternatives with ` | `
/// between each two.
pub open spec fn alternatives_text(alts: Seq<Seq<SegmentView>>) -> Seq<char>
    decreases alts,
{
    if alts.len() == 0 {
        Seq::empty()
    } else if alts.len() == 1 {
        branch_text(alts[0])
    } else {
        alternatives_text(alts.drop_last()) + bar() + branch_text(alts.last())
    }
}

/// What is written before a segment that is not the first of its path: a dot
/// before a field or a group, nothing before an index.
pub open spec fn separator_before(s: SegmentView) -> Seq<char> {
    if s is Index {
        Seq::empty()
    } else {
        dot()
    }
}

/// The text of a path: its segments from left to right, each but the first
/// with its separator before it.
pub open spec fn path_text(p: Seq<SegmentView>) -> Seq<char>
    decreases p.len(),
{
    if p.len() == 0 {
        Seq::empty()
    } else if p.len() == 1 {
        segment_text(p[0])
    } else {
        path_text(p.drop_last()) + separator_before(p.last()) + segment_text(p.last())
    }
}

/// The text of an alternative with one more segment at its end.
pub proof fn lemma_branch_text_push(b: Seq<SegmentView>, s: SegmentView)
    ensures
        branch_text(b.push(s)) == if b.len() == 0 {
            segment_text(s)
        } else {
            branch_text(b) + dot() + segment_text(s)
        },
{
    assert(b.push(s).drop_last() =~= b);
}

/// The text of a list of alternatives with one more at its end.
pub proof fn lemma_alternatives_text_push(alts: Seq<Seq<SegmentView>>, b: Seq<SegmentView>)
    ensures
        alternatives_text(alts.push(b)) == if alts.len() == 0 {
            branch_text(b)
        } else {
            alternatives_text(alts) + bar() + branch_text(b)
        },
{
    assert(alts.push(b).drop_last() =~= alts);
}

/// The text of a path with one more segment at its end.
pub proof fn lemma_path_text_push(p: Seq<SegmentView>, s: SegmentView)
    ensures
        path_text(p.push(s)) == if p.len() == 0 {
            segment_text(s)
        } else {
            path_text(p) + separator_before(s) + segment_text(s)
        },
{
    assert(p.push(s).drop_last() =~= p);
}

/// Well-formed paths put together make a well-formed path.
pub proof fn lemma_wf_concat(a: Seq<SegmentView>, b: Seq<SegmentView>)
    requires
        a.len() + b.len() >= 1,
        forall|i: int| 0 <= i < a.len() ==> segment_wf(#[trigger] a[i]),
        forall|i: int| 0 <= i < b.len() ==> segment_wf(#[trigger] b[i]),
    ensures
        path_wf(a + b),
{
    let whole = a + b;
    assert forall|i: int| 0 <= i < whole.len() implies segment_wf(#[trigger] whole[i]) by {
        if i < a.len() {
            assert(whole[i] == a[i]);
        } else {
            assert(whole[i] == b[i - a.len()]);
        }
    }
}

} // verus!
