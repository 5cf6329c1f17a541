//! The borrowed form of a segment.

use crate::error::LookupError;
use crate::model::{
    alternatives_text, branch_text, group_shape, lemma_alternatives_text_push,
    lemma_branch_text_push, segment_text, SegmentView,
};
use crate::segmentbuf::{alternatives_view, lemma_view_coalesce, path_view, SegmentBuf};
use crate::text::push_decimal;
use std::collections::VecDeque;
use vstd::prelude::*;
use vstd::std_specs::vecdeque::VecDequeAdditionalSpecFns;
use vstd::string::StringExecFns;

verus! {

/// One segment of a path whose names are borrowed from a text that lives
/// elsewhere.
#[derive(Debug)]
pub enum Segment<'a> {
    Field { name: &'a str, requires_quoting: bool },
    Index(usize),
    Coalesce(Vec<VecDeque<Segment<'a>>>),
}

/// The model of a borrowed segment.
pub open spec fn borrowed_view(s: Segment<'_>) -> SegmentView
    decreases s,
{
    match s {
        Segment::Field { name, requires_quoting } => SegmentView::Field {
            name: name@,
            requires_quoting,
        },
        Segment::Index(i) => SegmentView::Index(i as nat),
        Segment::Coalesce(v) => SegmentView::Coalesce(
            Seq::new(
                v.len() as nat,
                |i: int|
                    Seq::new(
                        if 0 <= i < v.len() {
                            v[i].len() as nat
                        } else {
                            0
                        },
                        |j: int|
                            if 0 <= i < v.len() && 0 <= j < v[i].len() {
                                borrowed_view(v[i][j])
                            } else {
                                SegmentView::Index(0)
                            },
                    ),
            ),
        ),
    }
}

impl<'a> View for Segment<'a> {
    type V = SegmentView;

    open spec fn view(&self) -> SegmentView {
        borrowed_view(*self)
    }
}

/// The model of a run of borrowed segments.
pub open spec fn borrowed_path_view(d: Seq<Segment<'_>>) -> Seq<SegmentView> {
    Seq::new(d.len(), |j: int| d[j]@)
}

/// The model of the alternatives of a borrowed group.
pub open spec fn borrowed_alternatives_view(v: Seq<VecDeque<Segment<'_>>>) -> Seq<
    Seq<SegmentView>,
> {
    Seq::new(v.len(), |i: int| borrowed_path_view(v[i]@))
}

/// The model of a borrowed group is the group of the models of its
/// alternatives.
pub proof fn lemma_borrowed_view_coalesce(v: Vec<VecDeque<Segment<'_>>>)
    ensures
        Segment::Coalesce(v)@ == SegmentView::Coalesce(borrowed_alternatives_view(v@)),
{
    let s = Segment::Coalesce(v);
    let alts = s@->Coalesce_0;
    assert forall|i: int| 0 <= i < v@.len() implies alts[i] == borrowed_path_view(v@[i]@) by {
        assert(alts[i] =~= borrowed_path_view(v@[i]@));
    }
    assert(alts =~= borrowed_alternatives_view(v@));
}

/// Puts the text of a run of borrowed segments, with dots between them, at
/// the end of `out`.
pub fn write_borrowed_branch(a: &VecDeque<Segment<'_>>, out: &mut String)
    ensures
        final(out)@ == old(out)@ + branch_text(borrowed_path_view(a@)),
    decreases a,
{
    let ghost b = borrowed_path_view(a@);
    let mut j: usize = 0;
    while j < a.len()
        invariant
            j <= a.len(),
            b == borrowed_path_view(a@),
            out@ == old(out)@ + branch_text(b.take(j as int)),
        decreases a.len() - j,
    {
        if j > 0 {
            out.push('.');
        }
        a[j].write_to(out);
        proof {
            lemma_branch_text_push(b.take(j as int), b[j as int]);
            assert(b.take(j + 1) =~= b.take(j as int).push(b[j as int]));
        }
        j += 1;
    }
    assert(b.take(a.len() as int) =~= b);
}

impl<'a> Segment<'a> {
    /// A field segment.
    pub fn field(name: &'a str, requires_quoting: bool) -> (s: Segment<'a>)
        ensures
            s@ == (SegmentView::Field { name: name@, requires_quoting }),
    {
        Segment::Field { name, requires_quoting }
    }

    /// Whether this is a field.
    pub fn is_field(&self) -> (r: bool)
        ensures
            r == (self@ is Field),
    {
        matches!(self, Segment::Field { .. })
    }

    /// An index segment.
    pub fn index(v: usize) -> (s: Segment<'a>)
        ensures
            s@ == SegmentView::Index(v as nat),
    {
        Segment::Index(v)
    }

    /// Whether this is an index.
    pub fn is_index(&self) -> (r: bool)
        ensures
            r == (self@ is Index),
    {
        matches!(self, Segment::Index(_))
    }

    /// A group of the alternatives `v`. Fewer than two alternatives, or an
    /// empty one, make no group.
    pub fn coalesce(v: Vec<VecDeque<Segment<'a>>>) -> (r: Result<Segment<'a>, LookupError>)
        ensures
            r is Ok <==> group_shape(borrowed_alternatives_view(v@)),
            r matches Ok(s) ==> s@ == SegmentView::Coalesce(borrowed_alternatives_view(v@)),
            r matches Err(e) ==> e == LookupError::InvalidStructure,
    {
        let ghost alts = borrowed_alternatives_view(v@);
        if v.len() < 2 {
            return Err(LookupError::InvalidStructure);
        }
        let mut i: usize = 0;
        while i < v.len()
            invariant
                i <= v.len(),
                alts == borrowed_alternatives_view(v@),
                forall|k: int| 0 <= k < i ==> (#[trigger] alts[k]).len() >= 1,
            decreases v.len() - i,
        {
            if v[i].len() == 0 {
                assert(alts[i as int].len() == 0);
                return Err(LookupError::InvalidStructure);
            }
            i += 1;
        }
        proof {
            lemma_borrowed_view_coalesce(v);
        }
        Ok(Segment::Coalesce(v))
    }

    /// Whether this is a group of alternatives.
    pub fn is_coalesce(&self) -> (r: bool)
        ensures
            r == (self@ is Coalesce),
    {
        matches!(self, Segment::Coalesce(_))
    }

    /// An owned copy of this segment.
    pub fn as_segment_buf(&self) -> (r: SegmentBuf)
        ensures
            r@ == self@,
        decreases self,
    {
        match self {
            Segment::Field { name, requires_quoting } => SegmentBuf::Field {
                name: (*name).to_owned(),
                requires_quoting: *requires_quoting,
            },
            Segment::Index(i) => SegmentBuf::Index(*i),
            Segment::Coalesce(v) => {
                let mut out: Vec<VecDeque<SegmentBuf>> = Vec::new();
                let mut i: usize = 0;
                while i < v.len()
                    invariant
                        i <= v.len(),
                        *self == Segment::Coalesce(*v),
                        out@.len() == i,
                        forall|k: int|
                            0 <= k < i ==> path_view(out@[k]@) == borrowed_path_view(v@[k]@),
                    decreases v.len() - i,
                {
                    let alt = &v[i];
                    let mut copy: VecDeque<SegmentBuf> = VecDeque::new();
                    let mut j: usize = 0;
                    while j < alt.len()
                        invariant
                            j <= alt.len(),
                            i < v.len(),
                            *self == Segment::Coalesce(*v),
                            *alt == v@[i as int],
                            copy@.len() == j,
                            forall|k: int| 0 <= k < j ==> copy@[k]@ == alt@[k]@,
                        decreases alt.len() - j,
                    {
                        assert(decreases_to!(*self => self->Coalesce_0));
                        let seg = alt[j].as_segment_buf();
                        copy.push_back(seg);
                        j += 1;
                    }
                    out.push(copy);
                    i += 1;
                }
                proof {
                    lemma_borrowed_view_coalesce(*v);
                    lemma_view_coalesce(out);
                    assert(alternatives_view(out@) =~= borrowed_alternatives_view(v@));
                }
                SegmentBuf::Coalesce(out)
            },
        }
    }

    /// Puts the text of this segment at the end of `out`.
    pub fn write_to(&self, out: &mut String)
        ensures
            final(out)@ == old(out)@ + segment_text(self@),
        decreases self,
    {
        match self {
            Segment::Field { name, requires_quoting } => {
                if *requires_quoting {
                    out.push('"');
                    out.append(*name);
                    out.push('"');
                } else {
                    out.append(*name);
                }
            },
            Segment::Index(i) => {
                out.push('[');
                push_decimal(out, *i);
                out.push(']');
            },
            Segment::Coalesce(v) => {
                let ghost alts = borrowed_alternatives_view(v@);
                proof {
                    lemma_borrowed_view_coalesce(*v);
                }
                out.push('(');
                let mut i: usize = 0;
                while i < v.len()
                    invariant
                        i <= v.len(),
                        *self == Segment::Coalesce(*v),
                        alts == borrowed_alternatives_view(v@),
                        out@ == old(out)@ + seq!['('] + alternatives_text(alts.take(i as int)),
                    decreases v.len() - i,
                {
                    if i > 0 {
                        out.push(' ');
                        out.push('|');
                        out.push(' ');
                    }
                    assert(decreases_to!(*self => self->Coalesce_0));
                    write_borrowed_branch(&v[i], out);
                    proof {
                        lemma_alternatives_text_push(alts.take(i as int), alts[i as int]);
                        assert(alts.take(i + 1) =~= alts.take(i as int).push(alts[i as int]));
                    }
                    i += 1;
                }
                out.push(')');
                proof {
                    assert(alts.take(v.len() as int) =~= alts);
                }
            },
        }
    }

    /// The text of this segment.
    pub fn to_string(&self) -> (s: String)
        ensures
            s@ == segment_text(self@),
    {
        let mut s = String::new();
        self.write_to(&mut s);
        s
    }
}

} // verus!
