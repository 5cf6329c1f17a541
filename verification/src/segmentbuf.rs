//! The owned form of a segment.

use crate::error::LookupError;
use crate::model::{
    alternatives_text, branch_text, group_shape, lemma_alternatives_text_push,
    lemma_branch_text_push, literal_segment, segment_text, segment_wf, SegmentView,
};
use crate::segment::{
    borrowed_alternatives_view, borrowed_path_view, lemma_borrowed_view_coalesce, Segment,
};
use crate::text::{chars_of, push_decimal, string_of};
use std::collections::VecDeque;
use vstd::prelude::*;
use vstd::std_specs::vecdeque::VecDequeAdditionalSpecFns;
use vstd::string::StringExecFns;

verus! {

/// One segment of a path, owning its text.
///
/// A `Coalesce` built by [`SegmentBuf::coalesce`] or read from a text has two
/// or more alternatives, none of them empty. Two segments are equal when
/// they are of the same kind and hold the same name and quoting, the same
/// index, or the same alternatives in the same order.
#[derive(Debug, Eq, PartialOrd, Ord, Hash)]
pub enum SegmentBuf {
    Field { name: String, requires_quoting: bool },
    Index(usize),
    Coalesce(Vec<VecDeque<SegmentBuf>>),
}

/// The model of an owned segment.
pub open spec fn segment_view(s: SegmentBuf) -> SegmentView
    decreases s,
{
    match s {
        SegmentBuf::Field { name, requires_quoting } => SegmentView::Field {
            name: name@,
            requires_quoting,
        },
        SegmentBuf::Index(i) => SegmentView::Index(i as nat),
        SegmentBuf::Coalesce(v) => SegmentView::Coalesce(
            Seq::new(
                v.len() as nat,
                |i: int|
                    Seq::new(
                        if 0 <= i < v.len() {
                            v[i].len() as nat
                        } else {
                            0
                        },
                        |j: int|
                            if 0 <= i < v.len() && 0 <= j < v[i].len() {
                                segment_view(v[i][j])
                            } else {
                                SegmentView::Index(0)
                            },
                    ),
            ),
        ),
    }
}

impl View for SegmentBuf {
    type V = SegmentView;

    open spec fn view(&self) -> SegmentView {
        segment_view(*self)
    }
}

/// The model of a run of owned segments.
pub open spec fn path_view(d: Seq<SegmentBuf>) -> Seq<SegmentView> {
    Seq::new(d.len(), |j: int| d[j]@)
}

/// The model of the alternatives of an owned group.
pub open spec fn alternatives_view(v: Seq<VecDeque<SegmentBuf>>) -> Seq<Seq<SegmentView>> {
    Seq::new(v.len(), |i: int| path_view(v[i]@))
}

/// The model of an owned group is the group of the models of its
/// alternatives.
pub proof fn lemma_view_coalesce(v: Vec<VecDeque<SegmentBuf>>)
    ensures
        SegmentBuf::Coalesce(v)@ == SegmentView::Coalesce(alternatives_view(v@)),
{
    let s = SegmentBuf::Coalesce(v);
    let alts = s@->Coalesce_0;
    assert forall|i: int| 0 <= i < v@.len() implies alts[i] == path_view(v@[i]@) by {
        assert(alts[i] =~= path_view(v@[i]@));
    }
    assert(alts =~= alternatives_view(v@));
}

/// Whether two runs of segments have the same model.
pub fn deque_eq(a: &VecDeque<SegmentBuf>, b: &VecDeque<SegmentBuf>) -> (r: bool)
    ensures
        r == (path_view(a@) == path_view(b@)),
    decreases a,
{
    if a.len() != b.len() {
        assert(path_view(a@).len() != path_view(b@).len());
        return false;
    }
    let mut j: usize = 0;
    while j < a.len()
        invariant
            j <= a.len() == b.len(),
            forall|k: int| 0 <= k < j ==> a@[k]@ == b@[k]@,
        decreases a.len() - j,
    {
        if !segment_eq(&a[j], &b[j]) {
            assert(path_view(a@)[j as int] != path_view(b@)[j as int]);
            return false;
        }
        j += 1;
    }
    assert(path_view(a@) =~= path_view(b@));
    true
}

/// Whether two segments have the same model: the same kind, and the same
/// name and quoting, the same index, or the same alternatives in order.
pub fn segment_eq(a: &SegmentBuf, b: &SegmentBuf) -> (r: bool)
    ensures
        r == (a@ == b@),
    decreases a,
{
    match (a, b) {
        (
            SegmentBuf::Field { name: n1, requires_quoting: q1 },
            SegmentBuf::Field { name: n2, requires_quoting: q2 },
        ) => *n1 == *n2 && *q1 == *q2,
        (SegmentBuf::Index(i), SegmentBuf::Index(j)) => *i == *j,
        (SegmentBuf::Coalesce(v1), SegmentBuf::Coalesce(v2)) => {
            proof {
                lemma_view_coalesce(*v1);
                lemma_view_coalesce(*v2);
            }
            if v1.len() != v2.len() {
                assert(alternatives_view(v1@).len() != alternatives_view(v2@).len());
                return false;
            }
            let mut i: usize = 0;
            while i < v1.len()
                invariant
                    i <= v1.len() == v2.len(),
                    *a == SegmentBuf::Coalesce(*v1),
                    a@ == SegmentView::Coalesce(alternatives_view(v1@)),
                    b@ == SegmentView::Coalesce(alternatives_view(v2@)),
                    forall|k: int| 0 <= k < i ==> path_view(v1@[k]@) == path_view(v2@[k]@),
                decreases v1.len() - i,
            {
                if !deque_eq(&v1[i], &v2[i]) {
                    assert(alternatives_view(v1@)[i as int] != alternatives_view(v2@)[i as int]);
                    return false;
                }
                i += 1;
            }
            assert(alternatives_view(v1@) =~= alternatives_view(v2@));
            true
        },
        _ => false,
    }
}

/// A copy of a run of segments, with the same model.
pub fn deque_clone(a: &VecDeque<SegmentBuf>) -> (r: VecDeque<SegmentBuf>)
    ensures
        path_view(r@) == path_view(a@),
    decreases a,
{
    let mut copy: VecDeque<SegmentBuf> = VecDeque::new();
    let mut j: usize = 0;
    while j < a.len()
        invariant
            j <= a.len(),
            copy@.len() == j,
            forall|k: int| 0 <= k < j ==> copy@[k]@ == a@[k]@,
        decreases a.len() - j,
    {
        let seg = segment_clone(&a[j]);
        copy.push_back(seg);
        j += 1;
    }
    copy
}

/// A copy of a segment, with the same model.
pub fn segment_clone(a: &SegmentBuf) -> (r: SegmentBuf)
    ensures
        r@ == a@,
    decreases a,
{
    match a {
        SegmentBuf::Field { name, requires_quoting } => SegmentBuf::Field {
            name: name.clone(),
            requires_quoting: *requires_quoting,
        },
        SegmentBuf::Index(i) => SegmentBuf::Index(*i),
        SegmentBuf::Coalesce(v) => {
            let mut out: Vec<VecDeque<SegmentBuf>> = Vec::new();
            let mut i: usize = 0;
            while i < v.len()
                invariant
                    i <= v.len(),
                    *a == SegmentBuf::Coalesce(*v),
                    out@.len() == i,
                    forall|k: int| 0 <= k < i ==> path_view(out@[k]@) == path_view(v@[k]@),
                decreases v.len() - i,
            {
                assert(decreases_to!(*a => a->Coalesce_0));
                let copy = deque_clone(&v[i]);
                out.push(copy);
                i += 1;
            }
            proof {
                lemma_view_coalesce(*v);
                lemma_view_coalesce(out);
                assert(alternatives_view(out@) =~= alternatives_view(v@));
            }
            SegmentBuf::Coalesce(out)
        },
    }
}

impl Clone for SegmentBuf {
    /// A copy that shares nothing with this segment and says the same.
    fn clone(&self) -> (r: Self)
        ensures
            r@ == self@,
    {
        segment_clone(self)
    }
}

/// A borrowed view of a run of segments, with the same model.
pub fn deque_as_segments<'a>(a: &'a VecDeque<SegmentBuf>) -> (r: VecDeque<Segment<'a>>)
    ensures
        borrowed_path_view(r@) == path_view(a@),
    decreases a,
{
    let mut out: VecDeque<Segment<'a>> = VecDeque::new();
    let mut j: usize = 0;
    while j < a.len()
        invariant
            j <= a.len(),
            out@.len() == j,
            forall|k: int| 0 <= k < j ==> out@[k]@ == a@[k]@,
        decreases a.len() - j,
    {
        let seg = a[j].as_segment();
        out.push_back(seg);
        j += 1;
    }
    out
}

/// Puts the text of a run of segments, with dots between them, at the end
/// of `out`.
pub fn write_branch(a: &VecDeque<SegmentBuf>, out: &mut String)
    ensures
        final(out)@ == old(out)@ + branch_text(path_view(a@)),
    decreases a,
{
    let ghost b = path_view(a@);
    let mut j: usize = 0;
    while j < a.len()
        invariant
            j <= a.len(),
            b == path_view(a@),
            out@ == old(out)@ + branch_text(b.take(j as int)),
        decreases a.len() - j,
    {
        if j > 0 {
            out.push('.');
        }
        a[j].write_to(out);
        proof {
            lemma_branch_text_push(b.take(j as int), b[j as int]);
            assert(b.take(j + 1) =~= b.take(j as int).push(b[j as int]));
        }
        j += 1;
    }
    assert(b.take(a.len() as int) =~= b);
}

impl SegmentBuf {
    /// A field segment.
    pub fn field(name: String, requires_quoting: bool) -> (s: SegmentBuf)
        ensures
            s@ == (SegmentView::Field { name: name@, requires_quoting }),
    {
        SegmentBuf::Field { name, requires_quoting }
    }

    /// Whether this is a field.
    pub fn is_field(&self) -> (r: bool)
        ensures
            r == (self@ is Field),
    {
        matches!(self, SegmentBuf::Field { .. })
    }

    /// An index segment.
    pub fn index(v: usize) -> (s: SegmentBuf)
        ensures
            s@ == SegmentView::Index(v as nat),
    {
        SegmentBuf::Index(v)
    }

    /// Whether this is an index.
    pub fn is_index(&self) -> (r: bool)
        ensures
            r == (self@ is Index),
    {
        matches!(self, SegmentBuf::Index(_))
    }

    /// A group of the alternatives `v`. Fewer than two alternatives, or an
    /// empty one, make no group.
    pub fn coalesce(v: Vec<VecDeque<SegmentBuf>>) -> (r: Result<SegmentBuf, LookupError>)
        ensures
            r is Ok <==> group_shape(alternatives_view(v@)),
            r matches Ok(s) ==> s == SegmentBuf::Coalesce(v) && s@ == SegmentView::Coalesce(
                alternatives_view(v@),
            ),
            r matches Err(e) ==> e == LookupError::InvalidStructure,
    {
        let ghost alts = alternatives_view(v@);
        if v.len() < 2 {
            return Err(LookupError::InvalidStructure);
        }
        let mut i: usize = 0;
        while i < v.len()
            invariant
                i <= v.len(),
                alts == alternatives_view(v@),
                forall|k: int| 0 <= k < i ==> (#[trigger] alts[k]).len() >= 1,
            decreases v.len() - i,
        {
            if v[i].len() == 0 {
                assert(alts[i as int].len() == 0);
                return Err(LookupError::InvalidStructure);
            }
            i += 1;
        }
        proof {
            lemma_view_coalesce(v);
        }
        Ok(SegmentBuf::Coalesce(v))
    }

    /// Whether this is a group of alternatives.
    pub fn is_coalesce(&self) -> (r: bool)
        ensures
            r == (self@ is Coalesce),
    {
        matches!(self, SegmentBuf::Coalesce(_))
    }

    /// The field that `name` stands for when it is taken as it is.
    pub fn from_name(name: &str) -> (s: SegmentBuf)
        ensures
            s@ == literal_segment(name@),
    {
        let chars = chars_of(name);
        if chars.len() > 0 && chars[0] == '"' {
            let end: usize = if chars.len() >= 2 {
                chars.len() - 1
            } else {
                1
            };
            SegmentBuf::Field { name: string_of(&chars, 1, end), requires_quoting: true }
        } else {
            SegmentBuf::Field { name: name.to_owned(), requires_quoting: false }
        }
    }

    /// A borrowed view of this segment.
    pub fn as_segment<'a>(&'a self) -> (r: Segment<'a>)
        ensures
            r@ == self@,
        decreases self,
    {
        match self {
            SegmentBuf::Field { name, requires_quoting } => Segment::Field {
                name: name.as_str(),
                requires_quoting: *requires_quoting,
            },
            SegmentBuf::Index(i) => Segment::Index(*i),
            SegmentBuf::Coalesce(v) => {
                let mut out: Vec<VecDeque<Segment<'a>>> = Vec::new();
                let mut i: usize = 0;
                while i < v.len()
                    invariant
                        i <= v.len(),
                        *self == SegmentBuf::Coalesce(*v),
                        out@.len() == i,
                        forall|k: int|
                            0 <= k < i ==> borrowed_path_view(out@[k]@) == path_view(v@[k]@),
                    decreases v.len() - i,
                {
                    assert(decreases_to!(*self => self->Coalesce_0));
                    let alt = deque_as_segments(&v[i]);
                    out.push(alt);
                    i += 1;
                }
                proof {
                    lemma_view_coalesce(*v);
                    lemma_borrowed_view_coalesce(out);
                    assert(borrowed_alternatives_view(out@) =~= alternatives_view(v@));
                }
                Segment::Coalesce(out)
            },
        }
    }

    /// Puts the text of this segment at the end of `out`.
    pub fn write_to(&self, out: &mut String)
        ensures
            final(out)@ == old(out)@ + segment_text(self@),
        decreases self,
    {
        match self {
            SegmentBuf::Field { name, requires_quoting } => {
                if *requires_quoting {
                    out.push('"');
                    out.append(name.as_str());
                    out.push('"');
                } else {
                    out.append(name.as_str());
                }
            },
            SegmentBuf::Index(i) => {
                out.push('[');
                push_decimal(out, *i);
                out.push(']');
            },
            SegmentBuf::Coalesce(v) => {
                let ghost alts = alternatives_view(v@);
                proof {
                    lemma_view_coalesce(*v);
                }
                out.push('(');
                let mut i: usize = 0;
                while i < v.len()
                    invariant
                        i <= v.len(),
                        *self == SegmentBuf::Coalesce(*v),
                        alts == alternatives_view(v@),
                        out@ == old(out)@ + seq!['('] + alternatives_text(alts.take(i as int)),
                    decreases v.len() - i,
                {
                    if i > 0 {
                        out.push(' ');
                        out.push('|');
                        out.push(' ');
                    }
                    assert(decreases_to!(*self => self->Coalesce_0));
                    write_branch(&v[i], out);
                    proof {
                        lemma_alternatives_text_push(alts.take(i as int), alts[i as int]);
                        assert(alts.take(i + 1) =~= alts.take(i as int).push(alts[i as int]));
                    }
                    i += 1;
                }
                out.push(')');
                proof {
                    assert(alts.take(v.len() as int) =~= alts);
                }
            },
        }
    }

    /// The text of this segment.
    pub fn to_string(&self) -> (s: String)
        ensures
            s@ == segment_text(self@),
    {
        let mut s = String::new();
        self.write_to(&mut s);
        s
    }
}

impl From<String> for SegmentBuf {
    /// The field that `name` stands for when it is taken as it is.
    fn from(name: String) -> (s: SegmentBuf)
        ensures
            s@ == literal_segment(name@),
    {
        SegmentBuf::from_name(name.as_str())
    }
}

impl vstd::std_specs::convert::FromSpecImpl<String> for SegmentBuf {
    /// What `from` gives is said by its own contract, over models: no
    /// formula names the owned value itself.
    open spec fn obeys_from_spec() -> bool {
        false
    }

    open spec fn from_spec(name: String) -> SegmentBuf {
        arbitrary()
    }
}

impl<'a> From<&'a str> for SegmentBuf {
    /// The field that `name` stands for when it is taken as it is.
    fn from(name: &'a str) -> (s: SegmentBuf)
        ensures
            s@ == literal_segment(name@),
    {
        SegmentBuf::from_name(name)
    }
}

impl<'a> vstd::std_specs::convert::FromSpecImpl<&'a str> for SegmentBuf {
    /// What `from` gives is said by its own contract, over models: no
    /// formula names the owned value itself.
    open spec fn obeys_from_spec() -> bool {
        false
    }

    open spec fn from_spec(name: &'a str) -> SegmentBuf {
        arbitrary()
    }
}

impl From<usize> for SegmentBuf {
    /// The index segment of `value`.
    fn from(value: usize) -> (s: SegmentBuf)
        ensures
            s@ == SegmentView::Index(value as nat),
    {
        SegmentBuf::Index(value)
    }
}

impl vstd::std_specs::convert::FromSpecImpl<usize> for SegmentBuf {
    open spec fn obeys_from_spec() -> bool {
        true
    }

    open spec fn from_spec(value: usize) -> SegmentBuf {
        SegmentBuf::Index(value)
    }
}

impl<'a> From<Segment<'a>> for SegmentBuf {
    /// An owned copy of `value`.
    fn from(value: Segment<'a>) -> (s: SegmentBuf)
        ensures
            s@ == value@,
    {
        value.as_segment_buf()
    }
}

impl<'a> vstd::std_specs::convert::FromSpecImpl<Segment<'a>> for SegmentBuf {
    /// What `from` gives is said by its own contract, over models: no
    /// formula names the owned value itself.
    open spec fn obeys_from_spec() -> bool {
        false
    }

    open spec fn from_spec(value: Segment<'a>) -> SegmentBuf {
        arbitrary()
    }
}

impl TryFrom<Vec<VecDeque<SegmentBuf>>> for SegmentBuf {
    type Error = LookupError;

    /// A group of the alternatives `value`, as [`SegmentBuf::coalesce`] makes
    /// it.
    fn try_from(value: Vec<VecDeque<SegmentBuf>>) -> (r: Result<SegmentBuf, LookupError>)
        ensures
            r is Ok <==> group_shape(alternatives_view(value@)),
            r matches Ok(s) ==> s == SegmentBuf::Coalesce(value) && s@ == SegmentView::Coalesce(
                alternatives_view(value@),
            ),
            r matches Err(e) ==> e == LookupError::InvalidStructure,
    {
        SegmentBuf::coalesce(value)
    }
}

impl vstd::std_specs::convert::TryFromSpecImpl<Vec<VecDeque<SegmentBuf>>> for SegmentBuf {
    open spec fn obeys_try_from_spec() -> bool {
        true
    }

    open spec fn try_from_spec(value: Vec<VecDeque<SegmentBuf>>) -> Result<
        SegmentBuf,
        LookupError,
    > {
        if group_shape(alternatives_view(value@)) {
            Ok(SegmentBuf::Coalesce(value))
        } else {
            Err(LookupError::InvalidStructure)
        }
    }
}

/// What can be put into a path as one segment: a segment, a name taken as it
/// is, or an index.
pub trait IntoSegmentBuf: Sized {
    /// The model of the segment that `self` becomes.
    spec fn becomes(self) -> SegmentView;

    /// The segment that `self` becomes.
    fn into_segment_buf(self) -> (s: SegmentBuf)
        ensures
            s@ == self.becomes(),
    ;
}

impl IntoSegmentBuf for SegmentBuf {
    open spec fn becomes(self) -> SegmentView {
        self@
    }

    fn into_segment_buf(self) -> (s: SegmentBuf) {
        self
    }
}

impl IntoSegmentBuf for String {
    open spec fn becomes(self) -> SegmentView {
        literal_segment(self@)
    }

    fn into_segment_buf(self) -> (s: SegmentBuf) {
        SegmentBuf::from_name(self.as_str())
    }
}

impl<'a> IntoSegmentBuf for &'a str {
    open spec fn becomes(self) -> SegmentView {
        literal_segment(self@)
    }

    fn into_segment_buf(self) -> (s: SegmentBuf) {
        SegmentBuf::from_name(self)
    }
}

impl IntoSegmentBuf for usize {
    open spec fn becomes(self) -> SegmentView {
        SegmentView::Index(self as nat)
    }

    fn into_segment_buf(self) -> (s: SegmentBuf) {
        SegmentBuf::Index(self)
    }
}

impl<'a> IntoSegmentBuf for Segment<'a> {
    open spec fn becomes(self) -> SegmentView {
        self@
    }

    fn into_segment_buf(self) -> (s: SegmentBuf) {
        self.as_segment_buf()
    }
}

/// Whether every group in a run of segments has two or more alternatives,
/// none of them empty.
pub fn deque_is_wf(a: &VecDeque<SegmentBuf>) -> (r: bool)
    ensures
        r == (forall|k: int| 0 <= k < a@.len() ==> segment_wf(#[trigger] a@[k]@)),
    decreases a,
{
    let mut j: usize = 0;
    while j < a.len()
        invariant
            j <= a.len(),
            forall|k: int| 0 <= k < j ==> segment_wf(#[trigger] a@[k]@),
        decreases a.len() - j,
    {
        if !segment_is_wf(&a[j]) {
            return false;
        }
        j += 1;
    }
    true
}

/// Whether every group in a segment has two or more alternatives, none of
/// them empty.
pub fn segment_is_wf(s: &SegmentBuf) -> (r: bool)
    ensures
        r == segment_wf(s@),
    decreases s,
{
    match s {
        SegmentBuf::Coalesce(v) => {
            let ghost alts = alternatives_view(v@);
            proof {
                lemma_view_coalesce(*v);
            }
            if v.len() < 2 {
                return false;
            }
            let mut i: usize = 0;
            while i < v.len()
                invariant
                    i <= v.len(),
                    *s == SegmentBuf::Coalesce(*v),
                    alts == alternatives_view(v@),
                    s@ == SegmentView::Coalesce(alts),
                    forall|k: int| 0 <= k < i ==> (#[trigger] alts[k]).len() >= 1,
                    forall|k: int, j: int|
                        0 <= k < i && 0 <= j < alts[k].len() ==> segment_wf(#[trigger] alts[k][j]),
                decreases v.len() - i,
            {
                assert(alts[i as int] == path_view(v@[i as int]@));
                if v[i].len() == 0 {
                    return false;
                }
                if !deque_is_wf(&v[i]) {
                    let ghost j = choose|j: int|
                        0 <= j < v@[i as int]@.len() && !segment_wf(#[trigger] v@[i as int]@[j]@);
                    assert(!segment_wf(alts[i as int][j]));
                    return false;
                }
                i += 1;
            }
            true
        },
        _ => true,
    }
}

impl PartialEq for SegmentBuf {
    /// Whether the two segments are of the same kind and hold the same.
    fn eq(&self, other: &Self) -> (r: bool) {
        segment_eq(self, other)
    }
}

impl vstd::std_specs::cmp::PartialEqSpecImpl for SegmentBuf {
    open spec fn obeys_eq_spec() -> bool {
        true
    }

    open spec fn eq_spec(&self, other: &Self) -> bool {
        self@ == other@
    }
}

} // verus!
