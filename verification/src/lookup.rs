//! The borrowed form of a path.

use crate::lookup_buf::LookupBuf;
use crate::model::{lemma_path_text_push, path_text, SegmentView};
use crate::segment::{borrowed_path_view, Segment};
use crate::segmentbuf::SegmentBuf;
use std::collections::vec_deque::Iter;
use std::collections::VecDeque;
use vstd::prelude::*;

verus! {

/// A path whose names are borrowed from a text that lives elsewhere.
///
/// It says the same as the [`LookupBuf`] it was taken from, and holds no
/// text of its own.
#[derive(Debug)]
pub struct Lookup<'a> {
    pub segments: VecDeque<Segment<'a>>,
}

impl<'a> View for Lookup<'a> {
    type V = Seq<SegmentView>;

    open spec fn view(&self) -> Seq<SegmentView> {
        borrowed_path_view(self.segments@)
    }
}

impl<'a> Lookup<'a> {
    /// The number of segments.
    pub fn len(&self) -> (n: usize)
        ensures
            n == self@.len(),
    {
        self.segments.len()
    }

    /// The segment at `index`, if there is one.
    pub fn get(&self, index: usize) -> (r: Option<&Segment<'a>>)
        ensures
            r is Some <==> index < self@.len(),
            r matches Some(s) ==> *s == self.segments@[index as int] && s@ == self@[index as int],
    {
        if index < self.segments.len() {
            Some(&self.segments[index])
        } else {
            None
        }
    }

    /// Puts a segment at the end.
    pub fn push_back(&mut self, segment: Segment<'a>)
        ensures
            final(self)@ == old(self)@.push(segment@),
    {
        self.segments.push_back(segment);
    }

    /// Takes the last segment away and returns it, if there is one.
    pub fn pop_back(&mut self) -> (r: Option<Segment<'a>>)
        ensures
            r is Some <==> old(self)@.len() > 0,
            r matches Some(s) ==> s@ == old(self)@.last() && final(self)@ == old(self)@.drop_last(),
            r is None ==> final(self)@ == old(self)@,
    {
        let r = self.segments.pop_back();
        r
    }

    /// Puts a segment at the front.
    pub fn push_front(&mut self, segment: Segment<'a>)
        ensures
            final(self)@ == seq![segment@] + old(self)@,
    {
        self.segments.push_front(segment);
    }

    /// Takes the first segment away and returns it, if there is one.
    pub fn pop_front(&mut self) -> (r: Option<Segment<'a>>)
        ensures
            r is Some <==> old(self)@.len() > 0,
            r matches Some(s) ==> s@ == old(self)@.first() && final(self)@ == old(self)@.drop_first(),
            r is None ==> final(self)@ == old(self)@,
    {
        let r = self.segments.pop_front();
        assert(r is Some ==> self@ =~= old(self)@.drop_first());
        r
    }

    /// The segments from first to last.
    pub fn iter(&self) -> (it: Iter<'_, Segment<'a>>)
        ensures
            it == vstd::std_specs::vecdeque::spec_iter(&self.segments),
    {
        self.segments.iter()
    }

    /// Puts the segments of `other` at the end, in their order.
    pub fn extend(&mut self, other: Self)
        ensures
            final(self)@ == old(self)@ + other@,
    {
        let mut other = other;
        self.segments.append(&mut other.segments);
    }

    /// Puts the text of this path at the end of `out`.
    pub fn write_to(&self, out: &mut String)
        ensures
            final(out)@ == old(out)@ + path_text(self@),
    {
        let ghost p = self@;
        let mut i: usize = 0;
        while i < self.segments.len()
            invariant
                i <= self.segments@.len(),
                p == self@,
                out@ == old(out)@ + path_text(p.take(i as int)),
            decreases self.segments@.len() - i,
        {
            let seg = &self.segments[i];
            if i > 0 && !seg.is_index() {
                out.push('.');
            }
            seg.write_to(out);
            proof {
                lemma_path_text_push(p.take(i as int), p[i as int]);
                assert(p.take(i + 1) =~= p.take(i as int).push(p[i as int]));
            }
            i += 1;
        }
        assert(p.take(self.segments@.len() as int) =~= p);
    }

    /// The text of this path.
    pub fn to_string(&self) -> (s: String)
        ensures
            s@ == path_text(self@),
    {
        let mut s = String::new();
        self.write_to(&mut s);
        s
    }

    /// An owned copy of this path.
    pub fn into_buf(self) -> (r: LookupBuf)
        ensures
            r@ == self@,
    {
        let mut segments: VecDeque<SegmentBuf> = VecDeque::new();
        let mut i: usize = 0;
        while i < self.segments.len()
            invariant
                i <= self.segments@.len(),
                segments@.len() == i,
                forall|k: int| 0 <= k < i ==> segments@[k]@ == self.segments@[k]@,
            decreases self.segments@.len() - i,
        {
            let seg = self.segments[i].as_segment_buf();
            segments.push_back(seg);
            i += 1;
        }
        LookupBuf { segments }
    }
}

} // verus!
