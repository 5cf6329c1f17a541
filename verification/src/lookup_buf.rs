//! The owned form of a path.

use crate::error::LookupError;
use crate::grammar::{parse_path, parseable};
use crate::laws::{law_accepted_texts, law_empty_text, law_read_paths_are_well_formed};
use crate::lookup::Lookup;
use crate::model::{
    lemma_path_text_push, lemma_wf_concat, literal_segment, path_text, path_wf, segment_wf,
    SegmentView,
};
use crate::parser::read_path;
use crate::segmentbuf::{
    deque_as_segments, deque_clone, deque_eq, deque_is_wf, path_view, IntoSegmentBuf, SegmentBuf,
};
use crate::soundness::lemma_path_sound;
use crate::text::chars_of;
use std::collections::vec_deque::Iter;
use std::collections::VecDeque;
use vstd::prelude::*;

verus! {

/// An owned path: segments in order, such as `pies`, `banana`, `slices`, `0`
/// for `pies.banana.slices[0]`.
///
/// Every way to make one gives a path with at least one segment. Popping can
/// take the last segment away: a caller who pops and needs a path that is
/// not empty asks [`LookupBuf::is_valid`] again.
#[derive(Debug, Eq, PartialOrd, Ord, Hash)]
pub struct LookupBuf {
    pub segments: VecDeque<SegmentBuf>,
}

impl View for LookupBuf {
    type V = Seq<SegmentView>;

    open spec fn view(&self) -> Seq<SegmentView> {
        path_view(self.segments@)
    }
}

impl LookupBuf {
    /// The segment at `index`, if there is one.
    pub fn get(&self, index: usize) -> (r: Option<&SegmentBuf>)
        ensures
            r is Some <==> index < self@.len(),
            r matches Some(s) ==> *s == self.segments@[index as int] && s@ == self@[index as int],
    {
        if index < self.segments.len() {
            Some(&self.segments[index])
        } else {
            None
        }
    }

    /// Puts a segment at the end.
    pub fn push_back<S: IntoSegmentBuf>(&mut self, segment: S)
        ensures
            final(self)@ == old(self)@.push(segment.becomes()),
            path_wf(old(self)@) && segment_wf(segment.becomes()) ==> path_wf(final(self)@),
    {
        let seg = segment.into_segment_buf();
        self.segments.push_back(seg);
        proof {
            if path_wf(old(self)@) && segment_wf(seg@) {
                lemma_wf_concat(old(self)@, seq![seg@]);
                assert(self@ =~= old(self)@ + seq![seg@]);
            }
        }
    }

    /// Takes the last segment away and returns it, if there is one.
    pub fn pop_back(&mut self) -> (r: Option<SegmentBuf>)
        ensures
            r is Some <==> old(self)@.len() > 0,
            r matches Some(s) ==> s@ == old(self)@.last() && final(self)@ == old(self)@.drop_last(),
            r is None ==> final(self)@ == old(self)@,
    {
        let r = self.segments.pop_back();
        r
    }

    /// Puts a segment at the front.
    pub fn push_front<S: IntoSegmentBuf>(&mut self, segment: S)
        ensures
            final(self)@ == seq![segment.becomes()] + old(self)@,
            path_wf(old(self)@) && segment_wf(segment.becomes()) ==> path_wf(final(self)@),
    {
        let seg = segment.into_segment_buf();
        self.segments.push_front(seg);
        proof {
            if path_wf(old(self)@) && segment_wf(seg@) {
                lemma_wf_concat(seq![seg@], old(self)@);
            }
        }
    }

    /// Takes the first segment away and returns it, if there is one.
    pub fn pop_front(&mut self) -> (r: Option<SegmentBuf>)
        ensures
            r is Some <==> old(self)@.len() > 0,
            r matches Some(s) ==> s@ == old(self)@.first() && final(self)@ == old(self)@.drop_first(),
            r is None ==> final(self)@ == old(self)@,
    {
        let r = self.segments.pop_front();
        assert(r is Some ==> self@ =~= old(self)@.drop_first());
        r
    }

    /// The segments from first to last.
    pub fn iter(&self) -> (it: Iter<'_, SegmentBuf>)
        ensures
            it == vstd::std_specs::vecdeque::spec_iter(&self.segments),
    {
        self.segments.iter()
    }

    /// The number of segments.
    pub fn len(&self) -> (n: usize)
        ensures
            n == self@.len(),
    {
        self.segments.len()
    }

    /// Says what is wrong with this path, if anything: that it is empty, or
    /// that one of its groups has fewer than two alternatives or an empty
    /// one.
    pub fn is_valid(&self) -> (r: Result<(), LookupError>)
        ensures
            r is Ok <==> path_wf(self@),
            r matches Err(e) ==> e == if self@.len() == 0 {
                LookupError::EmptyPath
            } else {
                LookupError::InvalidStructure
            },
    {
        if self.segments.len() == 0 {
            return Err(LookupError::EmptyPath);
        }
        if deque_is_wf(&self.segments) {
            Ok(())
        } else {
            let ghost k = choose|k: int|
                0 <= k < self.segments@.len() && !segment_wf(#[trigger] self.segments@[k]@);
            assert(!segment_wf(self@[k]));
            Err(LookupError::InvalidStructure)
        }
    }

    /// The segments.
    pub fn as_segments(&self) -> (r: &VecDeque<SegmentBuf>)
        ensures
            path_view(r@) == self@,
            *r == self.segments,
    {
        &self.segments
    }

    /// The segments, given away.
    pub fn into_segments(self) -> (r: VecDeque<SegmentBuf>)
        ensures
            path_view(r@) == self@,
            r == self.segments,
    {
        self.segments
    }

    /// Puts the segments of `other` at the end, in their order.
    pub fn extend(&mut self, other: Self)
        ensures
            final(self)@ == old(self)@ + other@,
            path_wf(old(self)@) && path_wf(other@) ==> path_wf(final(self)@),
    {
        let mut other = other;
        let ghost added = other@;
        self.segments.append(&mut other.segments);
        proof {
            assert(self@ =~= old(self)@ + added);
            if path_wf(old(self)@) && path_wf(added) {
                lemma_wf_concat(old(self)@, added);
            }
        }
    }

    /// Whether the segments of `needle` are the first segments of this path,
    /// one for one. A longer needle never is.
    pub fn starts_with(&self, needle: &LookupBuf) -> (r: bool)
        ensures
            r == needle@.is_prefix_of(self@),
    {
        if needle.segments.len() > self.segments.len() {
            return false;
        }
        let mut i: usize = 0;
        while i < needle.segments.len()
            invariant
                i <= needle.segments@.len() <= self.segments@.len(),
                forall|k: int| 0 <= k < i ==> needle@[k] == self@[k],
            decreases needle.segments@.len() - i,
        {
            if !(needle.segments[i] == self.segments[i]) {
                assert(needle@[i as int] != self@.subrange(0, needle@.len() as int)[i as int]);
                return false;
            }
            i += 1;
        }
        true
    }

    /// Reads a path from its text.
    ///
    /// The text is read as a path exactly when it is the text of a path that
    /// a text can stand for, and then as that path: written out again it is
    /// the same text. Otherwise the error says where the grammar is broken
    /// and what was looked for there, as [`parse_path`] lays down.
    pub fn from_str(value: &str) -> (r: Result<LookupBuf, LookupError>)
        ensures
            r matches Ok(l) ==> parseable(l@) && path_wf(l@) && path_text(l@) == value@,
            r is Ok <==> exists|p: Seq<SegmentView>|
                parseable(p) && #[trigger] path_text(p) == value@,
            r == Err::<LookupBuf, LookupError>(LookupError::EmptyPath) <==> value@.len() == 0,
            match (r, parse_path(value@)) {
                (Ok(l), Ok(p)) => l@ == p,
                (Err(a), Err(b)) => a == b,
                _ => false,
            },
    {
        proof {
            lemma_path_sound(value@);
            law_accepted_texts(value@);
            law_read_paths_are_well_formed(value@);
            law_empty_text(value@);
        }
        let chars = chars_of(value);
        match read_path(&chars) {
            Ok(segments) => Ok(LookupBuf { segments }),
            Err(e) => Err(e),
        }
    }

    /// A borrowed view of this path, which is left as it is.
    pub fn clone_lookup(&self) -> (r: Lookup<'_>)
        ensures
            r@ == self@,
    {
        Lookup { segments: deque_as_segments(&self.segments) }
    }

    /// The path of the one field that `name` stands for when it is taken as
    /// it is: dots in it divide nothing.
    pub fn from_name(name: &str) -> (r: LookupBuf)
        ensures
            r@ == seq![literal_segment(name@)],
            path_wf(r@),
    {
        LookupBuf::from_segment(SegmentBuf::from_name(name))
    }

    /// The path of one segment.
    pub fn from_segment(segment: SegmentBuf) -> (r: LookupBuf)
        ensures
            r@ == seq![segment@],
            segment_wf(segment@) ==> path_wf(r@),
    {
        let mut segments: VecDeque<SegmentBuf> = VecDeque::with_capacity(1);
        segments.push_back(segment);
        LookupBuf { segments }
    }

    /// Puts the text of this path at the end of `out`.
    pub fn write_to(&self, out: &mut String)
        ensures
            final(out)@ == old(out)@ + path_text(self@),
    {
        let ghost p = self@;
        let mut i: usize = 0;
        while i < self.segments.len()
            invariant
                i <= self.segments@.len(),
                p == self@,
                out@ == old(out)@ + path_text(p.take(i as int)),
            decreases self.segments@.len() - i,
        {
            let seg = &self.segments[i];
            if i > 0 && !seg.is_index() {
                out.push('.');
            }
            seg.write_to(out);
            proof {
                lemma_path_text_push(p.take(i as int), p[i as int]);
                assert(p.take(i + 1) =~= p.take(i as int).push(p[i as int]));
            }
            i += 1;
        }
        assert(p.take(self.segments@.len() as int) =~= p);
    }

    /// The text of this path.
    pub fn to_string(&self) -> (s: String)
        ensures
            s@ == path_text(self@),
    {
        let mut s = String::new();
        self.write_to(&mut s);
        s
    }
}

impl PartialEq for LookupBuf {
    /// Whether the two paths have equal segments in the same order.
    fn eq(&self, other: &Self) -> (r: bool) {
        deque_eq(&self.segments, &other.segments)
    }
}

impl vstd::std_specs::cmp::PartialEqSpecImpl for LookupBuf {
    open spec fn obeys_eq_spec() -> bool {
        true
    }

    open spec fn eq_spec(&self, other: &Self) -> bool {
        self@ == other@
    }
}

impl Clone for LookupBuf {
    /// A copy that shares nothing with this path and says the same.
    fn clone(&self) -> (r: Self)
        ensures
            r@ == self@,
    {
        LookupBuf { segments: deque_clone(&self.segments) }
    }
}

impl From<String> for LookupBuf {
    /// The path of the one field that `input` stands for when it is taken as
    /// it is.
    fn from(input: String) -> (r: LookupBuf)
        ensures
            r@ == seq![literal_segment(input@)],
            path_wf(r@),
    {
        LookupBuf::from_name(input.as_str())
    }
}

impl vstd::std_specs::convert::FromSpecImpl<String> for LookupBuf {
    /// What `from` gives is said by its own contract, over models: no
    /// formula names the owned value itself.
    open spec fn obeys_from_spec() -> bool {
        false
    }

    open spec fn from_spec(input: String) -> LookupBuf {
        arbitrary()
    }
}

impl<'a> From<&'a str> for LookupBuf {
    /// The path of the one field that `input` stands for when it is taken as
    /// it is.
    fn from(input: &'a str) -> (r: LookupBuf)
        ensures
            r@ == seq![literal_segment(input@)],
            path_wf(r@),
    {
        LookupBuf::from_name(input)
    }
}

impl<'a> vstd::std_specs::convert::FromSpecImpl<&'a str> for LookupBuf {
    /// What `from` gives is said by its own contract, over models: no
    /// formula names the owned value itself.
    open spec fn obeys_from_spec() -> bool {
        false
    }

    open spec fn from_spec(input: &'a str) -> LookupBuf {
        arbitrary()
    }
}

impl From<SegmentBuf> for LookupBuf {
    /// The path of one segment.
    fn from(input: SegmentBuf) -> (r: LookupBuf)
        ensures
            r@ == seq![input@],
            segment_wf(input@) ==> path_wf(r@),
    {
        LookupBuf::from_segment(input)
    }
}

impl vstd::std_specs::convert::FromSpecImpl<SegmentBuf> for LookupBuf {
    /// What `from` gives is said by its own contract, over models: no
    /// formula names the owned value itself.
    open spec fn obeys_from_spec() -> bool {
        false
    }

    open spec fn from_spec(input: SegmentBuf) -> LookupBuf {
        arbitrary()
    }
}

impl From<usize> for LookupBuf {
    /// The path of one index.
    fn from(input: usize) -> (r: LookupBuf)
        ensures
            r@ == seq![SegmentView::Index(input as nat)],
            path_wf(r@),
    {
        LookupBuf::from_segment(SegmentBuf::index(input))
    }
}

impl vstd::std_specs::convert::FromSpecImpl<usize> for LookupBuf {
    /// What `from` gives is said by its own contract, over models: no
    /// formula names the owned value itself.
    open spec fn obeys_from_spec() -> bool {
        false
    }

    open spec fn from_spec(input: usize) -> LookupBuf {
        arbitrary()
    }
}

impl<'a> From<Lookup<'a>> for LookupBuf {
    /// An owned copy of `v`.
    fn from(v: Lookup<'a>) -> (r: LookupBuf)
        ensures
            r@ == v@,
    {
        v.into_buf()
    }
}

impl<'a> vstd::std_specs::convert::FromSpecImpl<Lookup<'a>> for LookupBuf {
    /// What `from` gives is said by its own contract, over models: no
    /// formula names the owned value itself.
    open spec fn obeys_from_spec() -> bool {
        false
    }

    open spec fn from_spec(v: Lookup<'a>) -> LookupBuf {
        arbitrary()
    }
}

impl TryFrom<VecDeque<SegmentBuf>> for LookupBuf {
    type Error = LookupError;

    /// The path of these segments, unless there is none or a group among
    /// them is not well formed.
    fn try_from(segments: VecDeque<SegmentBuf>) -> (r: Result<LookupBuf, LookupError>)
        ensures
            r is Ok <==> path_wf(path_view(segments@)),
            r matches Ok(l) ==> l.segments == segments,
            r matches Err(e) ==> e == if segments@.len() == 0 {
                LookupError::EmptyPath
            } else {
                LookupError::InvalidStructure
            },
    {
        let retval = LookupBuf { segments };
        match retval.is_valid() {
            Ok(_) => Ok(retval),
            Err(e) => Err(e),
        }
    }
}

impl vstd::std_specs::convert::TryFromSpecImpl<VecDeque<SegmentBuf>> for LookupBuf {
    open spec fn obeys_try_from_spec() -> bool {
        true
    }

    open spec fn try_from_spec(segments: VecDeque<SegmentBuf>) -> Result<LookupBuf, LookupError> {
        if path_wf(path_view(segments@)) {
            Ok(LookupBuf { segments })
        } else if segments@.len() == 0 {
            Err(LookupError::EmptyPath)
        } else {
            Err(LookupError::InvalidStructure)
        }
    }
}

impl std::str::FromStr for LookupBuf {
    type Err = LookupError;

    /// Reads a path from its text, as [`LookupBuf::from_str`] does.
    fn from_str(input: &str) -> (r: Result<LookupBuf, LookupError>)
        ensures
            r matches Ok(l) ==> parseable(l@) && path_wf(l@) && path_text(l@) == input@,
            r is Ok <==> exists|p: Seq<SegmentView>|
                parseable(p) && #[trigger] path_text(p) == input@,
            match (r, parse_path(input@)) {
                (Ok(l), Ok(p)) => l@ == p,
                (Err(a), Err(b)) => a == b,
                _ => false,
            },
    {
        LookupBuf::from_str(input)
    }
}

impl std::ops::Index<usize> for LookupBuf {
    type Output = SegmentBuf;

    /// The segment at `index`, which must be in range.
    fn index(&self, index: usize) -> (r: &SegmentBuf)
        ensures
            *r == self.segments@[index as int],
            r@ == self@[index as int],
    {
        &self.segments[index]
    }
}

impl vstd::std_specs::core::IndexSpecImpl<usize> for LookupBuf {
    open spec fn index_req(&self, index: &usize) -> bool {
        *index < self@.len()
    }
}

} // verus!
