//! What holds of reading and writing paths, whatever the text and whatever
//! the path.

use crate::completeness::lemma_path_complete;
use crate::error::LookupError;
use crate::flatten::{entry_text, item_text};
use crate::grammar::{
    bare_name, branch_ok, leaf_ok, lemma_branch_bounds, lemma_index_bounds, lemma_leaf_bounds,
    lemma_segment_bounds, parse_alternatives, parse_branch, parse_index, parse_leaf, parse_path,
    parse_rest, parse_segment, parseable, segment_ok,
};
use crate::model::{lemma_path_text_push, path_text, path_wf, segment_wf, SegmentView};
use crate::soundness::lemma_path_sound;
use vstd::prelude::*;

verus! {

/// Writing what was read gives the text that was read: where a text is read
/// as a path, the text of that path is the text itself, character for
/// character.
pub proof fn law_write_after_read(s: Seq<char>)
    ensures
        parse_path(s) matches Ok(p) ==> path_text(p) == s,
{
    lemma_path_sound(s);
}

/// Reading what was written gives the path that was written: the text of a
/// path that a text can stand for is read as that very path.
pub proof fn law_read_after_write(p: Seq<SegmentView>)
    requires
        parseable(p),
    ensures
        parse_path(path_text(p)) == Ok::<Seq<SegmentView>, LookupError>(p),
{
    lemma_path_complete(p);
}

/// A text is read as a path exactly when it is the text of a path that a
/// text can stand for.
pub proof fn law_accepted_texts(s: Seq<char>)
    ensures
        parse_path(s) is Ok <==> exists|p: Seq<SegmentView>|
            parseable(p) && #[trigger] path_text(p) == s,
{
    lemma_path_sound(s);
    if parse_path(s) is Ok {
        let p = parse_path(s)->Ok_0;
    }
    if exists|p: Seq<SegmentView>| parseable(p) && #[trigger] path_text(p) == s {
        let p = choose|p: Seq<SegmentView>| parseable(p) && #[trigger] path_text(p) == s;
        lemma_path_complete(p);
    }
}

/// No two paths that a text can stand for have the same text.
pub proof fn law_one_path_per_text(a: Seq<SegmentView>, b: Seq<SegmentView>)
    requires
        parseable(a),
        parseable(b),
        path_text(a) == path_text(b),
    ensures
        a == b,
{
    lemma_path_complete(a);
    lemma_path_complete(b);
}

/// A path that was read has a segment, and its groups have two or more
/// alternatives, none of them empty.
pub proof fn law_read_paths_are_well_formed(s: Seq<char>)
    ensures
        parse_path(s) matches Ok(p) ==> p.len() >= 1 && path_wf(p),
{
    lemma_path_sound(s);
    if let Ok(p) = parse_path(s) {
        law_parseable_is_well_formed(p);
    }
}

/// A path that a text can stand for is well formed.
pub proof fn law_parseable_is_well_formed(p: Seq<SegmentView>)
    requires
        parseable(p),
    ensures
        path_wf(p),
{
    assert forall|i: int| 0 <= i < p.len() implies segment_wf(#[trigger] p[i]) by {
        if let SegmentView::Coalesce(alts) = p[i] {
            assert forall|a: int, j: int|
                0 <= a < alts.len() && 0 <= j < alts[a].len() implies segment_wf(
                #[trigger] alts[a][j],
            ) by {
                assert(branch_ok(alts[a]));
                assert(leaf_ok(alts[a][j]));
            }
        }
    }
}

/// The place of an item of an array, in a table that is flattened, is the
/// path of the array with the item's position after it.
pub proof fn law_item_place(path: Seq<SegmentView>, position: nat)
    requires
        parseable(path),
        position <= usize::MAX,
    ensures
        parse_path(item_text(path, position)) == Ok::<Seq<SegmentView>, LookupError>(
            path.push(SegmentView::Index(position)),
        ),
{
    let seg = SegmentView::Index(position);
    let place = path.push(seg);
    lemma_path_text_push(path, seg);
    assert(path_text(place) =~= item_text(path, position));
    lemma_path_complete(place);
}

/// The place of an entry of a table, in a table that is flattened, is the
/// path of the table with the entry's name after it, where that name can
/// stand without quotes.
pub proof fn law_entry_place(path: Seq<SegmentView>, key: Seq<char>)
    requires
        parseable(path),
        bare_name(key),
    ensures
        parse_path(entry_text(path, key)) == Ok::<Seq<SegmentView>, LookupError>(
            path.push(SegmentView::Field { name: key, requires_quoting: false }),
        ),
{
    let seg = SegmentView::Field { name: key, requires_quoting: false };
    let place = path.push(seg);
    lemma_path_text_push(path, seg);
    assert(parseable(place)) by {
        assert forall|i: int| 0 <= i < place.len() implies segment_ok(#[trigger] place[i]) by {
            if i < path.len() {
                assert(place[i] == path[i]);
            }
        }
    }
    lemma_path_complete(place);
}

/// The empty text is no path, and it is the only text that is refused for
/// being empty.
pub proof fn law_empty_text(s: Seq<char>)
    ensures
        parse_path(s) == Err::<Seq<SegmentView>, LookupError>(LookupError::EmptyPath) <==> s.len()
            == 0,
{
    reveal(parse_path);
    if s.len() > 0 {
        lemma_segment_never_empty_path(s, 0);
        if let Ok((seg, end)) = parse_segment(s, 0) {
            lemma_rest_never_empty_path(s, end, seq![seg]);
        }
    }
}

/// Reading a field or an index never fails for want of text.
pub proof fn lemma_leaf_never_empty_path(s: Seq<char>, pos: int)
    ensures
        parse_index(s, pos) != Err::<(SegmentView, int), LookupError>(LookupError::EmptyPath),
        parse_leaf(s, pos) != Err::<(SegmentView, int), LookupError>(LookupError::EmptyPath),
{
}

/// Reading an alternative never fails for want of text.
pub proof fn lemma_branch_never_empty_path(s: Seq<char>, pos: int, acc: Seq<SegmentView>)
    ensures
        parse_branch(s, pos, acc) != Err::<(Seq<SegmentView>, int), LookupError>(
            LookupError::EmptyPath,
        ),
    decreases s.len() - pos,
{
    lemma_leaf_never_empty_path(s, pos);
    lemma_leaf_bounds(s, pos);
    if let Ok((seg, end)) = parse_leaf(s, pos) {
        if end < s.len() && s[end] == '.' {
            lemma_branch_never_empty_path(s, end + 1, acc.push(seg));
        }
    }
}

/// Reading the alternatives of a group never fails for want of text.
pub proof fn lemma_alternatives_never_empty_path(
    s: Seq<char>,
    pos: int,
    acc: Seq<Seq<SegmentView>>,
)
    ensures
        parse_alternatives(s, pos, acc) != Err::<(Seq<Seq<SegmentView>>, int), LookupError>(
            LookupError::EmptyPath,
        ),
    decreases s.len() - pos,
{
    lemma_branch_never_empty_path(s, pos, Seq::empty());
    lemma_branch_bounds(s, pos, Seq::empty());
    if let Ok((branch, end)) = parse_branch(s, pos, Seq::empty()) {
        if end + 2 < s.len() && s[end] == ' ' && s[end + 1] == '|' && s[end + 2] == ' ' {
            lemma_alternatives_never_empty_path(s, end + 3, acc.push(branch));
        }
    }
}

/// Reading a segment never fails for want of text.
pub proof fn lemma_segment_never_empty_path(s: Seq<char>, pos: int)
    ensures
        parse_segment(s, pos) != Err::<(SegmentView, int), LookupError>(LookupError::EmptyPath),
{
    lemma_leaf_never_empty_path(s, pos);
    lemma_alternatives_never_empty_path(s, pos + 1, Seq::empty());
}

/// Reading the rest of a path never fails for want of text.
pub proof fn lemma_rest_never_empty_path(s: Seq<char>, pos: int, acc: Seq<SegmentView>)
    ensures
        parse_rest(s, pos, acc) != Err::<Seq<SegmentView>, LookupError>(LookupError::EmptyPath),
    decreases s.len() - pos,
{
    if 0 <= pos < s.len() {
        lemma_leaf_never_empty_path(s, pos);
        lemma_segment_never_empty_path(s, pos + 1);
        lemma_index_bounds(s, pos);
        lemma_segment_bounds(s, pos + 1);
        if s[pos] == '[' {
            if let Ok((seg, end)) = parse_index(s, pos) {
                lemma_rest_never_empty_path(s, end, acc.push(seg));
            }
        } else if s[pos] == '.' {
            if let Ok((seg, end)) = parse_segment(s, pos + 1) {
                lemma_rest_never_empty_path(s, end, acc.push(seg));
            }
        }
    }
}

} // verus!
