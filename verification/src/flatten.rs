//! Turning a nested table into a flat map from paths to values.
//!
//! A table holds values, arrays and tables under names. Every value in it
//! has a place: the names and positions that lead to it. Flattening gives
//! each value under the path of its place. Two places can have the same
//! path; then the later value takes the place of the earlier one, where the
//! earlier one stood.
//!
//! The paths are kept in an `IndexMap`, which remembers the order in which
//! they came. The map leads from each path to the slot of its value in a
//! list, so that what the map holds can be said whatever the values are.

use crate::error::LookupError;
use crate::grammar::parse_path;
use crate::lookup_buf::LookupBuf;
use crate::model::{decimal, dot, literal_segment, path_text, SegmentView};
use crate::text::push_decimal;
use indexmap::IndexMap;
use std::collections::hash_map::RandomState;
use vstd::prelude::*;
use vstd::string::StringExecFns;

verus! {

/// A value, or an array or a table of further trees.
pub enum ConfigTree<V> {
    Value(V),
    Array(Vec<ConfigTree<V>>),
    Table(Vec<(String, ConfigTree<V>)>),
}

/// The text of the place at `position` in the array at `path`.
pub open spec fn item_text(path: Seq<SegmentView>, position: nat) -> Seq<char> {
    path_text(path) + seq!['['] + decimal(position) + seq![']']
}

/// The text of the place under `key` in the table at `path`.
pub open spec fn entry_text(path: Seq<SegmentView>, key: Seq<char>) -> Seq<char> {
    path_text(path) + dot() + key
}

/// Whether `i` is the first place in `found` where `path` stands.
pub open spec fn first_at<V>(found: Seq<(Seq<SegmentView>, V)>, path: Seq<SegmentView>, i: int)
    -> bool {
    &&& 0 <= i < found.len()
    &&& found[i].0 == path
    &&& forall|j: int| 0 <= j < i ==> (#[trigger] found[j]).0 != path
}

/// `found` with `value` under `path`: in the place of the first value that
/// stands under that path, or at the end if there is none.
pub open spec fn put<V>(found: Seq<(Seq<SegmentView>, V)>, path: Seq<SegmentView>, value: V) -> Seq<
    (Seq<SegmentView>, V),
> {
    if exists|i: int| first_at(found, path, i) {
        found.update(choose|i: int| first_at(found, path, i), (path, value))
    } else {
        found.push((path, value))
    }
}

/// No path stands twice in `found`.
pub open spec fn distinct_paths<V>(found: Seq<(Seq<SegmentView>, V)>) -> bool {
    forall|i: int, j: int|
        0 <= i < j < found.len() ==> (#[trigger] found[i]).0 != (#[trigger] found[j]).0
}

/// `found` with the values of `tree`, which stands at `path`, each put under
/// the path of its place, in the order in which they stand; or the error of
/// the first place whose text is no path.
pub open spec fn flat<V>(
    path: Seq<SegmentView>,
    tree: ConfigTree<V>,
    found: Seq<(Seq<SegmentView>, V)>,
) -> Result<Seq<(Seq<SegmentView>, V)>, LookupError>
    decreases tree, 0nat,
{
    match tree {
        ConfigTree::Value(v) => Ok(put(found, path, v)),
        ConfigTree::Array(items) => flat_items(path, items@, items@.len(), found),
        ConfigTree::Table(entries) => flat_entries(path, entries@, entries@.len(), found),
    }
}

/// `found` with the values of the first `n` items of the array at `path`.
pub open spec fn flat_items<V>(
    path: Seq<SegmentView>,
    items: Seq<ConfigTree<V>>,
    n: nat,
    found: Seq<(Seq<SegmentView>, V)>,
) -> Result<Seq<(Seq<SegmentView>, V)>, LookupError>
    decreases items, n,
{
    if n == 0 || n > items.len() {
        Ok(found)
    } else {
        match flat_items(path, items, (n - 1) as nat, found) {
            Err(e) => Err(e),
            Ok(before) => match parse_path(item_text(path, (n - 1) as nat)) {
                Err(e) => Err(e),
                Ok(place) => flat(place, items[n - 1], before),
            },
        }
    }
}

/// `found` with the values of the first `n` entries of the table at `path`.
pub open spec fn flat_entries<V>(
    path: Seq<SegmentView>,
    entries: Seq<(String, ConfigTree<V>)>,
    n: nat,
    found: Seq<(Seq<SegmentView>, V)>,
) -> Result<Seq<(Seq<SegmentView>, V)>, LookupError>
    decreases entries, n,
{
    if n == 0 || n > entries.len() {
        Ok(found)
    } else {
        match flat_entries(path, entries, (n - 1) as nat, found) {
            Err(e) => Err(e),
            Ok(before) => match parse_path(entry_text(path, entries[n - 1].0@)) {
                Err(e) => Err(e),
                Ok(place) => flat(place, entries[n - 1].1, before),
            },
        }
    }
}

/// The values of the first `n` entries of a table that stands nowhere: the
/// name of each entry, taken as it is, is the path of its place.
pub open spec fn flat_table<V>(entries: Seq<(String, ConfigTree<V>)>, n: nat) -> Result<
    Seq<(Seq<SegmentView>, V)>,
    LookupError,
>
    decreases n,
{
    if n == 0 || n > entries.len() {
        Ok(Seq::empty())
    } else {
        match flat_table(entries, (n - 1) as nat) {
            Err(e) => Err(e),
            Ok(before) => flat(seq![literal_segment(entries[n - 1].0@)], entries[n - 1].1, before),
        }
    }
}

/// The map type of the `indexmap` crate, which Verus takes as it is, without
/// looking inside.
#[verifier::external_type_specification]
#[verifier::external_body]
#[verifier::reject_recursive_types(K)]
#[verifier::reject_recursive_types(V)]
#[verifier::reject_recursive_types(S)]
pub struct ExIndexMap<K, V, S>(IndexMap<K, V, S>);

/// What a map from paths to slots holds: each path, by its model, with its
/// slot, in the order in which the map keeps them.
pub uninterp spec fn slots_of(m: IndexMap<LookupBuf, usize, RandomState>) -> Seq<
    (Seq<SegmentView>, usize),
>;

/// `IndexMap::new` gives a map that holds nothing.
#[verifier::external_body]
fn new_slots() -> (m: IndexMap<LookupBuf, usize, RandomState>)
    ensures
        slots_of(m) == Seq::<(Seq<SegmentView>, usize)>::empty(),
{
    IndexMap::new()
}

/// `IndexMap::insert` looks for a key equal to `key`. If there is one, that
/// key stays where it is in the order and gets the new value, and the old
/// value is returned. If there is none, the key and the value come last in
/// the order, and nothing is returned. Two paths are equal keys when their
/// models are equal: `==` on paths is proved to say so, and the derived hash
/// is made of what the model is made of.
#[verifier::external_body]
fn insert_slot(m: &mut IndexMap<LookupBuf, usize, RandomState>, key: LookupBuf, slot: usize) -> (r:
    Option<usize>)
    ensures
        slots_of(*final(m)) == put(slots_of(*old(m)), key@, slot),
        r == if exists|i: int| first_at(slots_of(*old(m)), key@, i) {
            Some(slots_of(*old(m))[choose|i: int| first_at(slots_of(*old(m)), key@, i)].1)
        } else {
            None
        },
{
    m.insert(key, slot)
}

/// What flattening found: paths in the order in which they first stood,
/// each with its value.
pub struct Discoveries<'a, V> {
    slots: IndexMap<LookupBuf, usize, RandomState>,
    values: Vec<&'a V>,
}

/// What paths with slots, and the values in the slots, say together.
pub open spec fn filled<V>(slots: Seq<(Seq<SegmentView>, usize)>, values: Seq<&V>) -> Seq<
    (Seq<SegmentView>, V),
> {
    Seq::new(slots.len(), |i: int| (slots[i].0, *values[slots[i].1 as int]))
}

/// Every slot is a place in the list of values.
pub open spec fn slots_within(slots: Seq<(Seq<SegmentView>, usize)>, len: nat) -> bool {
    forall|i: int| 0 <= i < slots.len() ==> (#[trigger] slots[i]).1 < len
}

impl<'a, V> View for Discoveries<'a, V> {
    type V = Seq<(Seq<SegmentView>, V)>;

    closed spec fn view(&self) -> Seq<(Seq<SegmentView>, V)> {
        filled(slots_of(self.slots), self.values@)
    }
}

impl<'a, V> Discoveries<'a, V> {
    /// Every path leads to a slot that holds a value.
    pub closed spec fn wf(&self) -> bool {
        slots_within(slots_of(self.slots), self.values@.len())
    }

    /// Nothing found yet.
    pub fn new() -> (d: Self)
        ensures
            d.wf(),
            d@ == Seq::<(Seq<SegmentView>, V)>::empty(),
    {
        let d = Discoveries { slots: new_slots(), values: Vec::new() };
        assert(d@ =~= Seq::empty());
        d
    }

    /// Puts `value` under `lookup`: in the place of the value that stands
    /// under the same path, or at the end if there is none.
    pub fn insert(&mut self, lookup: LookupBuf, value: &'a V)
        requires
            old(self).wf(),
        ensures
            final(self).wf(),
            final(self)@ == put(old(self)@, lookup@, *value),
    {
        let ghost before = slots_of(self.slots);
        let ghost held = self.values@;
        let slot = self.values.len();
        self.values.push(value);
        insert_slot(&mut self.slots, lookup, slot);
        proof {
            lemma_put_filled(before, held, lookup@, value);
        }
    }

    /// The map from each path to the slot of its value, and the values in
    /// their slots. A slot that no path leads to holds a value that a later
    /// one took the place of.
    pub fn into_parts(self) -> (r: (IndexMap<LookupBuf, usize, RandomState>, Vec<&'a V>))
        ensures
            self@ == filled(slots_of(r.0), r.1@),
            self.wf() ==> slots_within(slots_of(r.0), r.1@.len()),
    {
        (self.slots, self.values)
    }
}

/// Putting a path with a new slot, and the value into that slot, is putting
/// the value under the path.
pub proof fn lemma_put_filled<V>(
    slots: Seq<(Seq<SegmentView>, usize)>,
    values: Seq<&V>,
    path: Seq<SegmentView>,
    value: &V,
)
    requires
        slots_within(slots, values.len()),
        values.len() <= usize::MAX,
    ensures
        slots_within(put(slots, path, values.len() as usize), values.len() + 1),
        filled(put(slots, path, values.len() as usize), values.push(value)) == put(
            filled(slots, values),
            path,
            *value,
        ),
{
    let slot = values.len() as usize;
    let found = filled(slots, values);
    let after = put(slots, path, slot);
    assert forall|i: int| first_at(slots, path, i) <==> first_at(found, path, i) by {
        if first_at(slots, path, i) {
            assert forall|j: int| 0 <= j < i implies (#[trigger] found[j]).0 != path by {
                assert(slots[j].0 != path);
            }
        }
        if first_at(found, path, i) {
            assert forall|j: int| 0 <= j < i implies (#[trigger] slots[j]).0 != path by {
                assert(found[j].0 != path);
            }
        }
    }
    if exists|i: int| first_at(slots, path, i) {
        let at = choose|i: int| first_at(slots, path, i);
        let other = choose|i: int| first_at(found, path, i);
        assert(first_at(found, path, at));
        assert(at == other) by {
            if at < other {
                assert(found[at].0 != path);
            }
            if other < at {
                assert(found[other].0 != path);
            }
        }
    } else if exists|i: int| first_at(found, path, i) {
        let other = choose|i: int| first_at(found, path, i);
        assert(first_at(slots, path, other));
    }
    assert(filled(after, values.push(value)) =~= put(found, path, *value));
}

/// Puts the values in `tree`, which stands at `lookup`, into `discoveries`,
/// each under the path of its place.
pub fn flatten_into<'a, V>(
    lookup: LookupBuf,
    tree: &'a ConfigTree<V>,
    discoveries: &mut Discoveries<'a, V>,
) -> (r: Result<(), LookupError>)
    requires
        old(discoveries).wf(),
    ensures
        final(discoveries).wf(),
        match flat(lookup@, *tree, old(discoveries)@) {
            Ok(found) => r is Ok && final(discoveries)@ == found,
            Err(e) => r == Err::<(), LookupError>(e),
        },
    decreases tree,
{
    let ghost start = discoveries@;
    match tree {
        ConfigTree::Value(v) => {
            discoveries.insert(lookup, v);
            Ok(())
        },
        ConfigTree::Array(items) => {
            let mut i: usize = 0;
            while i < items.len()
                invariant
                    i <= items.len(),
                    *tree == ConfigTree::Array(*items),
                    start == old(discoveries)@,
                    discoveries.wf(),
                    flat_items(lookup@, items@, i as nat, start) == Ok::<
                        Seq<(Seq<SegmentView>, V)>,
                        LookupError,
                    >(discoveries@),
                decreases items.len() - i,
            {
                let mut key = lookup.to_string();
                key.push('[');
                push_decimal(&mut key, i);
                key.push(']');
                assert(key@ =~= item_text(lookup@, i as nat));
                proof {
                    lemma_items_through(lookup@, items@, items@.len(), (i + 1) as nat, start);
                }
                let place = match LookupBuf::from_str(key.as_str()) {
                    Ok(place) => place,
                    Err(e) => {
                        return Err(e);
                    },
                };
                match flatten_into(place, &items[i], discoveries) {
                    Ok(_) => {},
                    Err(e) => {
                        return Err(e);
                    },
                }
                i += 1;
            }
            Ok(())
        },
        ConfigTree::Table(entries) => {
            let mut i: usize = 0;
            while i < entries.len()
                invariant
                    i <= entries.len(),
                    *tree == ConfigTree::Table(*entries),
                    start == old(discoveries)@,
                    discoveries.wf(),
                    flat_entries(lookup@, entries@, i as nat, start) == Ok::<
                        Seq<(Seq<SegmentView>, V)>,
                        LookupError,
                    >(discoveries@),
                decreases entries.len() - i,
            {
                let mut key = lookup.to_string();
                key.push('.');
                key.append(entries[i].0.as_str());
                assert(key@ =~= entry_text(lookup@, entries@[i as int].0@));
                proof {
                    lemma_entries_through(lookup@, entries@, entries@.len(), (i + 1) as nat, start);
                }
                let place = match LookupBuf::from_str(key.as_str()) {
                    Ok(place) => place,
                    Err(e) => {
                        return Err(e);
                    },
                };
                match flatten_into(place, &entries[i].1, discoveries) {
                    Ok(_) => {},
                    Err(e) => {
                        return Err(e);
                    },
                }
                i += 1;
            }
            Ok(())
        },
    }
}

/// Where the first items of an array fail, the whole array fails in the
/// same way.
pub proof fn lemma_items_through<V>(
    path: Seq<SegmentView>,
    items: Seq<ConfigTree<V>>,
    n: nat,
    k: nat,
    found: Seq<(Seq<SegmentView>, V)>,
)
    requires
        k <= n <= items.len(),
    ensures
        flat_items(path, items, k, found) matches Err(e) ==> flat_items(path, items, n, found)
            == Err::<Seq<(Seq<SegmentView>, V)>, LookupError>(e),
    decreases n,
{
    if k < n {
        lemma_items_through(path, items, (n - 1) as nat, k, found);
    }
}

/// Where the first entries of a table fail, the whole table fails in the
/// same way.
pub proof fn lemma_entries_through<V>(
    path: Seq<SegmentView>,
    entries: Seq<(String, ConfigTree<V>)>,
    n: nat,
    k: nat,
    found: Seq<(Seq<SegmentView>, V)>,
)
    requires
        k <= n <= entries.len(),
    ensures
        flat_entries(path, entries, k, found) matches Err(e) ==> flat_entries(
            path,
            entries,
            n,
            found,
        ) == Err::<Seq<(Seq<SegmentView>, V)>, LookupError>(e),
    decreases n,
{
    if k < n {
        lemma_entries_through(path, entries, (n - 1) as nat, k, found);
    }
}

/// Where the first entries of a table that stands nowhere fail, the whole
/// table fails in the same way.
pub proof fn lemma_table_through<V>(entries: Seq<(String, ConfigTree<V>)>, n: nat, k: nat)
    requires
        k <= n <= entries.len(),
    ensures
        flat_table(entries, k) matches Err(e) ==> flat_table(entries, n) == Err::<
            Seq<(Seq<SegmentView>, V)>,
            LookupError,
        >(e),
    decreases n,
{
    if k < n {
        lemma_table_through(entries, (n - 1) as nat, k);
    }
}

/// Putting a value under a path leaves no path standing twice.
pub proof fn lemma_put_distinct<V>(
    found: Seq<(Seq<SegmentView>, V)>,
    path: Seq<SegmentView>,
    value: V,
)
    requires
        distinct_paths(found),
    ensures
        distinct_paths(put(found, path, value)),
{
    let after = put(found, path, value);
    if !exists|i: int| first_at(found, path, i) {
        assert forall|i: int, j: int| 0 <= i < j < after.len() implies (#[trigger] after[i]).0 != (
        #[trigger] after[j]).0 by {
            if j == found.len() {
                lemma_no_first_means_none(found, path, i);
            }
        }
    }
}

/// Where a path stands nowhere first, it stands nowhere.
pub proof fn lemma_no_first_means_none<V>(
    found: Seq<(Seq<SegmentView>, V)>,
    path: Seq<SegmentView>,
    i: int,
)
    requires
        forall|k: int| !first_at(found, path, k),
        0 <= i < found.len(),
    ensures
        found[i].0 != path,
    decreases i,
{
    if found[i].0 == path {
        assert(!first_at(found, path, i));
        let j = choose|j: int| 0 <= j < i && (#[trigger] found[j]).0 == path;
        lemma_no_first_means_none(found, path, j);
    }
}

/// Flattening a tree leaves no path standing twice.
pub proof fn lemma_flat_distinct<V>(
    path: Seq<SegmentView>,
    tree: ConfigTree<V>,
    found: Seq<(Seq<SegmentView>, V)>,
)
    requires
        distinct_paths(found),
    ensures
        flat(path, tree, found) matches Ok(after) ==> distinct_paths(after),
    decreases tree, 0nat,
{
    match tree {
        ConfigTree::Value(v) => {
            lemma_put_distinct(found, path, v);
        },
        ConfigTree::Array(items) => {
            lemma_flat_items_distinct(path, items@, items@.len(), found);
        },
        ConfigTree::Table(entries) => {
            lemma_flat_entries_distinct(path, entries@, entries@.len(), found);
        },
    }
}

/// Flattening the items of an array leaves no path standing twice.
pub proof fn lemma_flat_items_distinct<V>(
    path: Seq<SegmentView>,
    items: Seq<ConfigTree<V>>,
    n: nat,
    found: Seq<(Seq<SegmentView>, V)>,
)
    requires
        distinct_paths(found),
    ensures
        flat_items(path, items, n, found) matches Ok(after) ==> distinct_paths(after),
    decreases items, n,
{
    if !(n == 0 || n > items.len()) {
        lemma_flat_items_distinct(path, items, (n - 1) as nat, found);
        if let Ok(before) = flat_items(path, items, (n - 1) as nat, found) {
            if let Ok(place) = parse_path(item_text(path, (n - 1) as nat)) {
                lemma_flat_distinct(place, items[n - 1], before);
            }
        }
    }
}

/// Flattening the entries of a table leaves no path standing twice.
pub proof fn lemma_flat_entries_distinct<V>(
    path: Seq<SegmentView>,
    entries: Seq<(String, ConfigTree<V>)>,
    n: nat,
    found: Seq<(Seq<SegmentView>, V)>,
)
    requires
        distinct_paths(found),
    ensures
        flat_entries(path, entries, n, found) matches Ok(after) ==> distinct_paths(after),
    decreases entries, n,
{
    if !(n == 0 || n > entries.len()) {
        lemma_flat_entries_distinct(path, entries, (n - 1) as nat, found);
        if let Ok(before) = flat_entries(path, entries, (n - 1) as nat, found) {
            if let Ok(place) = parse_path(entry_text(path, entries[n - 1].0@)) {
                lemma_flat_distinct(place, entries[n - 1].1, before);
            }
        }
    }
}

/// Flattening a table that stands nowhere leaves no path standing twice.
pub proof fn lemma_flat_table_distinct<V>(entries: Seq<(String, ConfigTree<V>)>, n: nat)
    ensures
        flat_table(entries, n) matches Ok(after) ==> distinct_paths(after),
    decreases n,
{
    if !(n == 0 || n > entries.len()) {
        lemma_flat_table_distinct(entries, (n - 1) as nat);
        if let Ok(before) = flat_table(entries, (n - 1) as nat) {
            lemma_flat_distinct(seq![literal_segment(entries[n - 1].0@)], entries[n - 1].1, before);
        }
    }
}

/// The values of a table, each under the path of its place, in the order in
/// which the paths first stand, and no path twice. The name of an entry of
/// the table itself is taken as it is; below that, the text of each place is
/// read as a path, and the first text that is no path is the error.
pub fn flatten<'a, V>(table: &'a Vec<(String, ConfigTree<V>)>) -> (r: Result<
    Discoveries<'a, V>,
    LookupError,
>)
    ensures
        match flat_table(table@, table@.len()) {
            Ok(found) => r matches Ok(discoveries) && discoveries@ == found,
            Err(e) => r matches Err(x) && x == e,
        },
        r matches Ok(discoveries) ==> discoveries.wf() && distinct_paths(discoveries@),
{
    let mut discoveries: Discoveries<'a, V> = Discoveries::new();
    let mut i: usize = 0;
    proof {
        lemma_flat_table_distinct(table@, table@.len());
    }
    while i < table.len()
        invariant
            i <= table.len(),
            discoveries.wf(),
            flat_table(table@, i as nat) == Ok::<Seq<(Seq<SegmentView>, V)>, LookupError>(
                discoveries@,
            ),
        decreases table.len() - i,
    {
        proof {
            lemma_table_through(table@, table@.len(), (i + 1) as nat);
        }
        let lookup = LookupBuf::from_name(table[i].0.as_str());
        match flatten_into(lookup, &table[i].1, &mut discoveries) {
            Ok(_) => {},
            Err(e) => {
                return Err(e);
            },
        }
        i += 1;
    }
    Ok(discoveries)
}

} // verus!
