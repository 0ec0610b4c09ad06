//! A data frame: one index and named columns of its length. The columns are
//! kept in the order of their names; a name that comes again replaces the
//! column held under it.

use vstd::prelude::*;
use fp_columnar::{Column, ColumnError};
use fp_types::Scalar;
use crate::align::{
    align_union, lemma_union_holds_both, position_map, union_labels, validate_alignment_plan,
    AlignmentPlan,
};
use crate::column::{column_values, is_reindex_of, reindexed};
use crate::label::{
    first_position, lemma_first_position, lemma_first_position_is, lemma_first_position_none,
    Index, LabelView,
};
use crate::names::{
    compare_names, lemma_name_irreflexive, lemma_name_total, lemma_name_transitive, name_before,
    NameOrder,
};
use crate::series::{FrameError, Series};

verus! {

/// A named column, the name taken by its view.
pub type Entry = (Seq<char>, Column);

/// The entries of a vector, each name taken by its view.
pub open spec fn entry_views(entries: Seq<(String, Column)>) -> Seq<Entry> {
    entries.map_values(|e: (String, Column)| (e.0@, e.1))
}

/// The names of the entries, in order.
pub open spec fn names_of(entries: Seq<Entry>) -> Seq<Seq<char>> {
    entries.map_values(|e: Entry| e.0)
}

/// The entries are in the order of their names, no name twice.
pub open spec fn sorted_by_name(entries: Seq<Entry>) -> bool {
    forall|i: int, j: int|
        0 <= i < j < entries.len() ==> name_before(
            (#[trigger] entries[i]).0,
            (#[trigger] entries[j]).0,
        )
}

/// The place of `name` among names in order: the number of names at the front
/// that come before it.
pub open spec fn insert_position(names: Seq<Seq<char>>, name: Seq<char>) -> int
    decreases names.len(),
{
    if names.len() == 0 {
        0
    } else if name_before(names[0], name) {
        1 + insert_position(names.drop_first(), name)
    } else {
        0
    }
}

/// The entries with `column` put under `name`: in the place of the column that
/// the name held, or, where the name is new, at the place of the name in the
/// order of names.
pub open spec fn with_column(entries: Seq<Entry>, name: Seq<char>, column: Column) -> Seq<Entry> {
    match first_position(names_of(entries), name) {
        Some(p) => entries.update(p, (name, column)),
        None => entries.insert(insert_position(names_of(entries), name), (name, column)),
    }
}

/// The entries that come of putting each column of `input` under its name, in
/// order: for a name that occurs more than once, the last column wins.
pub open spec fn collected(input: Seq<Entry>) -> Seq<Entry>
    decreases input.len(),
{
    if input.len() == 0 {
        Seq::empty()
    } else {
        with_column(collected(input.drop_last()), input.last().0, input.last().1)
    }
}

/// No name occurs twice.
pub open spec fn names_distinct(entries: Seq<Entry>) -> bool {
    forall|i: int, j: int| 0 <= i < j < entries.len() ==> entries[i].0 != entries[j].0
}

/// Every column has `len` rows.
pub open spec fn columns_fit(entries: Seq<Entry>, len: nat) -> bool {
    forall|i: int| 0 <= i < entries.len() ==> column_values(#[trigger] entries[i].1).len() == len
}

/// The length of the first column that does not have `len` rows.
pub open spec fn first_misfit(entries: Seq<Entry>, len: nat) -> Option<nat>
    decreases entries.len(),
{
    if entries.len() == 0 {
        None
    } else {
        match first_misfit(entries.drop_last(), len) {
            Some(n) => Some(n),
            None => if column_values(entries.last().1).len() != len {
                Some(column_values(entries.last().1).len())
            } else {
                None
            },
        }
    }
}

/// There is no misfit exactly when every column fits.
pub proof fn lemma_first_misfit(entries: Seq<Entry>, len: nat)
    ensures
        first_misfit(entries, len) is None <==> columns_fit(entries, len),
    decreases entries.len(),
{
    if entries.len() > 0 {
        let t = entries.drop_last();
        lemma_first_misfit(t, len);
        assert forall|j: int| 0 <= j < t.len() implies t[j] == entries[j] by {}
        if first_misfit(entries, len) is None {
            assert forall|i: int| 0 <= i < entries.len() implies column_values(
                #[trigger] entries[i].1,
            ).len() == len by {
                if i < t.len() {
                    assert(t[i] == entries[i]);
                }
            }
        } else if first_misfit(t, len) is None {
            assert(column_values(entries[entries.len() - 1].1).len() != len);
        } else {
            let j = choose|j: int|
                0 <= j < t.len() && column_values(#[trigger] t[j].1).len() != len;
            assert(column_values(entries[j].1).len() != len);
        }
    }
}

/// The place of a name is the position before which all names come before
/// it and at which the name does not.
pub proof fn lemma_insert_position(names: Seq<Seq<char>>, name: Seq<char>, p: int)
    requires
        0 <= p <= names.len(),
        forall|j: int| 0 <= j < p ==> name_before(#[trigger] names[j], name),
        p < names.len() ==> !name_before(names[p], name),
    ensures
        insert_position(names, name) == p,
    decreases p,
{
    if p > 0 {
        let rest = names.drop_first();
        assert(name_before(names[0], name));
        assert forall|j: int| 0 <= j < p - 1 implies name_before(#[trigger] rest[j], name) by {
            assert(rest[j] == names[j + 1]);
        }
        if p - 1 < rest.len() {
            assert(rest[p - 1] == names[p]);
        }
        lemma_insert_position(rest, name, p - 1);
    }
}

/// In entries in name order, a name that is new has its place between the
/// names that come before it and the names that it comes before.
pub proof fn lemma_place_splits(entries: Seq<Entry>, name: Seq<char>)
    requires
        sorted_by_name(entries),
        first_position(names_of(entries), name) is None,
    ensures
        ({
            let q = insert_position(names_of(entries), name);
            &&& 0 <= q <= entries.len()
            &&& forall|j: int| 0 <= j < q ==> name_before((#[trigger] entries[j]).0, name)
            &&& forall|j: int| q <= j < entries.len() ==> name_before(name, (#[trigger] entries[j]).0)
        }),
    decreases entries.len(),
{
    let names = names_of(entries);
    lemma_first_position(names, name);
    if entries.len() > 0 {
        let rest = entries.drop_first();
        assert(names_of(rest) =~= names.drop_first());
        assert(names[0] == entries[0].0);
        assert(names[0] != name);
        lemma_name_total(names[0], name);
        if name_before(names[0], name) {
            assert(sorted_by_name(rest)) by {
                assert forall|i: int, j: int| 0 <= i < j < rest.len() implies name_before(
                    (#[trigger] rest[i]).0,
                    (#[trigger] rest[j]).0,
                ) by {
                    assert(rest[i] == entries[i + 1]);
                    assert(rest[j] == entries[j + 1]);
                }
            }
            assert(first_position(names_of(rest), name) is None) by {
                lemma_first_position(names_of(rest), name);
                if first_position(names_of(rest), name) is Some {
                    let k = first_position(names_of(rest), name)->Some_0;
                    assert(names[k + 1] == names_of(rest)[k]);
                }
            }
            lemma_place_splits(rest, name);
            let q = insert_position(names, name);
            assert forall|j: int| 0 <= j < q implies name_before((#[trigger] entries[j]).0, name) by {
                if j > 0 {
                    assert(entries[j] == rest[j - 1]);
                }
            }
            assert forall|j: int| q <= j < entries.len() implies name_before(
                name,
                (#[trigger] entries[j]).0,
            ) by {
                assert(entries[j] == rest[j - 1]);
            }
        } else {
            assert forall|j: int| 0 <= j < entries.len() implies name_before(
                name,
                (#[trigger] entries[j]).0,
            ) by {
                if j > 0 {
                    lemma_name_transitive(name, entries[0].0, entries[j].0);
                }
            }
        }
    }
}

/// Putting a column under a name keeps the entries in name order, and keeps
/// the columns fitting where the new one fits.
pub proof fn lemma_with_column(entries: Seq<Entry>, name: Seq<char>, column: Column, len: nat)
    requires
        sorted_by_name(entries),
    ensures
        sorted_by_name(with_column(entries, name, column)),
        columns_fit(entries, len) && column_values(column).len() == len ==> columns_fit(
            with_column(entries, name, column),
            len,
        ),
{
    let names = names_of(entries);
    let out = with_column(entries, name, column);
    lemma_first_position(names, name);
    match first_position(names, name) {
        Some(p) => {
            assert(names[p] == entries[p].0);
            assert forall|i: int, j: int| 0 <= i < j < out.len() implies name_before(
                (#[trigger] out[i]).0,
                (#[trigger] out[j]).0,
            ) by {
                assert(out[i].0 == entries[i].0);
                assert(out[j].0 == entries[j].0);
            }
            if columns_fit(entries, len) && column_values(column).len() == len {
                assert forall|i: int| 0 <= i < out.len() implies column_values(
                    #[trigger] out[i].1,
                ).len() == len by {
                    if i != p {
                        assert(out[i] == entries[i]);
                    }
                }
            }
        },
        None => {
            lemma_place_splits(entries, name);
            let q = insert_position(names, name);
            assert forall|i: int, j: int| 0 <= i < j < out.len() implies name_before(
                (#[trigger] out[i]).0,
                (#[trigger] out[j]).0,
            ) by {
                if i < q {
                    assert(out[i] == entries[i]);
                } else if i > q {
                    assert(out[i] == entries[i - 1]);
                }
                if j < q {
                    assert(out[j] == entries[j]);
                } else if j > q {
                    assert(out[j] == entries[j - 1]);
                }
            }
            if columns_fit(entries, len) && column_values(column).len() == len {
                assert forall|i: int| 0 <= i < out.len() implies column_values(
                    #[trigger] out[i].1,
                ).len() == len by {
                    if i < q {
                        assert(out[i] == entries[i]);
                    } else if i > q {
                        assert(out[i] == entries[i - 1]);
                    }
                }
            }
        },
    }
}

/// The entries collected of any input are in name order.
pub proof fn lemma_collected_sorted(input: Seq<Entry>)
    ensures
        sorted_by_name(collected(input)),
    decreases input.len(),
{
    if input.len() > 0 {
        lemma_collected_sorted(input.drop_last());
        lemma_with_column(collected(input.drop_last()), input.last().0, input.last().1, 0);
    }
}

/// Entries in name order hold no name twice.
pub proof fn lemma_sorted_distinct(entries: Seq<Entry>)
    requires
        sorted_by_name(entries),
    ensures
        names_distinct(entries),
{
    assert forall|i: int, j: int| 0 <= i < j < entries.len() implies entries[i].0
        != entries[j].0 by {
        lemma_name_irreflexive(entries[i].0);
    }
}

/// The column that the entries hold under `name`.
pub open spec fn column_under(entries: Seq<Entry>, name: Seq<char>) -> Option<Column> {
    match first_position(names_of(entries), name) {
        Some(p) => Some(entries[p].1),
        None => None,
    }
}

/// The last column that `input` gives under `name`.
pub open spec fn last_under(input: Seq<Entry>, name: Seq<char>) -> Option<Column>
    decreases input.len(),
{
    if input.len() == 0 {
        None
    } else if input.last().0 == name {
        Some(input.last().1)
    } else {
        last_under(input.drop_last(), name)
    }
}

/// After a column is put under a name, that name holds the column and every
/// other name holds what it held.
pub proof fn lemma_with_column_holds(
    entries: Seq<Entry>,
    name: Seq<char>,
    column: Column,
    other: Seq<char>,
)
    ensures
        column_under(with_column(entries, name, column), other) == if other == name {
            Some(column)
        } else {
            column_under(entries, other)
        },
{
    let names = names_of(entries);
    let out = with_column(entries, name, column);
    let out_names = names_of(out);
    lemma_first_position(names, name);
    lemma_first_position(names, other);
    match first_position(names, name) {
        Some(p) => {
            assert(out_names =~= names) by {
                assert forall|i: int| 0 <= i < names.len() implies out_names[i] == names[i] by {
                    if i != p {
                        assert(out[i] == entries[i]);
                    }
                }
            }
            if other != name && first_position(names, other) is Some {
                let k = first_position(names, other)->Some_0;
                assert(out[k] == entries[k]);
            }
        },
        None => {
            let q = insert_position(names, name);
            lemma_insert_position_in_range(names, name);
            assert(out_names =~= names.insert(q, name));
            if other == name {
                assert forall|j: int| 0 <= j < q implies out_names[j] != name by {
                    assert(out_names[j] == names[j]);
                }
                lemma_first_position_is(out_names, name, q);
            } else {
                match first_position(names, other) {
                    Some(k) => {
                        let moved = if k < q {
                            k
                        } else {
                            k + 1
                        };
                        assert(out_names[moved] == other);
                        assert forall|j: int| 0 <= j < moved implies out_names[j] != other by {
                            if j < q {
                                assert(out_names[j] == names[j]);
                            } else if j > q {
                                assert(out_names[j] == names[j - 1]);
                            }
                        }
                        lemma_first_position_is(out_names, other, moved);
                        assert(out[moved] == entries[k]);
                    },
                    None => {
                        assert forall|j: int| 0 <= j < out_names.len() implies out_names[j]
                            != other by {
                            if j < q {
                                assert(out_names[j] == names[j]);
                            } else if j > q {
                                assert(out_names[j] == names[j - 1]);
                            }
                        }
                        lemma_first_position_none(out_names, other);
                    },
                }
            }
        },
    }
}

/// The place of a name is a position of the names, or the one after the last.
pub proof fn lemma_insert_position_in_range(names: Seq<Seq<char>>, name: Seq<char>)
    ensures
        0 <= insert_position(names, name) <= names.len(),
    decreases names.len(),
{
    if names.len() > 0 {
        lemma_insert_position_in_range(names.drop_first(), name);
    }
}

/// The entries collected of an input hold under every name the last column
/// that the input gives under it.
pub proof fn lemma_collected_holds_last(input: Seq<Entry>, name: Seq<char>)
    ensures
        column_under(collected(input), name) == last_under(input, name),
    decreases input.len(),
{
    if input.len() > 0 {
        lemma_collected_holds_last(input.drop_last(), name);
        lemma_with_column_holds(
            collected(input.drop_last()),
            input.last().0,
            input.last().1,
            name,
        );
    } else {
        assert(names_of(collected(input)) =~= Seq::<Seq<char>>::empty());
    }
}

/// The union of several indices: the first as it stands, then, for each
/// further one in turn, its labels that are not yet in the union.
pub open spec fn union_of_all(indices: Seq<Seq<LabelView>>) -> Seq<LabelView>
    decreases indices.len(),
{
    if indices.len() == 0 {
        Seq::empty()
    } else if indices.len() == 1 {
        indices[0]
    } else {
        union_labels(union_of_all(indices.drop_last()), indices.last())
    }
}

/// The indices of the series, in order.
pub open spec fn index_views(list: Seq<Series>) -> Seq<Seq<LabelView>> {
    list.map_values(|s: Series| s.index()@)
}

/// The column of a series, reindexed onto `union`.
pub open spec fn aligned_column(s: Series, union: Seq<LabelView>) -> Result<Column, ColumnError> {
    reindexed(*s.column(), position_map(union, s.index()@))
}

/// The error of the first series whose column cannot be reindexed onto
/// `union`.
pub open spec fn first_failure(list: Seq<Series>, union: Seq<LabelView>) -> Option<ColumnError>
    decreases list.len(),
{
    if list.len() == 0 {
        None
    } else {
        match first_failure(list.drop_last(), union) {
            Some(e) => Some(e),
            None => match aligned_column(list.last(), union) {
                Err(e) => Some(e),
                Ok(_) => None,
            },
        }
    }
}

/// Each series' name with its column reindexed onto `union`.
pub open spec fn aligned_entries(list: Seq<Series>, union: Seq<LabelView>) -> Seq<Entry> {
    list.map_values(|s: Series| (s.name_view(), aligned_column(s, union)->Ok_0))
}

/// The column of each series, reindexed onto `union`, holds at every label of
/// the union the value that the series holds at that label, and a missing
/// value where the series does not hold the label.
pub open spec fn columns_follow(list: Seq<Series>, union: Seq<LabelView>) -> bool {
    forall|k: int|
        0 <= k < list.len() ==> is_reindex_of(
            column_values(aligned_column(#[trigger] list[k], union)->Ok_0),
            list[k].values_view(),
            position_map(union, list[k].index()@),
        )
}

/// Every label of every index is in the union of all of them.
pub proof fn lemma_union_of_all_holds(indices: Seq<Seq<LabelView>>, k: int, label: LabelView)
    requires
        0 <= k < indices.len(),
        indices[k].contains(label),
    ensures
        union_of_all(indices).contains(label),
    decreases indices.len(),
{
    if indices.len() > 1 {
        let rest = indices.drop_last();
        if k < rest.len() {
            assert(rest[k] == indices[k]);
            lemma_union_of_all_holds(rest, k, label);
        }
        lemma_union_holds_both(union_of_all(rest), indices.last(), label);
    }
}

/// Every label of the union of all indices is in one of them.
pub proof fn lemma_union_of_all_from(indices: Seq<Seq<LabelView>>, label: LabelView)
    requires
        union_of_all(indices).contains(label),
    ensures
        exists|k: int| 0 <= k < indices.len() && (#[trigger] indices[k]).contains(label),
    decreases indices.len(),
{
    if indices.len() == 0 {
        assert(false);
    } else if indices.len() == 1 {
        assert(indices[0].contains(label));
    } else {
        let rest = indices.drop_last();
        lemma_union_from(union_of_all(rest), indices.last(), label);
        if union_of_all(rest).contains(label) {
            lemma_union_of_all_from(rest, label);
            let k = choose|k: int| 0 <= k < rest.len() && (#[trigger] rest[k]).contains(label);
            assert(indices[k] == rest[k]);
        } else {
            assert(indices[indices.len() - 1].contains(label));
        }
    }
}

/// Every label of a union is in one of its two sources.
pub proof fn lemma_union_from(left: Seq<LabelView>, right: Seq<LabelView>, label: LabelView)
    requires
        union_labels(left, right).contains(label),
    ensures
        left.contains(label) || right.contains(label),
    decreases right.len(),
{
    if right.len() > 0 {
        let r0 = right.drop_last();
        let before = union_labels(left, r0);
        if before.contains(label) {
            lemma_union_from(left, r0, label);
            if r0.contains(label) {
                let k = choose|k: int| 0 <= k < r0.len() && r0[k] == label;
                assert(right[k] == label);
            }
        } else {
            let u = union_labels(left, right);
            let k = choose|k: int| 0 <= k < u.len() && u[k] == label;
            if k < before.len() {
                assert(before[k] == label);
            }
            assert(right[right.len() - 1] == label);
        }
    }
}

/// A union with a source whose labels it holds already is itself.
pub proof fn lemma_union_absorbs(left: Seq<LabelView>, right: Seq<LabelView>)
    requires
        forall|i: int| 0 <= i < right.len() ==> left.contains(#[trigger] right[i]),
    ensures
        union_labels(left, right) == left,
    decreases right.len(),
{
    if right.len() > 0 {
        let r0 = right.drop_last();
        assert forall|i: int| 0 <= i < r0.len() implies left.contains(#[trigger] r0[i]) by {
            assert(r0[i] == right[i]);
        }
        lemma_union_absorbs(left, r0);
        assert(left.contains(right[right.len() - 1]));
    }
}

/// One index and named columns of its length.
#[derive(Debug, PartialEq)]
pub struct DataFrame {
    index: Index,
    entries: Vec<(String, Column)>,
}

/// The place of `name` among the entries, and whether the entry at that
/// place is under the name.
fn find_place(entries: &Vec<(String, Column)>, name: &str) -> (r: (usize, bool))
    requires
        sorted_by_name(entry_views(entries@)),
    ensures
        r.0 <= entries@.len(),
        r.1 ==> first_position(names_of(entry_views(entries@)), name@) == Some(r.0 as int),
        !r.1 ==> first_position(names_of(entry_views(entries@)), name@) is None
            && insert_position(names_of(entry_views(entries@)), name@) == r.0,
{
    let ghost views = entry_views(entries@);
    let ghost names = names_of(views);
    let mut i: usize = 0;
    while i < entries.len()
        invariant
            i <= entries.len(),
            views == entry_views(entries@),
            names == names_of(views),
            sorted_by_name(views),
            forall|j: int| 0 <= j < i ==> name_before(#[trigger] names[j], name@),
        decreases entries.len() - i,
    {
        assert(names[i as int] == entries@[i as int].0@);
        proof {
            assert forall|j: int| 0 <= j < i implies names[j] != name@ by {
                lemma_name_irreflexive(name@);
            }
        }
        match compare_names(entries[i].0.as_str(), name) {
            NameOrder::Before => {},
            NameOrder::Same => {
                proof {
                    lemma_first_position_is(names, name@, i as int);
                }
                return (i, true);
            },
            NameOrder::After => {
                proof {
                    lemma_name_total(names[i as int], name@);
                    assert forall|j: int| 0 <= j < names.len() implies names[j] != name@ by {
                        lemma_name_irreflexive(name@);
                        if j > i {
                            assert(views[i as int].0 == names[i as int]);
                            assert(views[j].0 == names[j]);
                            lemma_name_transitive(name@, names[i as int], names[j]);
                        }
                    }
                    lemma_first_position_none(names, name@);
                    lemma_insert_position(names, name@, i as int);
                }
                return (i, false);
            },
        }
        i += 1;
    }
    proof {
        assert forall|j: int| 0 <= j < names.len() implies names[j] != name@ by {
            lemma_name_irreflexive(name@);
        }
        lemma_first_position_none(names, name@);
        lemma_insert_position(names, name@, i as int);
    }
    (i, false)
}

/// Puts `column` under `name`.
fn put_entry(entries: &mut Vec<(String, Column)>, name: String, column: Column)
    requires
        sorted_by_name(entry_views(old(entries)@)),
    ensures
        entry_views(final(entries)@) == with_column(entry_views(old(entries)@), name@, column),
{
    let (place, found) = find_place(entries, name.as_str());
    proof {
        lemma_first_position(names_of(entry_views(entries@)), name@);
    }
    if found {
        entries.set(place, (name, column));
        assert(entry_views(entries@) =~= with_column(entry_views(old(entries)@), name@, column));
    } else {
        entries.insert(place, (name, column));
        assert(entry_views(entries@) =~= with_column(entry_views(old(entries)@), name@, column));
    }
}

/// The scalars of the column of each entry, in order.
pub open spec fn values_of(entries: Seq<Entry>) -> Seq<Seq<Scalar>> {
    entries.map_values(|e: Entry| column_values(e.1))
}

impl Clone for DataFrame {
    fn clone(&self) -> (r: Self)
        ensures
            r.index()@ == self.index()@,
            names_of(r.entries_view()) == names_of(self.entries_view()),
            values_of(r.entries_view()) == values_of(self.entries_view()),
    {
        proof {
            use_type_invariant(self);
        }
        let ghost views = entry_views(self.entries@);
        let mut entries: Vec<(String, Column)> = Vec::new();
        let mut i: usize = 0;
        while i < self.entries.len()
            invariant
                i <= self.entries.len(),
                views == entry_views(self.entries@),
                entries@.len() == i,
                forall|j: int|
                    0 <= j < i ==> (#[trigger] entry_views(entries@)[j]).0 == views[j].0
                        && column_values(entry_views(entries@)[j].1) == column_values(views[j].1),
            decreases self.entries.len() - i,
        {
            let ghost before = entries@;
            let name = self.entries[i].0.clone();
            let column = self.entries[i].1.clone();
            entries.push((name, column));
            proof {
                assert(views[i as int] == (self.entries@[i as int].0@, self.entries@[i as int].1));
                assert forall|j: int| 0 <= j < i + 1 implies (#[trigger] entry_views(entries@)[j]).0
                    == views[j].0 && column_values(entry_views(entries@)[j].1) == column_values(
                    views[j].1,
                ) by {
                    if j < i {
                        assert(entry_views(entries@)[j] == entry_views(before)[j]);
                    }
                }
            }
            i += 1;
        }
        let index = self.index.clone();
        proof {
            let copied = entry_views(entries@);
            assert(names_of(copied) =~= names_of(views));
            assert(values_of(copied) =~= values_of(views));
            assert(sorted_by_name(copied)) by {
                assert forall|a: int, b: int| 0 <= a < b < copied.len() implies name_before(
                    (#[trigger] copied[a]).0,
                    (#[trigger] copied[b]).0,
                ) by {
                    assert(name_before(views[a].0, views[b].0));
                }
            }
            assert(columns_fit(copied, index@.len())) by {
                assert forall|a: int| 0 <= a < copied.len() implies column_values(
                    #[trigger] copied[a].1,
                ).len() == index@.len() by {
                    assert(column_values(views[a].1).len() == index@.len());
                }
            }
        }
        DataFrame { index, entries }
    }
}

impl DataFrame {
    #[verifier::type_invariant]
    closed spec fn well_formed(self) -> bool {
        &&& sorted_by_name(entry_views(self.entries@))
        &&& columns_fit(entry_views(self.entries@), self.index@.len())
    }

    pub closed spec fn spec_index(&self) -> &Index {
        &self.index
    }

    /// The named columns, in order, each name taken by its view.
    pub closed spec fn entries_view(&self) -> Seq<Entry> {
        entry_views(self.entries@)
    }

    /// The frame of the given columns over `index`. A name that occurs more
    /// than once holds the last column given under it. Fails where a column
    /// that is held differs from the index in length.
    pub fn new(index: Index, columns: Vec<(String, Column)>) -> (r: Result<DataFrame, FrameError>)
        ensures
            ({
                let entries = collected(entry_views(columns@));
                match first_misfit(entries, index@.len()) {
                    Some(n) => r matches Err(FrameError::LengthMismatch { index_len, column_len })
                        && index_len == index@.len() && column_len == n,
                    None => r matches Ok(f) && f.index()@ == index@ && f.entries_view() == entries,
                }
            }),
    {
        let ghost input = entry_views(columns@);
        let mut entries: Vec<(String, Column)> = Vec::new();
        assert(input.take(0) =~= Seq::<Entry>::empty());
        for entry in it: columns
            invariant
                input == entry_views(it.seq()),
                entry_views(entries@) == collected(input.take(it.index() as int)),
        {
            proof {
                let k = it.index() as int;
                assert(input.take(k + 1).drop_last() =~= input.take(k));
                assert(input.take(k + 1).last() == input[k]);
                lemma_collected_sorted(input.take(k));
            }
            put_entry(&mut entries, entry.0, entry.1);
        }
        assert(input.take(input.len() as int) =~= input);
        proof {
            lemma_collected_sorted(input);
        }
        let n = index.len();
        let ghost views = entry_views(entries@);
        let mut i: usize = 0;
        assert(views.take(0) =~= Seq::<Entry>::empty());
        while i < entries.len()
            invariant
                i <= entries.len(),
                views == entry_views(entries@),
                views == collected(input),
                input == entry_views(columns@),
                n == index@.len(),
                first_misfit(views.take(i as int), n as nat) is None,
            decreases entries.len() - i,
        {
            assert(views.take(i + 1).drop_last() =~= views.take(i as int));
            assert(views.take(i + 1).last() == views[i as int]);
            let column_len = entries[i].1.len();
            assert(views[i as int].1 == entries@[i as int].1);
            if column_len != n {
                proof {
                    assert(first_misfit(views.take(i + 1), n as nat) == Some(column_len as nat));
                    lemma_misfit_extends(views, n as nat, i + 1);
                }
                return Err(FrameError::LengthMismatch { index_len: n, column_len });
            }
            i += 1;
        }
        proof {
            assert(views.take(i as int) =~= views);
            lemma_first_misfit(views, n as nat);
        }
        Ok(DataFrame { index, entries })
    }

    /// The frame of the given series: its index is the union of their indices,
    /// computed once, and each column is reindexed once onto that union.
    pub fn from_series(series_list: Vec<Series>) -> (r: Result<DataFrame, FrameError>)
        ensures
            ({
                let union = union_of_all(index_views(series_list@));
                match first_failure(series_list@, union) {
                    Some(e) => r matches Err(FrameError::Column(e2)) && e2 == e,
                    None => r matches Ok(f) && f.index()@ == union && f.entries_view() == collected(
                        aligned_entries(series_list@, union),
                    ) && columns_fit(f.entries_view(), union.len()) && columns_follow(
                        series_list@,
                        union,
                    ),
                }
            }),
    {
        let ghost list = series_list@;
        let ghost indices = index_views(list);
        if series_list.len() == 0 {
            let index = Index::new(Vec::new());
            let entries: Vec<(String, Column)> = Vec::new();
            assert(aligned_entries(list, index@) =~= Seq::<Entry>::empty());
            assert(entry_views(entries@) =~= Seq::<Entry>::empty());
            return Ok(DataFrame { index, entries });
        }
        let mut union_index = series_list[0].index().clone();
        assert(indices.take(1) =~= seq![list[0].index()@]);
        let mut k: usize = 1;
        while k < series_list.len()
            invariant
                1 <= k <= series_list.len(),
                list == series_list@,
                indices == index_views(list),
                union_index@ == union_of_all(indices.take(k as int)),
            decreases series_list.len() - k,
        {
            let plan = align_union(&union_index, series_list[k].index());
            match validate_alignment_plan(&plan, union_index.len(), series_list[k].index().len()) {
                Err(e) => {
                    return Err(FrameError::Index(e));
                },
                Ok(_) => {},
            }
            proof {
                assert(indices.take(k + 1).drop_last() =~= indices.take(k as int));
                assert(indices.take(k + 1).last() == list[k as int].index()@);
            }
            let AlignmentPlan { union_index: next, left_positions: _, right_positions: _ } = plan;
            union_index = next;
            k += 1;
        }
        assert(indices.take(k as int) =~= indices);
        let ghost union = union_index@;
        let mut entries: Vec<(String, Column)> = Vec::new();
        let mut j: usize = 0;
        assert(list.take(0) =~= Seq::<Series>::empty());
        assert(aligned_entries(list.take(0), union) =~= Seq::<Entry>::empty());
        while j < series_list.len()
            invariant
                j <= series_list.len(),
                list == series_list@,
                indices == index_views(list),
                union == union_index@,
                union == union_of_all(indices),
                first_failure(list.take(j as int), union) is None,
                columns_follow(list.take(j as int), union),
                entry_views(entries@) == collected(aligned_entries(list.take(j as int), union)),
                sorted_by_name(entry_views(entries@)),
                columns_fit(entry_views(entries@), union.len()),
            decreases series_list.len() - j,
        {
            let series = &series_list[j];
            let plan = align_union(&union_index, series.index());
            proof {
                assert forall|i: int| 0 <= i < series.index()@.len() implies union.contains(
                    #[trigger] series.index()@[i],
                ) by {
                    assert(indices[j as int] == series.index()@);
                    lemma_union_of_all_holds(indices, j as int, series.index()@[i]);
                }
                lemma_union_absorbs(union, series.index()@);
                assert(list.take(j + 1).drop_last() =~= list.take(j as int));
                assert(list.take(j + 1).last() == list[j as int]);
                assert(aligned_entries(list.take(j + 1), union).drop_last() =~= aligned_entries(
                    list.take(j as int),
                    union,
                ));
            }
            let column = match series.column().reindex_by_positions(
                plan.right_positions.as_slice(),
            ) {
                Ok(c) => c,
                Err(e) => {
                    proof {
                        lemma_failure_extends(list, union, j + 1);
                        assert(list.take(list.len() as int) =~= list);
                    }
                    return Err(FrameError::Column(e));
                },
            };
            proof {
                lemma_with_column(
                    entry_views(entries@),
                    series.name_view(),
                    column,
                    union.len(),
                );
                assert forall|k: int| 0 <= k < j + 1 implies is_reindex_of(
                    column_values(aligned_column(#[trigger] list.take(j + 1)[k], union)->Ok_0),
                    list.take(j + 1)[k].values_view(),
                    position_map(union, list.take(j + 1)[k].index()@),
                ) by {
                    if k < j {
                        assert(list.take(j + 1)[k] == list.take(j as int)[k]);
                    }
                }
            }
            put_entry(&mut entries, series.name().to_owned(), column);
            j += 1;
        }
        assert(list.take(j as int) =~= list);
        Ok(DataFrame { index: union_index, entries })
    }

    #[verifier::when_used_as_spec(spec_index)]
    pub fn index(&self) -> (r: &Index)
        ensures
            r == self.index(),
    {
        &self.index
    }

    /// The named columns, in the order of their names.
    pub fn columns(&self) -> (r: &Vec<(String, Column)>)
        ensures
            entry_views(r@) == self.entries_view(),
            sorted_by_name(self.entries_view()),
            columns_fit(self.entries_view(), self.index()@.len()),
    {
        proof {
            use_type_invariant(self);
        }
        &self.entries
    }

    /// The column held under `name`.
    pub fn column(&self, name: &str) -> (r: Option<&Column>)
        ensures
            match column_under(self.entries_view(), name@) {
                Some(c) => r == Some(&c),
                None => r is None,
            },
    {
        proof {
            use_type_invariant(self);
        }
        let (place, found) = find_place(&self.entries, name);
        if found {
            proof {
                lemma_first_position(names_of(self.entries_view()), name@);
            }
            Some(&self.entries[place].1)
        } else {
            None
        }
    }
}

/// Once a prefix holds a column that does not fit, the first misfit of the
/// whole sequence is that of the prefix.
proof fn lemma_misfit_extends(entries: Seq<Entry>, len: nat, k: int)
    requires
        0 <= k <= entries.len(),
        first_misfit(entries.take(k), len) is Some,
    ensures
        first_misfit(entries, len) == first_misfit(entries.take(k), len),
    decreases entries.len() - k,
{
    if k < entries.len() {
        assert(entries.take(k + 1).drop_last() =~= entries.take(k));
        lemma_misfit_extends(entries, len, k + 1);
    } else {
        assert(entries.take(k) =~= entries);
    }
}

/// Once a prefix holds a series whose column cannot be reindexed, the first
/// failure of the whole list is that of the prefix.
proof fn lemma_failure_extends(list: Seq<Series>, union: Seq<LabelView>, k: int)
    requires
        0 <= k <= list.len(),
        first_failure(list.take(k), union) is Some,
    ensures
        first_failure(list, union) == first_failure(list.take(k), union),
    decreases list.len() - k,
{
    if k < list.len() {
        assert(list.take(k + 1).drop_last() =~= list.take(k));
        lemma_failure_extends(list, union, k + 1);
    } else {
        assert(list.take(k) =~= list);
    }
}

} // verus!
