//! Group-by-sum: the values of a series, summed for each distinct key of
//! another series, the groups in the order in which their keys are first seen.

use vstd::prelude::*;
use fp_columnar::{Column, ColumnError};
use fp_runtime::EvidenceLedger;
use fp_types::Scalar;
use crate::align::{
    align_union, index_error_text, position_map, union_labels, validate_alignment_plan,
    IndexError,
};
use crate::arena::{group_rows_arena, group_rows_dense_arena};
use crate::column::{
    column_error_text, column_of, column_values, describe_column_error, is_reindex_of, reindexed,
};
use crate::grouping::{
    distinct, fingerprint, first_rows_of, is_grouping_of, key_is_plain, key_views,
    lemma_first_rows, lemma_rows_with, member_views, members_of, row_key, row_keys, rows_with,
    scalar_keys, GroupKey, Grouping, KeyView,
};
use crate::label::{has_duplicate_labels, label_views, Index, IndexLabel, LabelView};
use crate::paths::{dense_applies, group_rows, group_rows_dense};
use crate::policy::RuntimePolicy;
use crate::scalar::{
    all_summable, datum_has_float, datum_is_missing, display_scalar, float_sum, read_scalar,
    scalar_datum, scalar_text, DatumView,
};
use crate::series::{frame_error_text, FrameError, Series};

verus! {

/// How keys are treated.
#[derive(Debug, Clone, Copy, PartialEq, Eq)]
pub struct GroupByOptions {
    /// Whether rows whose key is missing are dropped.
    pub dropna: bool,
}

impl Default for GroupByOptions {
    fn default() -> (r: Self)
        ensures
            r.dropna,
    {
        GroupByOptions { dropna: true }
    }
}

/// Why a group-by fails.
#[derive(Debug)]
pub enum GroupByError {
    Frame(FrameError),
    Index(IndexError),
    Column(ColumnError),
}

/// What a group-by error says: what the error in it says.
pub open spec fn groupby_error_text(e: GroupByError) -> Seq<char> {
    match e {
        GroupByError::Frame(inner) => frame_error_text(inner),
        GroupByError::Index(inner) => index_error_text(inner),
        GroupByError::Column(inner) => column_error_text(inner),
    }
}

impl GroupByError {
    /// A short text that names what is wrong, with the sizes.
    pub fn message(&self) -> (r: String)
        ensures
            r@ == groupby_error_text(*self),
    {
        match self {
            GroupByError::Frame(inner) => inner.message(),
            GroupByError::Index(inner) => inner.message(),
            GroupByError::Column(inner) => describe_column_error(inner),
        }
    }
}

/// The budget of an arena where none is given.
pub const DEFAULT_ARENA_BUDGET_BYTES: usize = 256 * 1024 * 1024;

/// How a group-by is run: whether its tables may live in an arena, and up to
/// how many estimated bytes.
#[derive(Debug, Clone, Copy, PartialEq, Eq)]
pub struct GroupByExecutionOptions {
    pub use_arena: bool,
    pub arena_budget_bytes: usize,
}

impl Default for GroupByExecutionOptions {
    fn default() -> (r: Self)
        ensures
            r.use_arena,
            r.arena_budget_bytes == DEFAULT_ARENA_BUDGET_BYTES,
    {
        GroupByExecutionOptions { use_arena: true, arena_budget_bytes: DEFAULT_ARENA_BUDGET_BYTES }
    }
}

/// How a group-by was run.
#[derive(Debug, Clone, Copy, PartialEq, Eq)]
pub struct GroupByExecutionTrace {
    pub used_arena: bool,
    pub input_rows: usize,
    pub estimated_bytes: usize,
}

/// The bytes that are counted for one row: a float sum, a flag, an integer
/// key, and the overhead of one entry of a hash map.
pub const ESTIMATED_BYTES_PER_ROW: usize = 8 + 1 + 8 + 64;

/// The estimate for `rows` rows: the bytes of one row times the rows, or the
/// greatest number where that does not fit.
pub open spec fn estimated_bytes(rows: usize) -> usize {
    if rows * ESTIMATED_BYTES_PER_ROW > usize::MAX {
        usize::MAX
    } else {
        (rows * ESTIMATED_BYTES_PER_ROW) as usize
    }
}

/// Estimates the bytes that the tables of a group-by of `input_rows` rows
/// take.
pub fn estimate_groupby_intermediate_bytes(input_rows: usize) -> (r: usize)
    ensures
        r == estimated_bytes(input_rows),
{
    match input_rows.checked_mul(ESTIMATED_BYTES_PER_ROW) {
        Some(v) => v,
        None => usize::MAX,
    }
}

/// The values at the given rows, in the order of the rows.
pub open spec fn taken(values: Seq<Scalar>, rows: Seq<usize>) -> Seq<Scalar> {
    rows.map_values(|r: usize| values[r as int])
}

/// The label under which the group of a key scalar comes out: an integer as
/// itself, a text as itself, a bool as `true` or `false`, a null of any kind
/// as `<null>`, a float as the text it is displayed as. A scalar of another
/// kind has no label: no group is made of one.
pub open spec fn key_label(s: Scalar) -> LabelView {
    match scalar_datum(s) {
        DatumView::Int64(v) => LabelView::Int64(v),
        DatumView::Utf8(t) => LabelView::Utf8(t),
        DatumView::Bool(b) => LabelView::Utf8(
            if b {
                "true"@
            } else {
                "false"@
            },
        ),
        DatumView::Null(_) => LabelView::Utf8("<null>"@),
        DatumView::Float64(_) => LabelView::Utf8(scalar_text(s)),
        _ => LabelView::Utf8(Seq::empty()),
    }
}

/// Some row that is not dropped has a key that is not of a plain kind.
pub open spec fn has_unsupported_key(keys: Seq<KeyView>, dropna: bool) -> bool {
    exists|i: int|
        0 <= i < keys.len() && row_key(#[trigger] keys[i], dropna) is Some && !key_is_plain(
            keys[i],
        )
}

/// Every scalar is a float.
pub open spec fn all_floats(values: Seq<Scalar>) -> bool {
    forall|i: int| 0 <= i < values.len() ==> scalar_datum(#[trigger] values[i]) is Float64
}

/// The labels of the groups, in first-seen order: for each group, the label of
/// the key scalar of its first row.
pub open spec fn group_labels(keys: Seq<Scalar>, dropna: bool) -> Seq<LabelView> {
    first_rows_of(row_keys(scalar_keys(keys), dropna)).map_values(
        |r: usize| key_label(keys[r as int]),
    )
}

/// Whether a value counts in a sum: it is not missing and has a value as a
/// float.
pub open spec fn counts(value: Scalar) -> bool {
    !datum_is_missing(scalar_datum(value)) && datum_has_float(scalar_datum(value))
}

/// The values that count in a sum, in order.
pub open spec fn present(values: Seq<Scalar>) -> Seq<Scalar>
    decreases values.len(),
{
    if values.len() == 0 {
        Seq::empty()
    } else if counts(values.last()) {
        present(values.drop_last()).push(values.last())
    } else {
        present(values.drop_last())
    }
}

/// The sums of the groups, in first-seen order: for each group, the float sum
/// of the values of its rows that count, in row order.
pub open spec fn group_sums(keys: Seq<Scalar>, values: Seq<Scalar>, dropna: bool) -> Seq<Scalar> {
    members_of(row_keys(scalar_keys(keys), dropna)).map_values(
        |rows: Seq<usize>| float_sum(present(taken(values, rows))),
    )
}

/// `r` is the series named `sum` of the sums under the labels, or the error
/// with which the column of the sums cannot be made.
pub open spec fn is_sum_series(
    r: Result<Series, GroupByError>,
    labels: Seq<LabelView>,
    sums: Seq<Scalar>,
) -> bool {
    match column_of(sums) {
        Err(e) => r matches Err(GroupByError::Column(e2)) && e2 == e,
        Ok(c) => r matches Ok(s) && s.name_view() == "sum"@ && s.index()@ == labels && *s.column()
            == c && s.index()@.len() == s.values_view().len(),
    }
}

/// The keys of the scalars.
pub fn read_keys(keys: &[Scalar]) -> (r: Vec<GroupKey>)
    ensures
        key_views(r@) == scalar_keys(keys@),
{
    let mut out: Vec<GroupKey> = Vec::new();
    let mut i: usize = 0;
    while i < keys.len()
        invariant
            i <= keys.len(),
            key_views(out@) == scalar_keys(keys@).take(i as int),
        decreases keys.len() - i,
    {
        let ghost before = out@;
        out.push(GroupKey::from_scalar(&keys[i]));
        assert(key_views(out@) =~= key_views(before).push(
            fingerprint(scalar_datum(keys@[i as int])),
        ));
        assert(key_views(out@) =~= scalar_keys(keys@).take(i + 1));
        i += 1;
    }
    assert(scalar_keys(keys@).take(i as int) =~= scalar_keys(keys@));
    out
}

/// The float sum of the values at the given rows that count.
fn sum_rows(values: &[Scalar], rows: &Vec<usize>) -> (r: Scalar)
    requires
        forall|j: int| 0 <= j < rows@.len() ==> rows@[j] < values@.len(),
    ensures
        r == float_sum(present(taken(values@, rows@))),
        scalar_datum(r) is Float64,
{
    let ghost all = taken(values@, rows@);
    let mut picked: Vec<Scalar> = Vec::new();
    let mut j: usize = 0;
    assert(all.take(0) =~= Seq::<Scalar>::empty());
    while j < rows.len()
        invariant
            j <= rows.len(),
            all == taken(values@, rows@),
            forall|x: int| 0 <= x < rows@.len() ==> rows@[x] < values@.len(),
            picked@ == present(all.take(j as int)),
        decreases rows.len() - j,
    {
        proof {
            assert(all.take(j + 1).drop_last() =~= all.take(j as int));
            assert(all.take(j + 1).last() == values@[rows@[j as int] as int]);
        }
        let value = &values[rows[j]];
        let datum = read_scalar(value);
        if !datum.is_missing() && datum.has_float() {
            picked.push(value.clone());
        }
        j += 1;
    }
    proof {
        assert(all.take(j as int) =~= all);
        lemma_present_summable(all);
    }
    fp_types::nansum(picked.as_slice())
}

/// The label under which the group of a key of a plain kind comes out.
fn label_of_key(key: &GroupKey, scalar: &Scalar) -> (r: IndexLabel)
    requires
        key@ == fingerprint(scalar_datum(*scalar)),
        key_is_plain(key@),
    ensures
        r@ == key_label(*scalar),
{
    match key {
        GroupKey::Int64(v) => IndexLabel::Int64(*v),
        GroupKey::Utf8(s) => IndexLabel::Utf8(s.clone()),
        GroupKey::Bool(b) => {
            if *b {
                IndexLabel::text("true")
            } else {
                IndexLabel::text("false")
            }
        },
        GroupKey::Null => IndexLabel::text("<null>"),
        GroupKey::FloatBits(_) => IndexLabel::Utf8(display_scalar(scalar)),
        GroupKey::Other { missing: _ } => IndexLabel::text(""),
    }
}

/// The labels and the sums of the groups.
fn group_outputs(
    source_keys: &[Scalar],
    keys: &[GroupKey],
    values: &[Scalar],
    grouping: &Grouping,
    dropna: bool,
) -> (r: (Vec<IndexLabel>, Vec<Scalar>))
    requires
        key_views(keys@) == scalar_keys(source_keys@),
        source_keys@.len() == values@.len(),
        !has_unsupported_key(key_views(keys@), dropna),
        is_grouping_of(
            grouping.first_rows@,
            member_views(grouping.members@),
            row_keys(key_views(keys@), dropna),
        ),
    ensures
        label_views(r.0@) == group_labels(source_keys@, dropna),
        r.1@ == group_sums(source_keys@, values@, dropna),
        all_floats(r.1@),
{
    let ghost rk = row_keys(scalar_keys(source_keys@), dropna);
    let ghost groups = distinct(rk);
    let mut out_index: Vec<IndexLabel> = Vec::new();
    let mut out_values: Vec<Scalar> = Vec::new();
    let mut g: usize = 0;
    let n = source_keys.len();
    assert(keys@.len() == source_keys@.len()) by {
        assert(key_views(keys@).len() == keys@.len());
    }
    assert(member_views(grouping.members@).len() == grouping.members@.len());
    while g < grouping.first_rows.len()
        invariant
            g <= grouping.first_rows.len(),
            n == source_keys@.len(),
            rk == row_keys(scalar_keys(source_keys@), dropna),
            groups == distinct(rk),
            key_views(keys@) == scalar_keys(source_keys@),
            keys@.len() == source_keys@.len(),
            source_keys@.len() == values@.len(),
            grouping.first_rows@ == first_rows_of(rk),
            member_views(grouping.members@) == members_of(rk),
            grouping.members@.len() == grouping.first_rows@.len(),
            !has_unsupported_key(key_views(keys@), dropna),
            label_views(out_index@) == group_labels(source_keys@, dropna).take(g as int),
            out_values@ == group_sums(source_keys@, values@, dropna).take(g as int),
            all_floats(out_values@),
        decreases grouping.first_rows.len() - g,
    {
        proof {
            assert(rk.len() == source_keys@.len());
            lemma_first_rows(rk, g as int);
            lemma_rows_with(rk, groups[g as int]);
            assert(member_views(grouping.members@)[g as int] == grouping.members@[g as int]@);
            assert(members_of(rk)[g as int] == rows_with(rk, groups[g as int]));
        }
        let row = grouping.first_rows[g];
        assert(key_views(keys@)[row as int] == keys@[row as int]@);
        assert(key_is_plain(keys@[row as int]@)) by {
            assert(rk[row as int] == row_key(key_views(keys@)[row as int], dropna));
        }
        let label = label_of_key(&keys[row], &source_keys[row]);
        let sum = sum_rows(values, &grouping.members[g]);
        let ghost labels_before = out_index@;
        out_index.push(label);
        out_values.push(sum);
        proof {
            assert(label_views(out_index@) =~= label_views(labels_before).push(label@));
            assert(label_views(out_index@) =~= group_labels(source_keys@, dropna).take(g + 1));
            assert(out_values@ =~= group_sums(source_keys@, values@, dropna).take(g + 1));
        }
        g += 1;
    }
    proof {
        assert(group_labels(source_keys@, dropna).take(g as int) =~= group_labels(
            source_keys@,
            dropna,
        ));
        assert(group_sums(source_keys@, values@, dropna).take(g as int) =~= group_sums(
            source_keys@,
            values@,
            dropna,
        ));
    }
    (out_index, out_values)
}

/// The series named `sum` of the given sums under the given labels.
fn sum_series(out_index: Vec<IndexLabel>, out_values: Vec<Scalar>) -> (r: Result<
    Series,
    GroupByError,
>)
    requires
        out_index@.len() == out_values@.len(),
    ensures
        is_sum_series(r, label_views(out_index@), out_values@),
{
    let out_column = match Column::from_values(out_values) {
        Ok(c) => c,
        Err(e) => {
            return Err(GroupByError::Column(e));
        },
    };
    match Series::new("sum", Index::new(out_index), out_column) {
        Ok(s) => Ok(s),
        Err(e) => Err(GroupByError::Frame(e)),
    }
}

/// Makes the series of the sums of the groups.
fn emit_groupby_result(
    source_keys: &[Scalar],
    keys: &[GroupKey],
    values: &[Scalar],
    grouping: &Grouping,
    dropna: bool,
) -> (r: Result<Series, GroupByError>)
    requires
        key_views(keys@) == scalar_keys(source_keys@),
        source_keys@.len() == values@.len(),
        !has_unsupported_key(key_views(keys@), dropna),
        is_grouping_of(
            grouping.first_rows@,
            member_views(grouping.members@),
            row_keys(key_views(keys@), dropna),
        ),
    ensures
        is_sum_series(
            r,
            group_labels(source_keys@, dropna),
            group_sums(source_keys@, values@, dropna),
        ),
        all_floats(group_sums(source_keys@, values@, dropna)),
{
    let (out_index, out_values) = group_outputs(source_keys, keys, values, grouping, dropna);
    assert(label_views(out_index@).len() == out_index@.len());
    sum_series(out_index, out_values)
}

/// The dense path: the labels and the sums of the groups where every key that
/// is not dropped is an integer and the integer keys span at most the limit,
/// nothing elsewhere.
fn try_groupby_sum_dense_int64(
    source_keys: &[Scalar],
    keys: &[GroupKey],
    values: &[Scalar],
    dropna: bool,
) -> (r: Option<(Vec<IndexLabel>, Vec<Scalar>)>)
    requires
        key_views(keys@) == scalar_keys(source_keys@),
        source_keys@.len() == values@.len(),
        !has_unsupported_key(key_views(keys@), dropna),
    ensures
        r is Some <==> dense_applies(scalar_keys(source_keys@), dropna),
        r matches Some(out) ==> label_views(out.0@) == group_labels(source_keys@, dropna) && out.1@
            == group_sums(source_keys@, values@, dropna) && all_floats(out.1@),
{
    match group_rows_dense(keys, dropna) {
        Some(grouping) => Some(group_outputs(source_keys, keys, values, &grouping, dropna)),
        None => None,
    }
}

/// The dense path with its tables in an arena.
fn try_groupby_sum_dense_int64_arena(
    source_keys: &[Scalar],
    keys: &[GroupKey],
    values: &[Scalar],
    dropna: bool,
) -> (r: Option<(Vec<IndexLabel>, Vec<Scalar>)>)
    requires
        key_views(keys@) == scalar_keys(source_keys@),
        source_keys@.len() == values@.len(),
        !has_unsupported_key(key_views(keys@), dropna),
    ensures
        r is Some <==> dense_applies(scalar_keys(source_keys@), dropna),
        r matches Some(out) ==> label_views(out.0@) == group_labels(source_keys@, dropna) && out.1@
            == group_sums(source_keys@, values@, dropna) && all_floats(out.1@),
{
    match group_rows_dense_arena(keys, dropna) {
        Some(grouping) => Some(group_outputs(source_keys, keys, values, &grouping, dropna)),
        None => None,
    }
}

/// Group-by-sum of aligned keys and values with tables outside an arena: the
/// dense path where it applies, the generic path elsewhere.
fn groupby_sum_with_global_allocator(
    aligned_keys_values: &[Scalar],
    keys: &[GroupKey],
    aligned_values_values: &[Scalar],
    options: GroupByOptions,
) -> (r: Result<Series, GroupByError>)
    requires
        key_views(keys@) == scalar_keys(aligned_keys_values@),
        aligned_keys_values@.len() == aligned_values_values@.len(),
        !has_unsupported_key(key_views(keys@), options.dropna),
    ensures
        is_sum_series(
            r,
            group_labels(aligned_keys_values@, options.dropna),
            group_sums(aligned_keys_values@, aligned_values_values@, options.dropna),
        ),
        all_floats(group_sums(aligned_keys_values@, aligned_values_values@, options.dropna)),
{
    match try_groupby_sum_dense_int64(
        aligned_keys_values,
        keys,
        aligned_values_values,
        options.dropna,
    ) {
        Some((out_index, out_values)) => {
            assert(label_views(out_index@).len() == out_index@.len());
            return sum_series(out_index, out_values);
        },
        None => {},
    }
    let grouping = group_rows(keys, options.dropna);
    emit_groupby_result(aligned_keys_values, keys, aligned_values_values, &grouping, options.dropna)
}

/// Group-by-sum of aligned keys and values with tables in an arena: the dense
/// path where it applies, the generic path elsewhere.
fn groupby_sum_with_arena(
    aligned_keys_values: &[Scalar],
    keys: &[GroupKey],
    aligned_values_values: &[Scalar],
    options: GroupByOptions,
) -> (r: Result<Series, GroupByError>)
    requires
        key_views(keys@) == scalar_keys(aligned_keys_values@),
        aligned_keys_values@.len() == aligned_values_values@.len(),
        !has_unsupported_key(key_views(keys@), options.dropna),
    ensures
        is_sum_series(
            r,
            group_labels(aligned_keys_values@, options.dropna),
            group_sums(aligned_keys_values@, aligned_values_values@, options.dropna),
        ),
        all_floats(group_sums(aligned_keys_values@, aligned_values_values@, options.dropna)),
{
    match try_groupby_sum_dense_int64_arena(
        aligned_keys_values,
        keys,
        aligned_values_values,
        options.dropna,
    ) {
        Some((out_index, out_values)) => {
            assert(label_views(out_index@).len() == out_index@.len());
            return sum_series(out_index, out_values);
        },
        None => {},
    }
    let grouping = group_rows_arena(keys, options.dropna);
    emit_groupby_result(aligned_keys_values, keys, aligned_values_values, &grouping, options.dropna)
}

/// Keys and values stand row by row as they are: their indices hold the same
/// labels and no label twice.
pub open spec fn rows_agree(keys: Series, values: Series) -> bool {
    keys.index()@ == values.index()@ && !has_duplicate_labels(keys.index()@)
}

/// The key column, aligned with the values: as it is where the rows agree,
/// else reindexed onto the union of the two indices.
pub open spec fn aligned_keys(keys: Series, values: Series) -> Result<Column, ColumnError> {
    if rows_agree(keys, values) {
        Ok(*keys.column())
    } else {
        reindexed(
            *keys.column(),
            position_map(union_labels(keys.index()@, values.index()@), keys.index()@),
        )
    }
}

/// The value column, aligned with the keys.
pub open spec fn aligned_values(keys: Series, values: Series) -> Result<Column, ColumnError> {
    if rows_agree(keys, values) {
        Ok(*values.column())
    } else {
        reindexed(
            *values.column(),
            position_map(union_labels(keys.index()@, values.index()@), values.index()@),
        )
    }
}

/// Where keys and values are aligned through the union of their indices, each
/// aligned column holds at every label of the union the value that its series
/// holds at that label, and a missing value where the series does not hold
/// the label.
pub open spec fn alignment_follows(keys: Series, values: Series) -> bool {
    let union = union_labels(keys.index()@, values.index()@);
    !rows_agree(keys, values) ==> {
        &&& aligned_keys(keys, values) is Ok ==> is_reindex_of(
            column_values(aligned_keys(keys, values)->Ok_0),
            keys.values_view(),
            position_map(union, keys.index()@),
        )
        &&& aligned_keys(keys, values) is Ok && aligned_values(keys, values) is Ok
            ==> is_reindex_of(
            column_values(aligned_values(keys, values)->Ok_0),
            values.values_view(),
            position_map(union, values.index()@),
        )
    }
}

/// Whether the tables go to an arena: where an arena may be used and the
/// estimate for the rows is within the budget.
pub open spec fn arena_chosen(rows: usize, exec_options: GroupByExecutionOptions) -> bool {
    exec_options.use_arena && estimated_bytes(rows) <= exec_options.arena_budget_bytes
}

/// `r` is what group-by-sum gives for these keys and values: the error with
/// which a column cannot be aligned, else what it gives for the aligned
/// rows.
pub open spec fn is_groupby_sum(
    r: Result<Series, GroupByError>,
    keys: Series,
    values: Series,
    dropna: bool,
) -> bool {
    match aligned_keys(keys, values) {
        Err(e) => r matches Err(GroupByError::Column(e2)) && e2 == e,
        Ok(k) => match aligned_values(keys, values) {
            Err(e) => r matches Err(GroupByError::Column(e2)) && e2 == e,
            Ok(v) => is_sum_of_groups(r, column_values(k), column_values(v), dropna),
        },
    }
}

/// `r` is what group-by-sum gives for aligned keys and values: the error that
/// a key is not supported, where a row that is not dropped has a key that is
/// not of a plain kind; else the series of the sums of the groups, each sum a
/// float.
pub open spec fn is_sum_of_groups(
    r: Result<Series, GroupByError>,
    keys: Seq<Scalar>,
    values: Seq<Scalar>,
    dropna: bool,
) -> bool {
    if has_unsupported_key(scalar_keys(keys), dropna) {
        r matches Err(GroupByError::Frame(FrameError::UnsupportedScalar))
    } else {
        &&& is_sum_series(r, group_labels(keys, dropna), group_sums(keys, values, dropna))
        &&& all_floats(group_sums(keys, values, dropna))
    }
}

/// Whether a row that is not dropped has a key that is not of a plain kind.
fn find_unsupported_key(keys: &[GroupKey], dropna: bool) -> (r: bool)
    ensures
        r == has_unsupported_key(key_views(keys@), dropna),
{
    let mut i: usize = 0;
    while i < keys.len()
        invariant
            i <= keys.len(),
            forall|j: int|
                0 <= j < i ==> !(row_key(#[trigger] key_views(keys@)[j], dropna) is Some
                    && !key_is_plain(key_views(keys@)[j])),
        decreases keys.len() - i,
    {
        assert(key_views(keys@)[i as int] == keys@[i as int]@);
        if !keys[i].is_plain() && !(dropna && keys[i].is_missing()) {
            return true;
        }
        i += 1;
    }
    false
}

/// The result without the trace.
pub open spec fn without_trace(r: Result<(Series, GroupByExecutionTrace), GroupByError>) -> Result<
    Series,
    GroupByError,
> {
    match r {
        Ok(pair) => Ok(pair.0),
        Err(e) => Err(e),
    }
}

/// Group-by-sum with a record of how it was run. The result does not depend
/// on where the tables were allocated.
pub fn groupby_sum_with_trace(
    keys: &Series,
    values: &Series,
    options: GroupByOptions,
    policy: &RuntimePolicy,
    ledger: &mut EvidenceLedger,
    exec_options: GroupByExecutionOptions,
) -> (r: Result<(Series, GroupByExecutionTrace), GroupByError>)
    ensures
        *final(ledger) == *old(ledger),
        is_groupby_sum(without_trace(r), *keys, *values, options.dropna),
        alignment_follows(*keys, *values),
        r matches Ok(pair) ==> {
            &&& aligned_keys(*keys, *values) is Ok
            &&& pair.1.input_rows == column_values(aligned_keys(*keys, *values)->Ok_0).len()
            &&& pair.1.estimated_bytes == estimated_bytes(pair.1.input_rows)
            &&& pair.1.used_arena == arena_chosen(pair.1.input_rows, exec_options)
        },
{
    if keys.index().same_labels(values.index()) && !keys.index().has_duplicates() {
        run_groupby(keys.values(), values.values(), options, exec_options)
    } else {
        let plan = align_union(keys.index(), values.index());
        match validate_alignment_plan(&plan, keys.index().len(), values.index().len()) {
            Err(e) => {
                return Err(GroupByError::Index(e));
            },
            Ok(_) => {},
        }
        let aligned_keys = match keys.column().reindex_by_positions(
            plan.left_positions.as_slice(),
        ) {
            Ok(c) => c,
            Err(e) => {
                return Err(GroupByError::Column(e));
            },
        };
        let aligned_values = match values.column().reindex_by_positions(
            plan.right_positions.as_slice(),
        ) {
            Ok(c) => c,
            Err(e) => {
                return Err(GroupByError::Column(e));
            },
        };
        run_groupby(aligned_keys.values(), aligned_values.values(), options, exec_options)
    }
}

/// Group-by-sum of aligned keys and values, with the tables where the options
/// and the estimate put them.
fn run_groupby(
    aligned_keys_values: &[Scalar],
    aligned_values_values: &[Scalar],
    options: GroupByOptions,
    exec_options: GroupByExecutionOptions,
) -> (r: Result<(Series, GroupByExecutionTrace), GroupByError>)
    requires
        aligned_keys_values@.len() == aligned_values_values@.len(),
    ensures
        is_sum_of_groups(
            without_trace(r),
            aligned_keys_values@,
            aligned_values_values@,
            options.dropna,
        ),
        r matches Ok(pair) ==> {
            &&& pair.1.input_rows == aligned_keys_values@.len()
            &&& pair.1.estimated_bytes == estimated_bytes(pair.1.input_rows)
            &&& pair.1.used_arena == arena_chosen(pair.1.input_rows, exec_options)
        },
{
    let input_rows = aligned_keys_values.len();
    let estimated_bytes = estimate_groupby_intermediate_bytes(input_rows);
    let use_arena = exec_options.use_arena && estimated_bytes <= exec_options.arena_budget_bytes;
    let keys = read_keys(aligned_keys_values);
    if find_unsupported_key(keys.as_slice(), options.dropna) {
        return Err(GroupByError::Frame(FrameError::UnsupportedScalar));
    }
    let result = if use_arena {
        groupby_sum_with_arena(aligned_keys_values, keys.as_slice(), aligned_values_values, options)
    } else {
        groupby_sum_with_global_allocator(
            aligned_keys_values,
            keys.as_slice(),
            aligned_values_values,
            options,
        )
    };
    match result {
        Ok(series) => Ok(
            (series, GroupByExecutionTrace { used_arena: use_arena, input_rows, estimated_bytes }),
        ),
        Err(e) => Err(e),
    }
}

/// Group-by-sum with the given execution options.
pub fn groupby_sum_with_options(
    keys: &Series,
    values: &Series,
    options: GroupByOptions,
    policy: &RuntimePolicy,
    ledger: &mut EvidenceLedger,
    exec_options: GroupByExecutionOptions,
) -> (r: Result<Series, GroupByError>)
    ensures
        *final(ledger) == *old(ledger),
        is_groupby_sum(r, *keys, *values, options.dropna),
        alignment_follows(*keys, *values),
{
    match groupby_sum_with_trace(keys, values, options, policy, ledger, exec_options) {
        Ok(pair) => Ok(pair.0),
        Err(e) => Err(e),
    }
}

/// Sums the values for each distinct key, the groups in the order in which
/// their keys are first seen. Keys and values are matched by their labels.
/// Keys are nulls, bools, integers, floats and texts: a key of another kind,
/// in a row that is not dropped, is refused. A value counts where it is
/// present and is a bool, an integer or a float.
pub fn groupby_sum(
    keys: &Series,
    values: &Series,
    options: GroupByOptions,
    policy: &RuntimePolicy,
    ledger: &mut EvidenceLedger,
) -> (r: Result<Series, GroupByError>)
    ensures
        *final(ledger) == *old(ledger),
        is_groupby_sum(r, *keys, *values, options.dropna),
        alignment_follows(*keys, *values),
{
    groupby_sum_with_options(
        keys,
        values,
        options,
        policy,
        ledger,
        GroupByExecutionOptions { use_arena: true, arena_budget_bytes: DEFAULT_ARENA_BUDGET_BYTES },
    )
}

/// The values that count are all present and have a value as a float.
pub proof fn lemma_present_summable(values: Seq<Scalar>)
    ensures
        all_summable(present(values)),
    decreases values.len(),
{
    if values.len() > 0 {
        lemma_present_summable(values.drop_last());
    }
}

/// A missing value at a place of a sequence counts as little as if the place
/// were not there.
pub proof fn lemma_missing_is_skipped(values: Seq<Scalar>, j: int, missing: Scalar)
    requires
        0 <= j < values.len(),
        !counts(missing),
    ensures
        present(values.update(j, missing)) == present(values.remove(j)),
    decreases values.len(),
{
    let replaced = values.update(j, missing);
    let removed = values.remove(j);
    if j == values.len() - 1 {
        assert(replaced.drop_last() =~= values.drop_last());
        assert(removed =~= values.drop_last());
    } else {
        lemma_missing_is_skipped(values.drop_last(), j, missing);
        assert(replaced.drop_last() =~= values.drop_last().update(j, missing));
        assert(removed.drop_last() =~= values.drop_last().remove(j));
        assert(replaced.last() == values.last());
        assert(removed.last() == values.last());
    }
}

/// A value that is replaced changes the sum of no group but the one that its
/// row is in. The groups and their order stay, every group that does not hold
/// the row keeps its sum, and the sum of the group that holds it is the float
/// sum of the values of that group with the one replaced; where a missing
/// value replaces it, that is the float sum of the other values of the group.
pub proof fn lemma_replaced_value(
    keys: Seq<Scalar>,
    values: Seq<Scalar>,
    dropna: bool,
    row: int,
    replacement: Scalar,
)
    requires
        keys.len() == values.len(),
        keys.len() <= usize::MAX,
        0 <= row < values.len(),
    ensures
        ({
            let groups = members_of(row_keys(scalar_keys(keys), dropna));
            let before = group_sums(keys, values, dropna);
            let after = group_sums(keys, values.update(row, replacement), dropna);
            &&& after.len() == before.len()
            &&& before.len() == groups.len()
            &&& forall|g: int|
                0 <= g < groups.len() && !(#[trigger] groups[g]).contains(row as usize)
                    ==> after[g] == before[g]
            &&& forall|g: int, j: int|
                0 <= g < groups.len() && 0 <= j < groups[g].len() && (#[trigger] groups[g][j])
                    == row ==> #[trigger] after[g] == float_sum(
                    present(taken(values, groups[g]).update(j, replacement)),
                )
            &&& forall|g: int, j: int|
                0 <= g < groups.len() && 0 <= j < groups[g].len() && (#[trigger] groups[g][j])
                    == row && datum_is_missing(scalar_datum(replacement)) ==> #[trigger] after[g]
                    == float_sum(present(taken(values, groups[g]).remove(j)))
        }),
{
    let rk = row_keys(scalar_keys(keys), dropna);
    let groups = members_of(rk);
    let replaced = values.update(row, replacement);
    let before = group_sums(keys, values, dropna);
    let after = group_sums(keys, replaced, dropna);
    assert forall|g: int| 0 <= g < groups.len() implies (!(#[trigger] groups[g]).contains(
        row as usize,
    ) ==> after[g] == before[g]) && (forall|j: int|
        0 <= j < groups[g].len() && groups[g][j] == row ==> after[g] == float_sum(
            present(taken(values, groups[g]).update(j, replacement)),
        ) && (datum_is_missing(scalar_datum(replacement)) ==> after[g] == float_sum(
            present(taken(values, groups[g]).remove(j)),
        ))) by {
        let rows = groups[g];
        lemma_rows_with(rk, distinct(rk)[g]);
        assert(rows == rows_with(rk, distinct(rk)[g]));
        if !rows.contains(row as usize) {
            assert forall|j: int| 0 <= j < rows.len() implies taken(replaced, rows)[j] == taken(
                values,
                rows,
            )[j] by {
                assert(rows[j] != row as usize);
            }
            assert(taken(replaced, rows) =~= taken(values, rows));
        }
        assert forall|j: int| 0 <= j < rows.len() && rows[j] == row implies after[g] == float_sum(
            present(taken(values, rows).update(j, replacement)),
        ) && (datum_is_missing(scalar_datum(replacement)) ==> after[g] == float_sum(
            present(taken(values, rows).remove(j)),
        )) by {
            assert forall|x: int| 0 <= x < rows.len() implies taken(replaced, rows)[x] == taken(
                values,
                rows,
            ).update(j, replacement)[x] by {
                if x != j {
                    assert(rows[x] != rows[j]);
                }
            }
            assert(taken(replaced, rows) =~= taken(values, rows).update(j, replacement));
            if datum_is_missing(scalar_datum(replacement)) {
                lemma_missing_is_skipped(taken(values, rows), j, replacement);
            }
        }
    }
}

} // verus!
