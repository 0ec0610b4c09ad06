//! A series: a name, an index and a column of the same length, with
//! label-aware addition and row-wise concatenation.

use vstd::prelude::*;
use vstd::string::StringExecFns;
use fp_columnar::{Column, ColumnError};
use fp_runtime::EvidenceLedger;
use fp_types::Scalar;
use crate::align::{
    align_union, index_error_text, position_map, union_labels, validate_alignment_plan,
    IndexError,
};
use crate::column::{
    add_columns, column_error_text, column_of, column_values, describe_column_error,
    is_reindex_of, is_sum_of, numeric_sum, reindexed,
};
use crate::text::{decimal, decimal_text};
use crate::label::{has_duplicate_labels, label_views, Index, IndexLabel, LabelView};
use crate::policy::{
    decide_join_admission, join_admission, ledger_subjects, new_ledger, note_unknown_feature,
    over_cap, DecisionAction, RuntimeMode, RuntimePolicy,
};
use crate::scalar::{all_plain, holds_plain};

verus! {

/// Why an operation on series or frames fails.
#[derive(Debug)]
pub enum FrameError {
    /// The index and the column differ in length.
    LengthMismatch { index_len: usize, column_len: usize },
    /// A strict policy met duplicate labels.
    DuplicateIndexUnsupported,
    /// The policy declined the operation.
    CompatibilityRejected(String),
    /// A column operation failed.
    Column(ColumnError),
    /// An alignment plan did not validate.
    Index(IndexError),
    /// A scalar is of a kind that the operation does not compute with.
    UnsupportedScalar,
}

/// What the error of duplicate labels under a strict policy says.
pub open spec fn duplicate_message() -> Seq<char> {
    "duplicate index labels are unsupported in strict mode for MVP slice"@
}

/// What a frame error says.
pub open spec fn frame_error_text(e: FrameError) -> Seq<char> {
    match e {
        FrameError::LengthMismatch { index_len, column_len } => "index length ("@ + decimal_text(
            index_len as nat,
        ) + ") does not match column length ("@ + decimal_text(column_len as nat) + ")"@,
        FrameError::DuplicateIndexUnsupported => duplicate_message(),
        FrameError::CompatibilityRejected(reason) => "compatibility gate rejected operation: "@
            + reason@,
        FrameError::Column(inner) => column_error_text(inner),
        FrameError::Index(inner) => index_error_text(inner),
        FrameError::UnsupportedScalar => "scalar kind is unsupported by this operation"@,
    }
}

impl FrameError {
    /// A short text that names what is wrong, with the sizes.
    pub fn message(&self) -> (r: String)
        ensures
            r@ == frame_error_text(*self),
    {
        match self {
            FrameError::LengthMismatch { index_len, column_len } => {
                "index length (".to_owned().concat(decimal(*index_len).as_str()).concat(
                    ") does not match column length (",
                ).concat(decimal(*column_len).as_str()).concat(")")
            },
            FrameError::DuplicateIndexUnsupported => {
                "duplicate index labels are unsupported in strict mode for MVP slice".to_owned()
            },
            FrameError::CompatibilityRejected(reason) => {
                "compatibility gate rejected operation: ".to_owned().concat(reason.as_str())
            },
            FrameError::Column(inner) => describe_column_error(inner),
            FrameError::Index(inner) => inner.message(),
            FrameError::UnsupportedScalar => {
                "scalar kind is unsupported by this operation".to_owned()
            },
        }
    }
}

/// A column bound to an index of the same length, under a name.
#[derive(Debug, PartialEq)]
pub struct Series {
    name: String,
    index: Index,
    column: Column,
}

/// The subject under which a policy is told of duplicate labels.
pub open spec fn alignment_subject() -> Seq<char> {
    "index_alignment"@
}

/// The message of the error that a declined admission gives.
pub open spec fn rejection_message() -> Seq<char> {
    "runtime policy rejected alignment admission"@
}

/// The name of the sum of two series: the common name where they share one,
/// else the two names joined by `+`.
pub open spec fn sum_name(left: Seq<char>, right: Seq<char>) -> Seq<char> {
    if left == right {
        left
    } else {
        left + "+"@ + right
    }
}

/// A strict policy refuses to add series when one of them has a label twice.
pub open spec fn refuses_duplicates(
    left: Seq<LabelView>,
    right: Seq<LabelView>,
    mode: RuntimeMode,
) -> bool {
    (has_duplicate_labels(left) || has_duplicate_labels(right)) && mode == RuntimeMode::Strict
}

/// What the ledger holds after an addition: the subject of the duplicate
/// notice where there are duplicates, then, unless the addition stopped
/// before it, the subject of the admission decision.
pub open spec fn subjects_after_add(
    before: Seq<Seq<char>>,
    duplicates: bool,
    reached_admission: bool,
) -> Seq<Seq<char>> {
    let noted = if duplicates {
        before.push(alignment_subject())
    } else {
        before
    };
    if reached_admission {
        noted.push("join_estimator"@)
    } else {
        noted
    }
}

/// Both columns can be reindexed onto the union and no duplicate is refused,
/// so that the policy is asked for admission.
pub open spec fn reaches_admission(left: Series, right: Series, mode: RuntimeMode) -> bool {
    let union = union_labels(left.index()@, right.index()@);
    &&& !refuses_duplicates(left.index()@, right.index()@, mode)
    &&& reindexed(*left.column(), position_map(union, left.index()@)) is Ok
    &&& reindexed(*right.column(), position_map(union, right.index()@)) is Ok
}

/// `r` is what adding `left` and `right` gives under a policy with this mode
/// and this cap: the error at the first step that fails, else the series over
/// the union of the two indices whose column is the sum of the two columns,
/// each reindexed onto the union. Columns that hold a scalar that is not of a
/// plain kind are not added.
pub open spec fn is_series_sum(
    r: Result<Series, FrameError>,
    left: Series,
    right: Series,
    mode: RuntimeMode,
    cap: Option<usize>,
) -> bool {
    let union = union_labels(left.index()@, right.index()@);
    let left_map = position_map(union, left.index()@);
    let right_map = position_map(union, right.index()@);
    let aligned_left = reindexed(*left.column(), left_map);
    let aligned_right = reindexed(*right.column(), right_map);
    if refuses_duplicates(left.index()@, right.index()@, mode) {
        r matches Err(FrameError::DuplicateIndexUnsupported)
    } else if aligned_left is Err {
        r matches Err(FrameError::Column(e)) && e == aligned_left->Err_0
    } else if aligned_right is Err {
        r matches Err(FrameError::Column(e)) && e == aligned_right->Err_0
    } else if join_admission(mode, cap, union.len() as usize) == DecisionAction::Reject {
        r matches Err(FrameError::CompatibilityRejected(m)) && m@ == rejection_message()
    } else if !all_plain(column_values(aligned_left->Ok_0)) || !all_plain(
        column_values(aligned_right->Ok_0),
    ) {
        r matches Err(FrameError::UnsupportedScalar)
    } else {
        match numeric_sum(aligned_left->Ok_0, aligned_right->Ok_0) {
            Err(e) => r matches Err(FrameError::Column(e2)) && e2 == e,
            Ok(c) => {
                &&& r matches Ok(s) && s.name_view() == sum_name(
                    left.name_view(),
                    right.name_view(),
                ) && s.index()@ == union && *s.column() == c && s.index()@.len()
                    == s.values_view().len()
                &&& is_reindex_of(
                    column_values(aligned_left->Ok_0),
                    left.values_view(),
                    left_map,
                )
                &&& is_reindex_of(
                    column_values(aligned_right->Ok_0),
                    right.values_view(),
                    right_map,
                )
                &&& is_sum_of(
                    column_values(c),
                    column_values(aligned_left->Ok_0),
                    column_values(aligned_right->Ok_0),
                )
            },
        }
    }
}

/// The name of the sum of two series.
pub fn join_names(left: &str, right: &str) -> (r: String)
    ensures
        r@ == sum_name(left@, right@),
{
    let l = left.to_owned();
    let r = right.to_owned();
    if l == r {
        l
    } else {
        l.concat("+").concat(right)
    }
}

/// What an admission decision means for the operation: a rejection fails it,
/// any other action lets it go on.
pub fn admission_result(action: DecisionAction) -> (r: Result<(), FrameError>)
    ensures
        action != DecisionAction::Reject ==> r is Ok,
        action == DecisionAction::Reject ==> (r matches Err(FrameError::CompatibilityRejected(m))
            && m@ == rejection_message()),
{
    match action {
        DecisionAction::Reject => Err(
            FrameError::CompatibilityRejected(
                "runtime policy rejected alignment admission".to_owned(),
            ),
        ),
        _ => Ok(()),
    }
}

/// What a strict policy makes of duplicate labels.
pub fn check_duplicates(duplicates: bool, policy: &RuntimePolicy) -> (r: Result<(), FrameError>)
    ensures
        duplicates && policy.mode == RuntimeMode::Strict ==> r matches Err(
            FrameError::DuplicateIndexUnsupported,
        ),
        !(duplicates && policy.mode == RuntimeMode::Strict) ==> r is Ok,
{
    if duplicates && policy.is_strict() {
        Err(FrameError::DuplicateIndexUnsupported)
    } else {
        Ok(())
    }
}

impl Clone for Series {
    fn clone(&self) -> (r: Self)
        ensures
            r.name_view() == self.name_view(),
            r.index()@ == self.index()@,
            r.values_view() == self.values_view(),
    {
        proof {
            use_type_invariant(self);
        }
        Series { name: self.name.clone(), index: self.index.clone(), column: self.column.clone() }
    }
}

impl Series {
    #[verifier::type_invariant]
    closed spec fn parity(self) -> bool {
        self.index@.len() == column_values(self.column).len()
    }

    /// The name, as a sequence of characters.
    pub closed spec fn name_view(&self) -> Seq<char> {
        self.name@
    }

    pub closed spec fn spec_index(&self) -> &Index {
        &self.index
    }

    pub closed spec fn spec_column(&self) -> &Column {
        &self.column
    }

    /// The scalars of the column, in row order.
    pub open spec fn values_view(&self) -> Seq<Scalar> {
        column_values(*self.column())
    }

    /// Binds `column` to `index` under `name`. Fails where the two differ in
    /// length.
    pub fn new(name: &str, index: Index, column: Column) -> (r: Result<Series, FrameError>)
        ensures
            index@.len() == column_values(column).len() ==> (r matches Ok(s) && s.name_view()
                == name@ && s.index()@ == index@ && *s.column() == column && s.index()@.len()
                == s.values_view().len()),
            index@.len() != column_values(column).len() ==> (r matches Err(
                FrameError::LengthMismatch { index_len, column_len },
            ) && index_len == index@.len() && column_len == column_values(column).len()),
    {
        if index.len() != column.len() {
            return Err(
                FrameError::LengthMismatch { index_len: index.len(), column_len: column.len() },
            );
        }
        Ok(Series { name: name.to_owned(), index, column })
    }

    /// The series of `values` under `index_labels`. The column is the one that
    /// `fp_columnar` makes of the values.
    pub fn from_values(name: &str, index_labels: Vec<IndexLabel>, values: Vec<Scalar>) -> (r:
        Result<Series, FrameError>)
        ensures
            match column_of(values@) {
                Err(e) => r matches Err(FrameError::Column(e2)) && e2 == e,
                Ok(c) => if index_labels@.len() == values@.len() {
                    r matches Ok(s) && s.name_view() == name@ && s.index()@ == label_views(
                        index_labels@,
                    ) && *s.column() == c && s.values_view().len() == values@.len()
                        && s.index()@.len() == s.values_view().len()
                } else {
                    r matches Err(FrameError::LengthMismatch { index_len, column_len })
                        && index_len == index_labels@.len() && column_len == values@.len()
                },
            },
    {
        let index = Index::new(index_labels);
        match Column::from_values(values) {
            Ok(column) => Series::new(name, index, column),
            Err(e) => Err(FrameError::Column(e)),
        }
    }

    pub fn name(&self) -> (r: &str)
        ensures
            r@ == self.name_view(),
    {
        self.name.as_str()
    }

    #[verifier::when_used_as_spec(spec_index)]
    pub fn index(&self) -> (r: &Index)
        ensures
            r == self.index(),
    {
        &self.index
    }

    #[verifier::when_used_as_spec(spec_column)]
    pub fn column(&self) -> (r: &Column)
        ensures
            r == self.column(),
    {
        &self.column
    }

    /// The scalars of the column, in row order: one for each label.
    pub fn values(&self) -> (r: &[Scalar])
        ensures
            r@ == self.values_view(),
            r@.len() == self.index()@.len(),
    {
        proof {
            use_type_invariant(self);
        }
        self.column.values()
    }

    /// The number of rows. Index and column agree on it.
    pub fn len(&self) -> (n: usize)
        ensures
            n == self.index()@.len(),
            n == self.values_view().len(),
    {
        proof {
            use_type_invariant(self);
        }
        self.index.len()
    }

    pub fn is_empty(&self) -> (r: bool)
        ensures
            r == (self.index()@.len() == 0),
    {
        self.index.is_empty()
    }

    /// The sum of two series over the union of their indices.
    ///
    /// Where a label occurs twice in either index, the policy is told so, and a
    /// strict policy refuses. Both columns are reindexed onto the union, the
    /// policy decides on the admission of the union's length, and the aligned
    /// columns are added.
    pub fn add_with_policy(
        &self,
        other: &Series,
        policy: &RuntimePolicy,
        ledger: &mut EvidenceLedger,
    ) -> (r: Result<Series, FrameError>)
        ensures
            is_series_sum(r, *self, *other, policy.mode, policy.hardened_join_row_cap),
            over_cap(
                policy.mode,
                policy.hardened_join_row_cap,
                union_labels(self.index()@, other.index()@).len(),
            ) ==> !(r matches Err(FrameError::CompatibilityRejected(_))),
            ledger_subjects(*final(ledger)) == subjects_after_add(
                ledger_subjects(*old(ledger)),
                has_duplicate_labels(self.index()@) || has_duplicate_labels(other.index()@),
                reaches_admission(*self, *other, policy.mode),
            ),
    {
        let duplicates = self.index.has_duplicates() || other.index.has_duplicates();
        if duplicates {
            note_unknown_feature(
                policy,
                "index_alignment",
                "duplicate labels are not yet fully modeled",
                ledger,
            );
        }
        match check_duplicates(duplicates, policy) {
            Err(e) => {
                return Err(e);
            },
            Ok(_) => {},
        }
        let plan = align_union(&self.index, &other.index);
        match validate_alignment_plan(&plan, self.index.len(), other.index.len()) {
            Err(e) => {
                return Err(FrameError::Index(e));
            },
            Ok(_) => {},
        }
        let left = match self.column.reindex_by_positions(plan.left_positions.as_slice()) {
            Ok(c) => c,
            Err(e) => {
                return Err(FrameError::Column(e));
            },
        };
        let right = match other.column.reindex_by_positions(plan.right_positions.as_slice()) {
            Ok(c) => c,
            Err(e) => {
                return Err(FrameError::Column(e));
            },
        };
        let action = decide_join_admission(policy, plan.union_index.len(), ledger);
        match admission_result(action) {
            Err(e) => {
                return Err(e);
            },
            Ok(_) => {},
        }
        if !holds_plain(left.values()) || !holds_plain(right.values()) {
            return Err(FrameError::UnsupportedScalar);
        }
        let column = match add_columns(&left, &right) {
            Ok(c) => c,
            Err(e) => {
                return Err(FrameError::Column(e));
            },
        };
        let out_name = join_names(self.name.as_str(), other.name.as_str());
        Series::new(out_name.as_str(), plan.union_index, column)
    }

    /// The sum of two series under the strict policy, with a ledger of its own.
    pub fn add(&self, other: &Series) -> (r: Result<Series, FrameError>)
        ensures
            is_series_sum(r, *self, *other, RuntimeMode::Strict, None),
    {
        let mut ledger = new_ledger();
        let policy = RuntimePolicy::strict();
        self.add_with_policy(other, &policy, &mut ledger)
    }
}

/// The labels of all the series, one series after the other.
pub open spec fn all_labels(list: Seq<&Series>) -> Seq<LabelView>
    decreases list.len(),
{
    if list.len() == 0 {
        Seq::empty()
    } else {
        all_labels(list.drop_last()) + list.last().index()@
    }
}

/// The scalars of all the series, one series after the other.
pub open spec fn all_values(list: Seq<&Series>) -> Seq<Scalar>
    decreases list.len(),
{
    if list.len() == 0 {
        Seq::empty()
    } else {
        all_values(list.drop_last()) + list.last().values_view()
    }
}

/// The name of a concatenation: that of the only series where there is one,
/// else `concat`.
pub open spec fn concat_name(list: Seq<&Series>) -> Seq<char> {
    if list.len() == 1 {
        list[0].name_view()
    } else {
        "concat"@
    }
}

/// Concatenates series row-wise: the labels and the scalars of each series
/// follow those of the one before, duplicates included. The column is the one
/// that `fp_columnar` makes of all the scalars.
pub fn concat_series(series_list: &[&Series]) -> (r: Result<Series, FrameError>)
    ensures
        match column_of(all_values(series_list@)) {
            Err(e) => r matches Err(FrameError::Column(e2)) && e2 == e,
            Ok(c) => r matches Ok(s) && s.name_view() == concat_name(series_list@) && s.index()@
                == all_labels(series_list@) && *s.column() == c && s.values_view().len()
                == all_values(series_list@).len() && s.index()@.len() == s.values_view().len(),
        },
{
    let mut labels: Vec<IndexLabel> = Vec::new();
    let mut values: Vec<Scalar> = Vec::new();
    let mut k: usize = 0;
    assert(series_list@.take(0) =~= Seq::<&Series>::empty());
    while k < series_list.len()
        invariant
            k <= series_list.len(),
            label_views(labels@) == all_labels(series_list@.take(k as int)),
            values@ == all_values(series_list@.take(k as int)),
            labels@.len() == values@.len(),
        decreases series_list.len() - k,
    {
        let s = series_list[k];
        let n = s.len();
        let s_labels = s.index().labels();
        let s_values = s.values();
        let ghost labels_before = labels@;
        let ghost values_before = values@;
        let mut i: usize = 0;
        while i < n
            invariant
                i <= n,
                n == s_labels@.len(),
                n == s_values@.len(),
                label_views(s_labels@) == s.index()@,
                label_views(labels@) == label_views(labels_before) + s.index()@.take(i as int),
                values@ == values_before + s_values@.take(i as int),
            decreases n - i,
        {
            let ghost l0 = labels@;
            labels.push(s_labels[i].clone());
            values.push(s_values[i].clone());
            assert(label_views(labels@) =~= label_views(l0).push(s.index()@[i as int]));
            assert(s.index()@.take(i + 1) =~= s.index()@.take(i as int).push(s.index()@[i as int]));
            assert(s_values@.take(i + 1) =~= s_values@.take(i as int).push(s_values@[i as int]));
            assert(label_views(labels@) =~= label_views(labels_before) + s.index()@.take(i + 1));
            assert(values@ =~= values_before + s_values@.take(i + 1));
            i += 1;
        }
        proof {
            assert(s.index()@.take(n as int) =~= s.index()@);
            assert(s_values@.take(n as int) =~= s_values@);
            assert(series_list@.take(k + 1).drop_last() =~= series_list@.take(k as int));
            assert(series_list@.take(k + 1).last() == s);
        }
        k += 1;
    }
    assert(series_list@.take(k as int) =~= series_list@);
    if series_list.len() == 1 {
        Series::from_values(series_list[0].name(), labels, values)
    } else {
        Series::from_values("concat", labels, values)
    }
}

} // verus!
