//! Columns are values of `fp_columnar`. This module states what the library
//! relies on of the column operations it calls.

use vstd::prelude::*;
use fp_columnar::ArithmeticOp;
use fp_columnar::Column;
use fp_columnar::ColumnError;
use fp_types::Scalar;
use crate::scalar::{all_plain, datum_is_missing, scalar_datum};

verus! {

#[verifier::external_type_specification]
#[verifier::external_body]
pub struct ExColumn(Column);

#[verifier::external_type_specification]
#[verifier::external_body]
pub struct ExColumnError(ColumnError);

/// The scalars that a column holds, in row order.
pub uninterp spec fn column_values(c: Column) -> Seq<Scalar>;

/// What `Column::from_values` makes of a sequence of scalars.
pub uninterp spec fn column_of(values: Seq<Scalar>) -> Result<Column, ColumnError>;

/// What `Column::reindex_by_positions` makes of a column and a position map.
pub uninterp spec fn reindexed(c: Column, positions: Seq<Option<usize>>) -> Result<
    Column,
    ColumnError,
>;

/// What `Column::binary_numeric` with `ArithmeticOp::Add` makes of two columns.
pub uninterp spec fn numeric_sum(left: Column, right: Column) -> Result<Column, ColumnError>;

/// The text that a column error is displayed as.
pub uninterp spec fn column_error_text(e: ColumnError) -> Seq<char>;

/// `out` is `source` reindexed by `positions`: as long as the map; where the
/// map gives a position of the source, the value at that position; elsewhere a
/// missing value.
pub open spec fn is_reindex_of(
    out: Seq<Scalar>,
    source: Seq<Scalar>,
    positions: Seq<Option<usize>>,
) -> bool {
    &&& out.len() == positions.len()
    &&& forall|i: int|
        0 <= i < positions.len() ==> match #[trigger] positions[i] {
            Some(p) => if p < source.len() {
                out[i] == source[p as int]
            } else {
                datum_is_missing(scalar_datum(out[i]))
            },
            None => datum_is_missing(scalar_datum(out[i])),
        }
}

/// `out` is an element-wise sum of `left` and `right`: as long as both, and
/// missing wherever one of the two operands is missing.
pub open spec fn is_sum_of(out: Seq<Scalar>, left: Seq<Scalar>, right: Seq<Scalar>) -> bool {
    &&& out.len() == left.len()
    &&& out.len() == right.len()
    &&& forall|i: int|
        0 <= i < out.len() && (datum_is_missing(scalar_datum(#[trigger] left[i]))
            || datum_is_missing(scalar_datum(right[i]))) ==> datum_is_missing(
            scalar_datum(out[i]),
        )
}

/// `Column::len`: the number of scalars in the column.
pub assume_specification[ fp_columnar::Column::len ](c: &fp_columnar::Column) -> (n: usize)
    ensures
        n == column_values(*c).len(),
;

/// `Clone` of `fp_columnar::Column`: the clone holds the scalars of the column.
pub assume_specification[ <fp_columnar::Column as Clone>::clone ](c: &fp_columnar::Column) -> (r:
    fp_columnar::Column)
    ensures
        column_values(r) == column_values(*c),
;

/// `Column::values`: the scalars of the column, in row order.
pub assume_specification<'a>[ fp_columnar::Column::values ](c: &'a fp_columnar::Column) -> (v:
    &'a [Scalar])
    ensures
        v@ == column_values(*c),
;

/// `Column::from_values`: infers a type for the scalars and coerces each of
/// them to it. The result depends on the scalars alone; a column that comes
/// out has one scalar for each one that went in.
pub assume_specification[ fp_columnar::Column::from_values ](values: Vec<Scalar>) -> (r: Result<
    fp_columnar::Column,
    fp_columnar::ColumnError,
>)
    ensures
        r == column_of(values@),
        r is Ok ==> column_values(r->Ok_0).len() == values@.len(),
;

/// `Column::reindex_by_positions`: the result depends on the column and the
/// map alone; a column that comes out is the source reindexed by the map.
pub assume_specification[ fp_columnar::Column::reindex_by_positions ](
    c: &fp_columnar::Column,
    positions: &[Option<usize>],
) -> (r: Result<fp_columnar::Column, fp_columnar::ColumnError>)
    ensures
        r == reindexed(*c, positions@),
        r is Ok ==> is_reindex_of(column_values(r->Ok_0), column_values(*c), positions@),
;

/// `Display` of `fp_columnar::ColumnError`, through `to_string`: the text
/// depends on the error alone.
#[verifier::external_body]
pub(crate) fn describe_column_error(e: &ColumnError) -> (text: String)
    ensures
        text@ == column_error_text(*e),
{
    e.to_string()
}

/// `Column::binary_numeric` with `ArithmeticOp::Add`, on columns of scalars of
/// plain kinds: the element-wise sum of two columns. The result depends on the
/// two columns alone. Columns of different lengths are refused; a column that
/// comes out has the length of the operands and is missing wherever an
/// operand is. Scalars of other kinds are left out: the function asks a
/// scalar for its float value, and a period answers with a text that is
/// computed with unchecked additions.
#[verifier::external_body]
pub(crate) fn add_columns(left: &Column, right: &Column) -> (r: Result<Column, ColumnError>)
    requires
        all_plain(column_values(*left)),
        all_plain(column_values(*right)),
    ensures
        r == numeric_sum(*left, *right),
        column_values(*left).len() != column_values(*right).len() ==> r is Err,
        r is Ok ==> is_sum_of(
            column_values(r->Ok_0),
            column_values(*left),
            column_values(*right),
        ),
{
    left.binary_numeric(right, ArithmeticOp::Add)
}

} // verus!
