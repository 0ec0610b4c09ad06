//! Scalars are values of `fp_types`. What this library reads of one is its
//! datum: the kind of the value and what it holds, as plain values.

use vstd::prelude::*;
use fp_types::Scalar::{
    Bool, Datetime64, Float64, Int64, Interval, Null, Period, Timedelta64, Utf8,
};
use fp_types::{IntervalClosed, PeriodFreq, Scalar};

verus! {

#[verifier::external_type_specification]
#[verifier::external_body]
pub struct ExScalar(Scalar);

#[verifier::external_type_specification]
#[verifier::external_body]
pub struct ExPeriodFreq(PeriodFreq);

#[verifier::external_type_specification]
#[verifier::external_body]
pub struct ExIntervalClosed(IntervalClosed);

/// The kind of a null.
#[derive(Debug, Clone, Copy, PartialEq, Eq, Structural)]
pub enum NullKind {
    Null,
    NaN,
    NaT,
}

/// What a scalar holds, mathematically: its kind and its fields. A float
/// stands as its IEEE-754 bit pattern.
pub enum DatumView {
    Null(NullKind),
    Bool(bool),
    Int64(i64),
    Float64(u64),
    Utf8(Seq<char>),
    Timedelta64(i64),
    Datetime64(i64),
    Period(i64, PeriodFreq),
    Interval(u64, u64, IntervalClosed),
}

/// What a scalar holds, as plain values.
#[derive(Debug, PartialEq, Eq)]
pub enum Datum {
    Null(NullKind),
    Bool(bool),
    Int64(i64),
    Float64(u64),
    Utf8(String),
    Timedelta64(i64),
    Datetime64(i64),
    Period(i64, PeriodFreq),
    Interval(u64, u64, IntervalClosed),
}

impl View for Datum {
    type V = DatumView;

    open spec fn view(&self) -> DatumView {
        match self {
            Datum::Null(kind) => DatumView::Null(*kind),
            Datum::Bool(v) => DatumView::Bool(*v),
            Datum::Int64(v) => DatumView::Int64(*v),
            Datum::Float64(bits) => DatumView::Float64(*bits),
            Datum::Utf8(s) => DatumView::Utf8(s@),
            Datum::Timedelta64(v) => DatumView::Timedelta64(*v),
            Datum::Datetime64(v) => DatumView::Datetime64(*v),
            Datum::Period(ordinal, freq) => DatumView::Period(*ordinal, *freq),
            Datum::Interval(left, right, closed) => DatumView::Interval(*left, *right, *closed),
        }
    }
}

/// The number that stands for "not a time" in a duration, a time and the
/// ordinal of a period.
pub const NOT_A_TIME: i64 = i64::MIN;

/// The bit pattern is one of a NaN: all exponent bits set and a fraction that
/// is not zero.
pub open spec fn is_nan_bits(bits: u64) -> bool {
    (bits & 0x7ff0_0000_0000_0000u64) == 0x7ff0_0000_0000_0000u64 && (bits
        & 0x000f_ffff_ffff_ffffu64) != 0
}

/// Whether the datum stands for a missing value: a null of any kind, a float
/// NaN, or a duration, a time or a period that is "not a time".
pub open spec fn datum_is_missing(d: DatumView) -> bool {
    match d {
        DatumView::Null(_) => true,
        DatumView::Float64(bits) => is_nan_bits(bits),
        DatumView::Timedelta64(v) => v == NOT_A_TIME,
        DatumView::Datetime64(v) => v == NOT_A_TIME,
        DatumView::Period(ordinal, _) => ordinal == NOT_A_TIME,
        _ => false,
    }
}

/// Whether the datum has a value as a float: whether it is a bool, an integer
/// or a float.
pub open spec fn datum_has_float(d: DatumView) -> bool {
    d is Bool || d is Int64 || d is Float64
}

/// Whether the datum is of one of the kinds that series are computed with: a
/// null, a bool, an integer, a float or a text.
pub open spec fn datum_is_plain(d: DatumView) -> bool {
    d is Null || d is Bool || d is Int64 || d is Float64 || d is Utf8
}

/// The datum of a scalar.
pub uninterp spec fn scalar_datum(s: Scalar) -> DatumView;

/// The text that a float scalar is displayed as.
pub uninterp spec fn scalar_text(s: Scalar) -> Seq<char>;

/// The float sum that `fp_types` computes of a sequence of scalars.
pub uninterp spec fn float_sum(values: Seq<Scalar>) -> Scalar;

/// Every scalar is of a plain kind.
pub open spec fn all_plain(values: Seq<Scalar>) -> bool {
    forall|i: int| 0 <= i < values.len() ==> datum_is_plain(scalar_datum(#[trigger] values[i]))
}

/// Every scalar is present and has a value as a float.
pub open spec fn all_summable(values: Seq<Scalar>) -> bool {
    forall|i: int|
        0 <= i < values.len() ==> datum_has_float(scalar_datum(#[trigger] values[i]))
            && !datum_is_missing(scalar_datum(values[i]))
}

/// Reads a scalar of `fp_types` into plain values: one arm for each variant of
/// `fp_types::Scalar` and `fp_types::NullKind`, each moving the fields as they
/// are, a float as its bits (`f64::to_bits`).
#[verifier::external_body]
pub(crate) fn read_scalar(s: &Scalar) -> (d: Datum)
    ensures
        d@ == scalar_datum(*s),
{
    match s {
        Null(fp_types::NullKind::Null) => Datum::Null(NullKind::Null),
        Null(fp_types::NullKind::NaN) => Datum::Null(NullKind::NaN),
        Null(fp_types::NullKind::NaT) => Datum::Null(NullKind::NaT),
        Bool(v) => Datum::Bool(*v),
        Int64(v) => Datum::Int64(*v),
        Float64(v) => Datum::Float64(v.to_bits()),
        Utf8(v) => Datum::Utf8(v.clone()),
        Timedelta64(v) => Datum::Timedelta64(*v),
        Datetime64(v) => Datum::Datetime64(*v),
        Period(p) => Datum::Period(p.ordinal, p.freq),
        Interval(v) => Datum::Interval(v.left.to_bits(), v.right.to_bits(), v.closed),
    }
}

/// `Display` of `fp_types::Scalar`, through `to_string`, for a float: the text
/// depends on the scalar alone. Scalars of other kinds are left out: the text
/// of a period is computed with unchecked additions.
#[verifier::external_body]
pub(crate) fn display_scalar(s: &Scalar) -> (text: String)
    requires
        scalar_datum(*s) is Float64,
    ensures
        text@ == scalar_text(*s),
{
    s.to_string()
}

/// `Clone` of `fp_types::Scalar`, which is derived: the clone equals the
/// scalar.
pub assume_specification[ <Scalar as Clone>::clone ](s: &Scalar) -> (r: Scalar)
    ensures
        r == *s,
;

/// `fp_types::nansum`, on scalars that are all present bools, integers or
/// floats: a fold over them in order that starts at zero and adds, in floating
/// point, the value of each. The result depends on the sequence alone and is
/// a float. Scalars of other kinds are left out: the function asks each
/// scalar for its float value, and a period answers with a text that is
/// computed with unchecked additions.
pub assume_specification[ fp_types::nansum ](values: &[Scalar]) -> (r: Scalar)
    requires
        all_summable(values@),
    ensures
        r == float_sum(values@),
        scalar_datum(r) is Float64,
;

/// Whether the bit pattern is one of a NaN.
pub fn bits_are_nan(bits: u64) -> (r: bool)
    ensures
        r == is_nan_bits(bits),
{
    (bits & 0x7ff0_0000_0000_0000u64) == 0x7ff0_0000_0000_0000u64 && (bits
        & 0x000f_ffff_ffff_ffffu64) != 0
}

impl Datum {
    /// Whether the datum stands for a missing value.
    pub fn is_missing(&self) -> (r: bool)
        ensures
            r == datum_is_missing(self@),
    {
        match self {
            Datum::Null(_) => true,
            Datum::Float64(bits) => bits_are_nan(*bits),
            Datum::Timedelta64(v) => *v == NOT_A_TIME,
            Datum::Datetime64(v) => *v == NOT_A_TIME,
            Datum::Period(ordinal, _) => *ordinal == NOT_A_TIME,
            _ => false,
        }
    }

    /// Whether the datum has a value as a float.
    pub fn has_float(&self) -> (r: bool)
        ensures
            r == datum_has_float(self@),
    {
        match self {
            Datum::Bool(_) => true,
            Datum::Int64(_) => true,
            Datum::Float64(_) => true,
            _ => false,
        }
    }

    /// Whether the datum is of a plain kind.
    pub fn is_plain(&self) -> (r: bool)
        ensures
            r == datum_is_plain(self@),
    {
        match self {
            Datum::Null(_) => true,
            Datum::Bool(_) => true,
            Datum::Int64(_) => true,
            Datum::Float64(_) => true,
            Datum::Utf8(_) => true,
            _ => false,
        }
    }
}

/// Whether every scalar is of a plain kind.
pub fn holds_plain(values: &[Scalar]) -> (r: bool)
    ensures
        r == all_plain(values@),
{
    let mut i: usize = 0;
    while i < values.len()
        invariant
            i <= values.len(),
            forall|j: int| 0 <= j < i ==> datum_is_plain(scalar_datum(#[trigger] values@[j])),
        decreases values.len() - i,
    {
        if !read_scalar(&values[i]).is_plain() {
            return false;
        }
        i += 1;
    }
    true
}

} // verus!
