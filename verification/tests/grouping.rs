use fp_frame::arena::{group_rows_arena, group_rows_dense_arena};
use fp_frame::groupby::read_keys;
use fp_frame::paths::{dense_int64_range, group_rows, group_rows_dense};
use fp_frame::scalar::{bits_are_nan, holds_plain, Datum, NullKind as OwnNullKind};
use fp_frame::{
    estimate_groupby_intermediate_bytes, groupby_sum, groupby_sum_with_options,
    groupby_sum_with_trace, FrameError, GroupByError, GroupByExecutionOptions, GroupByOptions,
    GroupKey, Grouping, IndexLabel, RuntimePolicy, Series, DEFAULT_ARENA_BUDGET_BYTES,
};
use fp_runtime::EvidenceLedger;
use fp_types::{Interval, IntervalClosed, NullKind, Period, PeriodFreq, Scalar};

fn rows(n: usize) -> Vec<IndexLabel> {
    (0..n).map(|i| IndexLabel::Int64(i as i64)).collect()
}

fn sums_of(keys: Vec<Scalar>, values: Vec<Scalar>, dropna: bool) -> Series {
    let n = keys.len();
    let keys = Series::from_values("key", rows(n), keys).expect("keys");
    let values = Series::from_values("value", rows(n), values).expect("values");
    groupby_sum(
        &keys,
        &values,
        GroupByOptions { dropna },
        &RuntimePolicy::strict(),
        &mut EvidenceLedger::new(),
    )
    .expect("groupby")
}

fn int_keys(values: &[i64]) -> Vec<GroupKey> {
    values.iter().map(|v| GroupKey::Int64(*v)).collect()
}

#[test]
fn the_estimate_is_81_bytes_a_row_and_saturates() {
    assert_eq!(estimate_groupby_intermediate_bytes(0), 0);
    assert_eq!(estimate_groupby_intermediate_bytes(1), 81);
    assert_eq!(estimate_groupby_intermediate_bytes(3), 243);
    assert_eq!(estimate_groupby_intermediate_bytes(usize::MAX / 81), usize::MAX / 81 * 81);
    assert_eq!(estimate_groupby_intermediate_bytes(usize::MAX / 81 + 1), usize::MAX);
    assert_eq!(estimate_groupby_intermediate_bytes(usize::MAX), usize::MAX);
}

#[test]
fn the_defaults_drop_missing_keys_and_use_an_arena_of_256_mib() {
    assert!(GroupByOptions::default().dropna);
    let exec = GroupByExecutionOptions::default();
    assert!(exec.use_arena);
    assert_eq!(exec.arena_budget_bytes, 268_435_456);
    assert_eq!(DEFAULT_ARENA_BUDGET_BYTES, 268_435_456);
}

#[test]
fn keys_are_read_kind_by_kind() {
    assert_eq!(GroupKey::from_scalar(&Scalar::Null(NullKind::Null)), GroupKey::Null);
    assert_eq!(GroupKey::from_scalar(&Scalar::Null(NullKind::NaN)), GroupKey::Null);
    assert_eq!(GroupKey::from_scalar(&Scalar::Null(NullKind::NaT)), GroupKey::Null);
    assert_eq!(GroupKey::from_scalar(&Scalar::Bool(true)), GroupKey::Bool(true));
    assert_eq!(GroupKey::from_scalar(&Scalar::Int64(-7)), GroupKey::Int64(-7));
    assert_eq!(
        GroupKey::from_scalar(&Scalar::Float64(1.5)),
        GroupKey::FloatBits(1.5_f64.to_bits())
    );
    assert_eq!(
        GroupKey::from_scalar(&Scalar::Utf8("k".to_owned())),
        GroupKey::Utf8("k".to_owned())
    );
    assert_eq!(
        GroupKey::from_scalar(&Scalar::Timedelta64(i64::MIN)),
        GroupKey::Other { missing: true }
    );
    assert_eq!(
        GroupKey::from_scalar(&Scalar::Timedelta64(7)),
        GroupKey::Other { missing: false }
    );
    assert_eq!(
        GroupKey::from_scalar(&Scalar::Datetime64(i64::MIN)),
        GroupKey::Other { missing: true }
    );
    assert_eq!(GroupKey::from_scalar(&Scalar::Datetime64(5)), GroupKey::Other { missing: false });
    assert_eq!(
        GroupKey::from_scalar(&Scalar::Period(Period::new(i64::MIN, PeriodFreq::Daily))),
        GroupKey::Other { missing: true }
    );
    assert_eq!(
        GroupKey::from_scalar(&Scalar::Period(Period::new(i64::MAX, PeriodFreq::Annual))),
        GroupKey::Other { missing: false }
    );
    assert_eq!(
        GroupKey::from_scalar(&Scalar::Interval(Interval::new(
            0.0,
            1.0,
            IntervalClosed::Right
        ))),
        GroupKey::Other { missing: false }
    );
}

#[test]
fn datums_tell_what_is_missing_plain_and_a_number() {
    assert!(Datum::Null(OwnNullKind::NaT).is_missing());
    assert!(Datum::Null(OwnNullKind::Null).is_plain());
    assert!(!Datum::Null(OwnNullKind::NaN).has_float());
    assert!(Datum::Float64(f64::NAN.to_bits()).is_missing());
    assert!(!Datum::Float64(1.0_f64.to_bits()).is_missing());
    assert!(Datum::Float64(1.0_f64.to_bits()).has_float());
    assert!(Datum::Bool(false).has_float() && Datum::Bool(false).is_plain());
    assert!(Datum::Int64(0).has_float() && !Datum::Int64(i64::MIN).is_missing());
    assert!(Datum::Utf8("t".to_owned()).is_plain() && !Datum::Utf8("t".to_owned()).has_float());
    assert!(Datum::Timedelta64(i64::MIN).is_missing());
    assert!(!Datum::Timedelta64(0).is_missing() && !Datum::Timedelta64(0).is_plain());
    assert!(Datum::Datetime64(i64::MIN).is_missing() && !Datum::Datetime64(1).has_float());
    assert!(Datum::Period(i64::MIN, PeriodFreq::Annual).is_missing());
    assert!(!Datum::Period(i64::MAX, PeriodFreq::Annual).is_missing());
    assert!(!Datum::Period(0, PeriodFreq::Daily).is_plain());
    let interval = Datum::Interval(0, 1, IntervalClosed::Both);
    assert!(!interval.is_missing() && !interval.is_plain() && !interval.has_float());
    assert!(holds_plain(&[Scalar::Int64(1), Scalar::Null(NullKind::NaT), Scalar::Bool(true)]));
    assert!(holds_plain(&[]));
    assert!(!holds_plain(&[Scalar::Int64(1), Scalar::Datetime64(1)]));
    assert!(!holds_plain(&[Scalar::Period(Period::new(i64::MAX, PeriodFreq::Annual))]));
}

#[test]
fn keys_of_further_kinds_are_refused_unless_they_are_dropped() {
    let period = Scalar::Period(Period::new(i64::MAX, PeriodFreq::Annual));
    let gone = Scalar::Period(Period::new(i64::MIN, PeriodFreq::Annual));
    let run = |keys: Vec<Scalar>, dropna: bool| {
        let n = keys.len();
        let keys = Series::from_values("key", rows(n), keys).expect("keys");
        let values =
            Series::from_values("value", rows(n), vec![Scalar::Int64(1); n]).expect("values");
        groupby_sum(
            &keys,
            &values,
            GroupByOptions { dropna },
            &RuntimePolicy::strict(),
            &mut EvidenceLedger::new(),
        )
    };
    for dropna in [true, false] {
        match run(vec![period.clone(), period.clone()], dropna) {
            Err(GroupByError::Frame(FrameError::UnsupportedScalar)) => {}
            other => panic!("unexpected {other:?}"),
        }
    }
    // A period that is not a time is a missing key: dropped, or refused where
    // missing keys are kept.
    let out = run(vec![gone.clone(), gone.clone()], true).expect("dropped");
    assert_eq!(out.len(), 0);
    assert!(matches!(
        run(vec![gone.clone()], false),
        Err(GroupByError::Frame(FrameError::UnsupportedScalar))
    ));
    assert!(matches!(
        run(vec![Scalar::Timedelta64(3)], true),
        Err(GroupByError::Frame(FrameError::UnsupportedScalar))
    ));
}

#[test]
fn values_of_further_kinds_add_nothing_and_are_not_displayed() {
    let period = Scalar::Period(Period::new(i64::MAX, PeriodFreq::Annual));
    let out = sums_of(
        vec![Scalar::Int64(1), Scalar::Int64(1), Scalar::Int64(2)],
        vec![period.clone(), period.clone(), period],
        true,
    );
    assert_eq!(out.index().labels(), &[IndexLabel::Int64(1), IndexLabel::Int64(2)]);
    assert_eq!(out.values(), &[Scalar::Float64(0.0), Scalar::Float64(0.0)]);
}

#[test]
fn every_nan_is_the_one_canonical_key() {
    let quiet = f64::NAN;
    let other = f64::from_bits(0x7ff0_0000_0000_0001);
    let negative = f64::from_bits(0xfff8_0000_0000_00ff);
    assert!(other.is_nan() && negative.is_nan());
    let canonical = GroupKey::FloatBits(0x7ff8_0000_0000_0000);
    assert_eq!(GroupKey::from_scalar(&Scalar::Float64(quiet)), canonical);
    assert_eq!(GroupKey::from_scalar(&Scalar::Float64(other)), canonical);
    assert_eq!(GroupKey::from_scalar(&Scalar::Float64(negative)), canonical);
    assert!(canonical.is_missing());
    assert_eq!(
        GroupKey::from_datum(Datum::Float64(f64::INFINITY.to_bits())),
        GroupKey::FloatBits(0x7ff0_0000_0000_0000)
    );
    assert!(!GroupKey::FloatBits(0x7ff0_0000_0000_0000).is_missing());
    assert!(bits_are_nan(0x7ff0_0000_0000_0001));
    assert!(bits_are_nan(0xffff_ffff_ffff_ffff));
    assert!(!bits_are_nan(0x7ff0_0000_0000_0000));
    assert!(!bits_are_nan(0xfff0_0000_0000_0000));
    assert!(!bits_are_nan(0));
    assert!(!bits_are_nan(1.5_f64.to_bits()));
    assert!(!bits_are_nan(0x000f_ffff_ffff_ffff));
}

#[test]
fn keys_of_different_kinds_are_different_keys() {
    assert!(!GroupKey::Bool(true).same(&GroupKey::Int64(1)));
    assert!(!GroupKey::Bool(false).same(&GroupKey::Int64(0)));
    assert!(!GroupKey::Int64(1).same(&GroupKey::FloatBits(1)));
    assert!(!GroupKey::Utf8("1".to_owned()).same(&GroupKey::Int64(1)));
    assert!(!GroupKey::Null.same(&GroupKey::Utf8("<null>".to_owned())));
    assert!(GroupKey::Null.same(&GroupKey::Null));
    assert!(GroupKey::Utf8("a".to_owned()).same(&GroupKey::Utf8("a".to_owned())));
    assert!(!GroupKey::Utf8("a".to_owned()).same(&GroupKey::Utf8("b".to_owned())));
    let other = GroupKey::Other { missing: false };
    assert!(other.same(&GroupKey::Other { missing: false }));
    assert!(!other.same(&GroupKey::Other { missing: true }));
    assert!(!other.same(&GroupKey::Utf8("t".to_owned())));
    assert!(!other.is_plain() && GroupKey::Null.is_plain() && GroupKey::Int64(1).is_plain());
    assert!(GroupKey::Other { missing: true }.is_missing());
    assert!(GroupKey::Null.is_missing());
    assert!(!GroupKey::Int64(0).is_missing());
    assert!(!other.is_missing());
}

#[test]
fn groups_come_in_first_seen_order_with_their_rows() {
    let keys = vec![
        GroupKey::Utf8("b".to_owned()),
        GroupKey::Null,
        GroupKey::Utf8("a".to_owned()),
        GroupKey::Utf8("b".to_owned()),
        GroupKey::Null,
        GroupKey::Utf8("a".to_owned()),
    ];
    let kept = group_rows(&keys, false);
    assert_eq!(kept.first_rows, vec![0, 1, 2]);
    assert_eq!(kept.members, vec![vec![0, 3], vec![1, 4], vec![2, 5]]);
    let dropped = group_rows(&keys, true);
    assert_eq!(dropped.first_rows, vec![0, 2]);
    assert_eq!(dropped.members, vec![vec![0, 3], vec![2, 5]]);
    let none = group_rows(&[], true);
    assert_eq!(none, Grouping { first_rows: vec![], members: vec![] });
}

#[test]
fn the_range_of_integer_keys() {
    assert_eq!(dense_int64_range(&int_keys(&[10, 5, 10, -2]), true), Some((-2, 10, true)));
    assert_eq!(dense_int64_range(&[], true), Some((i64::MAX, i64::MIN, false)));
    let with_null = vec![GroupKey::Int64(3), GroupKey::Null];
    assert_eq!(dense_int64_range(&with_null, true), Some((3, 3, true)));
    assert_eq!(dense_int64_range(&with_null, false), None);
    assert_eq!(dense_int64_range(&[GroupKey::Null], true), Some((i64::MAX, i64::MIN, false)));
    assert_eq!(dense_int64_range(&[GroupKey::Int64(1), GroupKey::Bool(true)], true), None);
    // A float NaN is missing but is no null: the dense path does not take it.
    assert_eq!(
        dense_int64_range(&[GroupKey::FloatBits(0x7ff8_0000_0000_0000)], true),
        None
    );
}

#[test]
fn the_dense_path_takes_a_span_of_65536_and_no_more() {
    let at_limit = int_keys(&[0, 65_535, 0]);
    let dense = group_rows_dense(&at_limit, true).expect("dense");
    assert_eq!(dense.first_rows, vec![0, 1]);
    assert_eq!(dense.members, vec![vec![0, 2], vec![1]]);
    assert_eq!(group_rows_dense(&int_keys(&[0, 65_536]), true), None);
    assert_eq!(group_rows_dense_arena(&int_keys(&[0, 65_536]), true), None);
    assert_eq!(group_rows_dense(&int_keys(&[i64::MIN, i64::MAX]), true), None);
    assert_eq!(group_rows_dense_arena(&int_keys(&[i64::MIN, i64::MAX]), true), None);
    let edge = int_keys(&[i64::MAX, i64::MAX - 1, i64::MAX]);
    assert_eq!(group_rows_dense(&edge, true), Some(group_rows(&edge, true)));
    let low = int_keys(&[i64::MIN + 2, i64::MIN, i64::MIN + 2]);
    assert_eq!(group_rows_dense_arena(&low, true), Some(group_rows(&low, true)));
}

#[test]
fn the_dense_path_gives_nothing_for_other_keys_and_no_group_for_no_key() {
    assert_eq!(group_rows_dense(&[GroupKey::Utf8("a".to_owned())], true), None);
    assert_eq!(group_rows_dense(&[GroupKey::Int64(1), GroupKey::Null], false), None);
    let empty = Grouping { first_rows: vec![], members: vec![] };
    assert_eq!(group_rows_dense(&[], true), Some(Grouping { first_rows: vec![], members: vec![] }));
    assert_eq!(group_rows_dense(&[GroupKey::Null, GroupKey::Null], true), Some(empty));
    let empty = Grouping { first_rows: vec![], members: vec![] };
    assert_eq!(group_rows_dense_arena(&[GroupKey::Null], true), Some(empty));
}

#[test]
fn dense_and_generic_paths_give_the_same_groups() {
    let keys = vec![
        GroupKey::Int64(10),
        GroupKey::Null,
        GroupKey::Int64(5),
        GroupKey::Int64(10),
        GroupKey::Int64(-2),
        GroupKey::Null,
        GroupKey::Int64(5),
    ];
    let generic = group_rows(&keys, true);
    assert_eq!(generic.first_rows, vec![0, 2, 4]);
    assert_eq!(generic.members, vec![vec![0, 3], vec![2, 6], vec![4]]);
    assert_eq!(group_rows_dense(&keys, true), Some(group_rows(&keys, true)));
}

#[test]
fn arena_and_global_tables_give_the_same_groups() {
    let texts = vec![
        GroupKey::Utf8("x".to_owned()),
        GroupKey::Bool(true),
        GroupKey::Utf8("x".to_owned()),
        GroupKey::Null,
        GroupKey::Bool(true),
    ];
    for dropna in [true, false] {
        assert_eq!(group_rows_arena(&texts, dropna), group_rows(&texts, dropna));
    }
    let ints = int_keys(&[3, 1, 3, 2, 1, 1]);
    let dense = group_rows_dense(&ints, true).expect("dense");
    assert_eq!(dense.first_rows, vec![0, 1, 3]);
    assert_eq!(dense.members, vec![vec![0, 2], vec![1, 4, 5], vec![3]]);
    assert_eq!(group_rows_dense_arena(&ints, true), Some(dense));
}

#[test]
fn read_keys_reads_every_scalar_in_order() {
    let keys = read_keys(&[Scalar::Int64(1), Scalar::Utf8("a".to_owned()), Scalar::Bool(false)]);
    assert_eq!(
        keys,
        vec![GroupKey::Int64(1), GroupKey::Utf8("a".to_owned()), GroupKey::Bool(false)]
    );
}

#[test]
fn the_output_has_as_many_labels_as_sums() {
    let out = sums_of(
        vec![Scalar::Int64(1), Scalar::Int64(2), Scalar::Int64(1)],
        vec![Scalar::Int64(1), Scalar::Int64(2), Scalar::Int64(3)],
        true,
    );
    assert_eq!(out.name(), "sum");
    assert_eq!(out.index().len(), out.values().len());
    assert_eq!(out.len(), 2);
}

#[test]
fn missing_keys_are_dropped_or_form_one_null_group() {
    let keys = vec![
        Scalar::Utf8("a".to_owned()),
        Scalar::Null(NullKind::Null),
        Scalar::Null(NullKind::NaN),
        Scalar::Utf8("a".to_owned()),
        Scalar::Null(NullKind::NaT),
    ];
    let values = vec![
        Scalar::Int64(1),
        Scalar::Int64(2),
        Scalar::Int64(4),
        Scalar::Int64(8),
        Scalar::Int64(16),
    ];
    let dropped = sums_of(keys.clone(), values.clone(), true);
    assert_eq!(dropped.index().labels(), &[IndexLabel::from("a")]);
    assert_eq!(dropped.values(), &[Scalar::Float64(9.0)]);
    let kept = sums_of(keys, values, false);
    assert_eq!(kept.index().labels(), &[IndexLabel::from("a"), IndexLabel::from("<null>")]);
    assert_eq!(kept.values(), &[Scalar::Float64(9.0), Scalar::Float64(22.0)]);
}

#[test]
fn all_keys_dropped_gives_an_empty_series() {
    let out = sums_of(
        vec![Scalar::Null(NullKind::Null), Scalar::Null(NullKind::NaN)],
        vec![Scalar::Int64(1), Scalar::Int64(2)],
        true,
    );
    assert_eq!(out.len(), 0);
    assert_eq!(out.name(), "sum");
}

#[test]
fn bool_and_float_keys_are_labelled_by_their_text() {
    let bools = sums_of(
        vec![Scalar::Bool(true), Scalar::Bool(false), Scalar::Bool(true)],
        vec![Scalar::Int64(1), Scalar::Int64(100), Scalar::Int64(1000)],
        true,
    );
    assert_eq!(
        bools.index().labels(),
        &[IndexLabel::from("true"), IndexLabel::from("false")]
    );
    assert_eq!(bools.values(), &[Scalar::Float64(1001.0), Scalar::Float64(100.0)]);
    let floats = sums_of(
        vec![Scalar::Float64(1.5), Scalar::Float64(-0.25), Scalar::Float64(1.5)],
        vec![Scalar::Int64(3), Scalar::Int64(10), Scalar::Int64(4)],
        true,
    );
    assert_eq!(
        floats.index().labels(),
        &[IndexLabel::from("1.5"), IndexLabel::from("-0.25")]
    );
    assert_eq!(floats.values(), &[Scalar::Float64(7.0), Scalar::Float64(10.0)]);
}

#[test]
fn nan_keys_are_one_group_where_missing_keys_are_kept() {
    let keys = vec![
        Scalar::Float64(f64::NAN),
        Scalar::Float64(2.0),
        Scalar::Float64(f64::from_bits(0x7ff0_0000_0000_0001)),
    ];
    let values = vec![Scalar::Int64(1), Scalar::Int64(2), Scalar::Int64(4)];
    let kept = sums_of(keys.clone(), values.clone(), false);
    assert_eq!(kept.index().labels(), &[IndexLabel::from("NaN"), IndexLabel::from("2")]);
    assert_eq!(kept.values(), &[Scalar::Float64(5.0), Scalar::Float64(2.0)]);
    let dropped = sums_of(keys, values, true);
    assert_eq!(dropped.index().labels(), &[IndexLabel::from("2")]);
    assert_eq!(dropped.values(), &[Scalar::Float64(2.0)]);
}

#[test]
fn values_are_summed_as_floats_and_what_is_not_a_number_is_skipped() {
    let out = sums_of(
        vec![Scalar::Int64(1); 5],
        vec![
            Scalar::Float64(0.5),
            Scalar::Bool(true),
            Scalar::Utf8("text".to_owned()),
            Scalar::Float64(f64::NAN),
            Scalar::Int64(2),
        ],
        true,
    );
    assert_eq!(out.index().labels(), &[IndexLabel::Int64(1)]);
    assert_eq!(out.values(), &[Scalar::Float64(3.5)]);
}

#[test]
fn a_missing_value_lowers_only_the_sum_of_its_group() {
    let keys = vec![
        Scalar::Utf8("a".to_owned()),
        Scalar::Utf8("b".to_owned()),
        Scalar::Utf8("a".to_owned()),
        Scalar::Utf8("c".to_owned()),
    ];
    let full = sums_of(
        keys.clone(),
        vec![Scalar::Int64(1), Scalar::Int64(2), Scalar::Int64(4), Scalar::Int64(8)],
        true,
    );
    let holed = sums_of(
        keys,
        vec![
            Scalar::Int64(1),
            Scalar::Int64(2),
            Scalar::Null(NullKind::Null),
            Scalar::Int64(8),
        ],
        true,
    );
    assert_eq!(full.index().labels(), holed.index().labels());
    assert_eq!(
        full.values(),
        &[Scalar::Float64(5.0), Scalar::Float64(2.0), Scalar::Float64(8.0)]
    );
    assert_eq!(
        holed.values(),
        &[Scalar::Float64(1.0), Scalar::Float64(2.0), Scalar::Float64(8.0)]
    );
}

#[test]
fn keys_and_values_are_matched_by_label() {
    let keys = Series::from_values(
        "key",
        vec![IndexLabel::from("r1"), IndexLabel::from("r2"), IndexLabel::from("r3")],
        vec![
            Scalar::Utf8("a".to_owned()),
            Scalar::Utf8("b".to_owned()),
            Scalar::Utf8("a".to_owned()),
        ],
    )
    .expect("keys");
    let values = Series::from_values(
        "value",
        vec![IndexLabel::from("r3"), IndexLabel::from("r4"), IndexLabel::from("r1")],
        vec![Scalar::Int64(30), Scalar::Int64(40), Scalar::Int64(10)],
    )
    .expect("values");
    let mut ledger = EvidenceLedger::new();
    let dropped = groupby_sum(
        &keys,
        &values,
        GroupByOptions::default(),
        &RuntimePolicy::strict(),
        &mut ledger,
    )
    .expect("groupby");
    // The row of r2 has no value and the row of r4 has no key.
    assert_eq!(dropped.index().labels(), &[IndexLabel::from("a"), IndexLabel::from("b")]);
    assert_eq!(dropped.values(), &[Scalar::Float64(40.0), Scalar::Float64(0.0)]);
    let kept = groupby_sum(
        &keys,
        &values,
        GroupByOptions { dropna: false },
        &RuntimePolicy::strict(),
        &mut ledger,
    )
    .expect("groupby");
    assert_eq!(
        kept.index().labels(),
        &[IndexLabel::from("a"), IndexLabel::from("b"), IndexLabel::from("<null>")]
    );
    assert_eq!(
        kept.values(),
        &[Scalar::Float64(40.0), Scalar::Float64(0.0), Scalar::Float64(40.0)]
    );
    // A group-by records no decision.
    assert!(ledger.records().is_empty());
}

#[test]
fn the_trace_tells_the_rows_the_estimate_and_the_choice() {
    let keys = Series::from_values(
        "key",
        rows(3),
        vec![Scalar::Int64(1), Scalar::Int64(2), Scalar::Int64(1)],
    )
    .expect("keys");
    let values = Series::from_values(
        "value",
        rows(3),
        vec![Scalar::Int64(1), Scalar::Int64(2), Scalar::Int64(3)],
    )
    .expect("values");
    let run = |exec: GroupByExecutionOptions| {
        groupby_sum_with_trace(
            &keys,
            &values,
            GroupByOptions::default(),
            &RuntimePolicy::strict(),
            &mut EvidenceLedger::new(),
            exec,
        )
        .expect("groupby")
    };
    let (at_budget, trace) = run(GroupByExecutionOptions { use_arena: true, arena_budget_bytes: 243 });
    assert!(trace.used_arena);
    assert_eq!(trace.input_rows, 3);
    assert_eq!(trace.estimated_bytes, 243);
    let (under_budget, trace) =
        run(GroupByExecutionOptions { use_arena: true, arena_budget_bytes: 242 });
    assert!(!trace.used_arena);
    assert_eq!(trace.estimated_bytes, 243);
    let (no_arena, trace) =
        run(GroupByExecutionOptions { use_arena: false, arena_budget_bytes: usize::MAX });
    assert!(!trace.used_arena);
    assert_eq!(trace.input_rows, 3);
    for out in [&at_budget, &under_budget, &no_arena] {
        assert_eq!(out.index().labels(), &[IndexLabel::Int64(1), IndexLabel::Int64(2)]);
        assert_eq!(out.values(), &[Scalar::Float64(4.0), Scalar::Float64(2.0)]);
    }
}

#[test]
fn arena_and_global_runs_agree_on_every_kind_of_key() {
    let keys = vec![
        Scalar::Utf8("a".to_owned()),
        Scalar::Int64(1),
        Scalar::Null(NullKind::Null),
        Scalar::Bool(true),
        Scalar::Utf8("a".to_owned()),
        Scalar::Int64(1),
    ];
    let values = vec![
        Scalar::Int64(1),
        Scalar::Int64(2),
        Scalar::Int64(3),
        Scalar::Int64(4),
        Scalar::Int64(5),
        Scalar::Int64(6),
    ];
    let keys = Series::from_values("key", rows(6), keys).expect("keys");
    let values = Series::from_values("value", rows(6), values).expect("values");
    for dropna in [true, false] {
        let run = |use_arena: bool| {
            groupby_sum_with_options(
                &keys,
                &values,
                GroupByOptions { dropna },
                &RuntimePolicy::strict(),
                &mut EvidenceLedger::new(),
                GroupByExecutionOptions { use_arena, arena_budget_bytes: usize::MAX },
            )
            .expect("groupby")
        };
        let arena = run(true);
        let global = run(false);
        assert_eq!(arena.index().labels(), global.index().labels());
        assert_eq!(arena.values(), global.values());
    }
}

#[test]
fn values_without_a_float_value_add_nothing() {
    let out = sums_of(
        vec![Scalar::Int64(1), Scalar::Int64(1), Scalar::Int64(2)],
        vec![Scalar::Timedelta64(5), Scalar::Timedelta64(7), Scalar::Timedelta64(9)],
        true,
    );
    assert_eq!(out.index().labels(), &[IndexLabel::Int64(1), IndexLabel::Int64(2)]);
    assert_eq!(out.values(), &[Scalar::Float64(0.0), Scalar::Float64(0.0)]);
    let texts = sums_of(
        vec![Scalar::Int64(1), Scalar::Int64(1)],
        vec![Scalar::Utf8("3".to_owned()), Scalar::Utf8("4".to_owned())],
        true,
    );
    assert_eq!(texts.values(), &[Scalar::Float64(0.0)]);
}

#[test]
fn bools_count_as_one_and_zero() {
    let out = sums_of(
        vec![Scalar::Int64(1); 3],
        vec![Scalar::Bool(true), Scalar::Bool(false), Scalar::Bool(true)],
        true,
    );
    assert_eq!(out.values(), &[Scalar::Float64(2.0)]);
}
