use fp_frame::names::{compare_bytes, compare_names, NameOrder};
use fp_frame::series::{admission_result, check_duplicates, join_names};
use fp_frame::text::decimal;
use fp_frame::{
    concat_series, DataFrame, DecisionAction, FrameError, GroupByError, Index, IndexError,
    IndexLabel, RuntimeMode, RuntimePolicy, Series,
};
use fp_columnar::Column;
use fp_runtime::EvidenceLedger;
use fp_types::{NullKind, Period, PeriodFreq, Scalar};

fn int_series(name: &str, labels: &[i64], values: &[i64]) -> Series {
    Series::from_values(
        name,
        labels.iter().map(|v| IndexLabel::Int64(*v)).collect(),
        values.iter().map(|v| Scalar::Int64(*v)).collect(),
    )
    .expect("series")
}

#[test]
fn new_refuses_a_column_of_another_length() {
    let index = Index::new(vec![IndexLabel::Int64(1), IndexLabel::Int64(2)]);
    let column = Column::from_values(vec![Scalar::Int64(1)]).expect("column");
    let err = Series::new("s", index, column).expect_err("length mismatch");
    assert!(matches!(
        err,
        FrameError::LengthMismatch { index_len: 2, column_len: 1 }
    ));
}

#[test]
fn from_values_refuses_labels_of_another_length() {
    let err = Series::from_values(
        "s",
        vec![IndexLabel::Int64(1)],
        vec![Scalar::Int64(1), Scalar::Int64(2), Scalar::Int64(3)],
    )
    .expect_err("length mismatch");
    assert!(matches!(
        err,
        FrameError::LengthMismatch { index_len: 1, column_len: 3 }
    ));
}

#[test]
fn a_series_keeps_what_it_was_given() {
    let s = int_series("s", &[7, 8, 9], &[70, 80, 90]);
    assert_eq!(s.name(), "s");
    assert_eq!(s.len(), 3);
    assert!(!s.is_empty());
    assert_eq!(s.index().len(), s.column().len());
    assert_eq!(s.index().len(), s.values().len());
    assert_eq!(
        s.index().labels(),
        &[IndexLabel::Int64(7), IndexLabel::Int64(8), IndexLabel::Int64(9)]
    );
    assert_eq!(
        s.values(),
        &[Scalar::Int64(70), Scalar::Int64(80), Scalar::Int64(90)]
    );
}

#[test]
fn sum_takes_the_common_name_or_joins_the_names() {
    assert_eq!(join_names("a", "a"), "a");
    assert_eq!(join_names("left", "right"), "left+right");
    assert_eq!(join_names("", "x"), "+x");

    let a = int_series("v", &[1], &[1]);
    let b = int_series("v", &[1], &[2]);
    let c = int_series("w", &[1], &[3]);
    let policy = RuntimePolicy::hardened(None);
    let same = a
        .add_with_policy(&b, &policy, &mut EvidenceLedger::new())
        .expect("same name");
    assert_eq!(same.name(), "v");
    assert_eq!(same.values(), &[Scalar::Int64(3)]);
    let other = a
        .add_with_policy(&c, &policy, &mut EvidenceLedger::new())
        .expect("other name");
    assert_eq!(other.name(), "v+w");
    assert_eq!(other.values(), &[Scalar::Int64(4)]);
}

#[test]
fn sum_has_the_length_of_the_union() {
    let a = int_series("a", &[1, 2, 3], &[1, 2, 3]);
    let b = int_series("b", &[3, 4], &[30, 40]);
    let out = a.add(&b).expect("sum");
    assert_eq!(out.len(), 4);
    assert_eq!(out.index().len(), out.values().len());
    assert_eq!(
        out.index().labels(),
        &[
            IndexLabel::Int64(1),
            IndexLabel::Int64(2),
            IndexLabel::Int64(3),
            IndexLabel::Int64(4)
        ]
    );
    assert!(out.values()[0].is_missing());
    assert!(out.values()[1].is_missing());
    assert_eq!(out.values()[2], Scalar::Int64(33));
    assert!(out.values()[3].is_missing());
}

#[test]
fn a_null_operand_gives_a_null_sum() {
    let a = Series::from_values(
        "a",
        vec![IndexLabel::Int64(1), IndexLabel::Int64(2)],
        vec![Scalar::Null(NullKind::Null), Scalar::Int64(5)],
    )
    .expect("a");
    let b = Series::from_values(
        "b",
        vec![IndexLabel::Int64(1), IndexLabel::Int64(2)],
        vec![Scalar::Null(NullKind::Null), Scalar::Int64(6)],
    )
    .expect("b");
    let out = a.add(&b).expect("sum");
    assert!(out.values()[0].is_missing());
    assert_eq!(out.values()[1], Scalar::Int64(11));
}

#[test]
fn a_hardened_policy_adds_over_duplicates_and_records_both_decisions() {
    let a = int_series("a", &[1, 1, 2], &[10, 20, 30]);
    let b = int_series("b", &[1, 3], &[1, 3]);
    let mut ledger = EvidenceLedger::new();
    let out = a
        .add_with_policy(&b, &RuntimePolicy::hardened(Some(100)), &mut ledger)
        .expect("sum");
    // Each occurrence of the duplicate reads the first position that holds it.
    assert_eq!(
        out.index().labels(),
        &[
            IndexLabel::Int64(1),
            IndexLabel::Int64(1),
            IndexLabel::Int64(2),
            IndexLabel::Int64(3)
        ]
    );
    assert_eq!(out.values()[0], Scalar::Int64(11));
    assert_eq!(out.values()[1], Scalar::Int64(11));
    assert!(out.values()[2].is_missing());
    assert!(out.values()[3].is_missing());
    let subjects: Vec<&str> = ledger
        .records()
        .iter()
        .map(|r| r.issue.subject.as_str())
        .collect();
    assert_eq!(subjects, vec!["index_alignment", "join_estimator"]);
}

#[test]
fn a_strict_policy_records_the_duplicates_and_stops() {
    let a = int_series("a", &[1, 1], &[10, 20]);
    let b = int_series("b", &[1], &[1]);
    let mut ledger = EvidenceLedger::new();
    let err = a
        .add_with_policy(&b, &RuntimePolicy::strict(), &mut ledger)
        .expect_err("strict");
    assert!(matches!(err, FrameError::DuplicateIndexUnsupported));
    let subjects: Vec<&str> = ledger
        .records()
        .iter()
        .map(|r| r.issue.subject.as_str())
        .collect();
    assert_eq!(subjects, vec!["index_alignment"]);
}

#[test]
fn without_duplicates_only_the_admission_is_recorded() {
    let a = int_series("a", &[1], &[10]);
    let b = int_series("b", &[2], &[1]);
    let mut ledger = EvidenceLedger::new();
    a.add_with_policy(&b, &RuntimePolicy::strict(), &mut ledger)
        .expect("sum");
    a.add_with_policy(&b, &RuntimePolicy::hardened(Some(1)), &mut ledger)
        .expect("sum over the cap");
    let subjects: Vec<&str> = ledger
        .records()
        .iter()
        .map(|r| r.issue.subject.as_str())
        .collect();
    assert_eq!(subjects, vec!["join_estimator", "join_estimator"]);
}

#[test]
fn a_rejection_fails_the_operation_and_other_actions_do_not() {
    match admission_result(DecisionAction::Reject) {
        Err(FrameError::CompatibilityRejected(message)) => {
            assert_eq!(message, "runtime policy rejected alignment admission")
        }
        other => panic!("unexpected {other:?}"),
    }
    assert!(admission_result(DecisionAction::Allow).is_ok());
    assert!(admission_result(DecisionAction::Repair).is_ok());
}

#[test]
fn only_a_strict_policy_refuses_duplicates() {
    assert!(matches!(
        check_duplicates(true, &RuntimePolicy::strict()),
        Err(FrameError::DuplicateIndexUnsupported)
    ));
    assert!(check_duplicates(false, &RuntimePolicy::strict()).is_ok());
    assert!(check_duplicates(true, &RuntimePolicy::hardened(None)).is_ok());
    assert!(check_duplicates(false, &RuntimePolicy::hardened(Some(3))).is_ok());
}

#[test]
fn policies_are_what_their_constructors_say() {
    let strict = RuntimePolicy::strict();
    assert_eq!(strict.mode, RuntimeMode::Strict);
    assert!(strict.fail_closed_unknown_features);
    assert_eq!(strict.hardened_join_row_cap, None);
    assert!(strict.is_strict());
    let hardened = RuntimePolicy::hardened(Some(9));
    assert_eq!(hardened.mode, RuntimeMode::Hardened);
    assert!(!hardened.fail_closed_unknown_features);
    assert_eq!(hardened.hardened_join_row_cap, Some(9));
    assert!(!hardened.is_strict());
}

#[test]
fn adding_texts_is_a_column_error() {
    let a = Series::from_values(
        "a",
        vec![IndexLabel::Int64(1)],
        vec![Scalar::Utf8("x".to_owned())],
    )
    .expect("a");
    let b = Series::from_values(
        "b",
        vec![IndexLabel::Int64(1)],
        vec![Scalar::Utf8("y".to_owned())],
    )
    .expect("b");
    let err = a.add(&b).expect_err("texts do not add");
    assert!(matches!(err, FrameError::Column(_)));
}

#[test]
fn concat_of_many_is_named_concat_and_keeps_every_row() {
    let a = int_series("a", &[1, 2], &[10, 20]);
    let b = int_series("b", &[2], &[30]);
    let out = concat_series(&[&a, &b, &a]).expect("concat");
    assert_eq!(out.name(), "concat");
    assert_eq!(out.len(), 5);
    assert_eq!(out.index().len(), out.values().len());
    assert_eq!(
        out.index().labels(),
        &[
            IndexLabel::Int64(1),
            IndexLabel::Int64(2),
            IndexLabel::Int64(2),
            IndexLabel::Int64(1),
            IndexLabel::Int64(2)
        ]
    );
    assert_eq!(
        out.values(),
        &[
            Scalar::Int64(10),
            Scalar::Int64(20),
            Scalar::Int64(30),
            Scalar::Int64(10),
            Scalar::Int64(20)
        ]
    );
}

#[test]
fn concat_of_nothing_is_empty_and_named_concat() {
    let out = concat_series(&[]).expect("concat");
    assert_eq!(out.name(), "concat");
    assert_eq!(out.len(), 0);
}

#[test]
fn an_empty_frame_has_no_labels_and_no_columns() {
    let frame = DataFrame::from_series(Vec::new()).expect("frame");
    assert!(frame.index().is_empty());
    assert!(frame.columns().is_empty());
    assert!(frame.column("a").is_none());
}

#[test]
fn a_frame_holds_its_columns_in_name_order_at_the_length_of_the_union() {
    let b = int_series("b", &[2, 3], &[20, 30]);
    let a = int_series("a", &[1, 2], &[1, 2]);
    let c = int_series("c", &[4], &[400]);
    let frame = DataFrame::from_series(vec![b, a, c]).expect("frame");
    assert_eq!(
        frame.index().labels(),
        &[
            IndexLabel::Int64(2),
            IndexLabel::Int64(3),
            IndexLabel::Int64(1),
            IndexLabel::Int64(4)
        ]
    );
    let names: Vec<&str> = frame.columns().iter().map(|e| e.0.as_str()).collect();
    assert_eq!(names, vec!["a", "b", "c"]);
    for entry in frame.columns() {
        assert_eq!(entry.1.len(), frame.index().len());
    }
    let a_values = frame.column("a").expect("a").values();
    assert!(a_values[0] == Scalar::Int64(2));
    assert!(a_values[1].is_missing());
    assert!(a_values[2] == Scalar::Int64(1));
    assert!(a_values[3].is_missing());
    let c_values = frame.column("c").expect("c").values();
    assert!(c_values[0].is_missing());
    assert!(c_values[3] == Scalar::Int64(400));
    assert!(frame.column("d").is_none());
}

#[test]
fn a_name_that_comes_again_replaces_the_column() {
    let first = int_series("x", &[1, 2], &[1, 2]);
    let other = int_series("y", &[1, 2], &[5, 6]);
    let second = int_series("x", &[1, 2], &[10, 20]);
    let frame = DataFrame::from_series(vec![first, other, second]).expect("frame");
    let names: Vec<&str> = frame.columns().iter().map(|e| e.0.as_str()).collect();
    assert_eq!(names, vec!["x", "y"]);
    assert_eq!(
        frame.column("x").expect("x").values(),
        &[Scalar::Int64(10), Scalar::Int64(20)]
    );
}

#[test]
fn a_frame_refuses_a_column_of_another_length() {
    let index = Index::new(vec![IndexLabel::Int64(1), IndexLabel::Int64(2)]);
    let fits = Column::from_values(vec![Scalar::Int64(1), Scalar::Int64(2)]).expect("fits");
    let short = Column::from_values(vec![Scalar::Int64(1)]).expect("short");
    let err = DataFrame::new(index, vec![("a".to_owned(), fits), ("b".to_owned(), short)])
        .expect_err("length mismatch");
    assert!(matches!(
        err,
        FrameError::LengthMismatch { index_len: 2, column_len: 1 }
    ));

    let index = Index::new(vec![IndexLabel::Int64(1), IndexLabel::Int64(2)]);
    let short = Column::from_values(vec![Scalar::Int64(1)]).expect("short");
    let fits = Column::from_values(vec![Scalar::Int64(1), Scalar::Int64(2)]).expect("fits");
    // The column that does not fit is replaced before the lengths are looked at.
    let frame = DataFrame::new(index, vec![("a".to_owned(), short), ("a".to_owned(), fits)])
        .expect("frame");
    assert_eq!(frame.columns().len(), 1);
}

#[test]
fn names_are_ordered_byte_by_byte() {
    assert_eq!(compare_names("a", "b"), NameOrder::Before);
    assert_eq!(compare_names("b", "a"), NameOrder::After);
    assert_eq!(compare_names("ab", "ab"), NameOrder::Same);
    assert_eq!(compare_names("", ""), NameOrder::Same);
    assert_eq!(compare_names("", "a"), NameOrder::Before);
    assert_eq!(compare_names("a", ""), NameOrder::After);
    assert_eq!(compare_names("ab", "abc"), NameOrder::Before);
    assert_eq!(compare_names("abd", "abc"), NameOrder::After);
    assert_eq!(compare_names("B", "a"), NameOrder::Before);
    assert_eq!(compare_names("z", "\u{e9}"), NameOrder::Before);
    assert_eq!(compare_bytes(&[1, 2, 3], &[1, 2, 4]), NameOrder::Before);
    assert_eq!(compare_bytes(&[255], &[1, 2, 4]), NameOrder::After);
    for (a, b) in [("a", "b"), ("col10", "col9"), ("x", "x"), ("", "q"), ("\u{e9}", "e")] {
        let expected = match a.cmp(b) {
            std::cmp::Ordering::Less => NameOrder::Before,
            std::cmp::Ordering::Equal => NameOrder::Same,
            std::cmp::Ordering::Greater => NameOrder::After,
        };
        assert_eq!(compare_names(a, b), expected);
    }
}

#[test]
fn a_frame_of_many_columns_is_in_name_order() {
    let names = ["delta", "alpha", "charlie", "bravo", "alpha", "echo", "bravo"];
    let list: Vec<Series> = names
        .iter()
        .enumerate()
        .map(|(i, name)| int_series(name, &[1], &[i as i64]))
        .collect();
    let frame = DataFrame::from_series(list).expect("frame");
    let held: Vec<&str> = frame.columns().iter().map(|e| e.0.as_str()).collect();
    assert_eq!(held, vec!["alpha", "bravo", "charlie", "delta", "echo"]);
    // Under a name that came more than once the last column is held.
    assert_eq!(frame.column("alpha").expect("alpha").values(), &[Scalar::Int64(4)]);
    assert_eq!(frame.column("bravo").expect("bravo").values(), &[Scalar::Int64(6)]);
    assert_eq!(frame.column("delta").expect("delta").values(), &[Scalar::Int64(0)]);
    assert!(frame.column("foxtrot").is_none());
    assert!(frame.column("").is_none());
}

#[test]
fn errors_say_what_is_wrong_with_the_sizes() {
    assert_eq!(decimal(0), "0");
    assert_eq!(decimal(7), "7");
    assert_eq!(decimal(10), "10");
    assert_eq!(decimal(1_234_567_890), "1234567890");
    assert_eq!(decimal(usize::MAX), usize::MAX.to_string());

    assert_eq!(
        FrameError::LengthMismatch { index_len: 12, column_len: 0 }.message(),
        "index length (12) does not match column length (0)"
    );
    assert_eq!(
        FrameError::DuplicateIndexUnsupported.message(),
        "duplicate index labels are unsupported in strict mode for MVP slice"
    );
    assert_eq!(
        FrameError::CompatibilityRejected("too large".to_owned()).message(),
        "compatibility gate rejected operation: too large"
    );
    assert_eq!(
        IndexError::InvalidAlignmentVectors.message(),
        "alignment vectors must have equal lengths"
    );
    assert_eq!(
        IndexError::OutOfBounds { position: 7, length: 2 }.message(),
        "position 7 out of bounds for length 2"
    );
    assert_eq!(
        FrameError::Index(IndexError::OutOfBounds { position: 30, length: 4 }).message(),
        "position 30 out of bounds for length 4"
    );
    assert_eq!(
        GroupByError::Frame(FrameError::DuplicateIndexUnsupported).message(),
        "duplicate index labels are unsupported in strict mode for MVP slice"
    );
    assert_eq!(
        GroupByError::Index(IndexError::InvalidAlignmentVectors).message(),
        "alignment vectors must have equal lengths"
    );

    let a = Series::from_values(
        "a",
        vec![IndexLabel::Int64(1)],
        vec![Scalar::Utf8("x".to_owned())],
    )
    .expect("a");
    match a.add(&a) {
        Err(FrameError::Column(inner)) => {
            let text = inner.to_string();
            assert!(!text.is_empty());
            assert_eq!(FrameError::Column(inner.clone()).message(), text);
            assert_eq!(GroupByError::Column(inner).message(), text);
        }
        other => panic!("unexpected {other:?}"),
    }
}

fn unchecked_period() -> Scalar {
    // The text of this period cannot be computed without overflow.
    Scalar::Period(Period::new(i64::MAX, PeriodFreq::Annual))
}

#[test]
fn columns_of_further_kinds_are_not_added() {
    let periods =
        Series::from_values("p", vec![IndexLabel::Int64(1)], vec![unchecked_period()]).expect("p");
    let err = periods.add(&periods).expect_err("periods do not add");
    assert!(matches!(err, FrameError::UnsupportedScalar));
    assert_eq!(err.message(), "scalar kind is unsupported by this operation");

    let ints = int_series("i", &[1], &[5]);
    assert!(matches!(ints.add(&periods), Err(FrameError::UnsupportedScalar)));
    assert!(matches!(periods.add(&ints), Err(FrameError::UnsupportedScalar)));

    let durations =
        Series::from_values("d", vec![IndexLabel::Int64(1)], vec![Scalar::Timedelta64(5)])
            .expect("d");
    let mut ledger = EvidenceLedger::new();
    let err = durations
        .add_with_policy(&durations, &RuntimePolicy::hardened(None), &mut ledger)
        .expect_err("durations do not add");
    assert!(matches!(err, FrameError::UnsupportedScalar));
    // The policy was asked before the columns were looked at.
    assert_eq!(ledger.records().len(), 1);
}

#[test]
fn series_and_frames_can_be_cloned() {
    let s = int_series("s", &[1, 2], &[10, 20]);
    let copy = s.clone();
    assert_eq!(copy, s);
    assert_eq!(copy.name(), "s");
    assert_eq!(copy.values(), s.values());
    let frame = DataFrame::from_series(vec![s, int_series("t", &[2, 3], &[1, 2])]).expect("frame");
    let copy = frame.clone();
    assert_eq!(copy, frame);
    assert_eq!(copy.columns().len(), 2);
    assert_eq!(copy.index().labels(), frame.index().labels());
}

#[test]
fn a_hardened_policy_over_its_cap_is_not_rejected() {
    let a = int_series("a", &[1, 2, 3], &[1, 2, 3]);
    let b = int_series("b", &[4, 5, 6], &[4, 5, 6]);
    let out = a
        .add_with_policy(&b, &RuntimePolicy::hardened(Some(2)), &mut EvidenceLedger::new())
        .expect("over the cap");
    assert_eq!(out.len(), 6);
    let out = a
        .add_with_policy(&b, &RuntimePolicy::hardened(Some(0)), &mut EvidenceLedger::new())
        .expect("over a cap of nothing");
    assert_eq!(out.len(), 6);
}
