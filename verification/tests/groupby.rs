use fp_frame::{
    groupby_sum, groupby_sum_with_options, groupby_sum_with_trace, GroupByExecutionOptions,
    GroupByOptions, IndexLabel, RuntimePolicy, Series,
};
use fp_runtime::EvidenceLedger;
use fp_types::{NullKind, Scalar};


#[test]
fn groupby_sum_respects_first_seen_key_order() {
    let keys = Series::from_values(
        "key",
        vec![0_i64.into(), 1_i64.into(), 2_i64.into(), 3_i64.into()],
        vec![
            Scalar::Utf8("b".to_owned()),
            Scalar::Utf8("a".to_owned()),
            Scalar::Utf8("b".to_owned()),
            Scalar::Utf8("a".to_owned()),
        ],
    )
    .expect("keys");

    let values = Series::from_values(
        "value",
        vec![0_i64.into(), 1_i64.into(), 2_i64.into(), 3_i64.into()],
        vec![
            Scalar::Int64(1),
            Scalar::Int64(2),
            Scalar::Int64(3),
            Scalar::Int64(4),
        ],
    )
    .expect("values");

    let mut ledger = EvidenceLedger::new();
    let out = groupby_sum(
        &keys,
        &values,
        GroupByOptions::default(),
        &RuntimePolicy::strict(),
        &mut ledger,
    )
    .expect("groupby");

    assert_eq!(out.index().labels(), &["b".into(), "a".into()]);
    assert_eq!(out.values(), &[Scalar::Float64(4.0), Scalar::Float64(6.0)]);
}

#[test]
fn groupby_sum_duplicate_equal_index_preserves_alignment_behavior() {
    let keys = Series::from_values(
        "key",
        vec![0_i64.into(), 0_i64.into(), 1_i64.into()],
        vec![
            Scalar::Utf8("a".to_owned()),
            Scalar::Utf8("b".to_owned()),
            Scalar::Utf8("a".to_owned()),
        ],
    )
    .expect("keys");

    let values = Series::from_values(
        "value",
        vec![0_i64.into(), 0_i64.into(), 1_i64.into()],
        vec![Scalar::Int64(1), Scalar::Int64(2), Scalar::Int64(3)],
    )
    .expect("values");

    let mut ledger = EvidenceLedger::new();
    let out = groupby_sum(
        &keys,
        &values,
        GroupByOptions::default(),
        &RuntimePolicy::strict(),
        &mut ledger,
    )
    .expect("groupby");

    // Duplicate-label alignment in current model maps duplicates to first position.
    assert_eq!(out.index().labels(), &["a".into()]);
    assert_eq!(out.values(), &[Scalar::Float64(5.0)]);
}

#[test]
fn groupby_sum_int_dense_path_preserves_first_seen_order() {
    let keys = Series::from_values(
        "key",
        vec![0_i64.into(), 1_i64.into(), 2_i64.into(), 3_i64.into()],
        vec![
            Scalar::Int64(10),
            Scalar::Int64(5),
            Scalar::Int64(10),
            Scalar::Int64(-2),
        ],
    )
    .expect("keys");

    let values = Series::from_values(
        "value",
        vec![0_i64.into(), 1_i64.into(), 2_i64.into(), 3_i64.into()],
        vec![
            Scalar::Int64(1),
            Scalar::Int64(2),
            Scalar::Int64(3),
            Scalar::Int64(4),
        ],
    )
    .expect("values");

    let mut ledger = EvidenceLedger::new();
    let out = groupby_sum(
        &keys,
        &values,
        GroupByOptions::default(),
        &RuntimePolicy::strict(),
        &mut ledger,
    )
    .expect("groupby");

    assert_eq!(
        out.index().labels(),
        &[10_i64.into(), 5_i64.into(), (-2_i64).into()]
    );
    assert_eq!(
        out.values(),
        &[
            Scalar::Float64(4.0),
            Scalar::Float64(2.0),
            Scalar::Float64(4.0)
        ]
    );
}

#[test]
fn groupby_sum_dropna_false_keeps_null_group_via_generic_fallback() {
    let keys = Series::from_values(
        "key",
        vec![0_i64.into(), 1_i64.into(), 2_i64.into()],
        vec![
            Scalar::Int64(10),
            Scalar::Null(NullKind::Null),
            Scalar::Int64(10),
        ],
    )
    .expect("keys");

    let values = Series::from_values(
        "value",
        vec![0_i64.into(), 1_i64.into(), 2_i64.into()],
        vec![Scalar::Int64(1), Scalar::Int64(2), Scalar::Int64(3)],
    )
    .expect("values");

    let mut ledger = EvidenceLedger::new();
    let out = groupby_sum(
        &keys,
        &values,
        GroupByOptions { dropna: false },
        &RuntimePolicy::strict(),
        &mut ledger,
    )
    .expect("groupby");

    assert_eq!(out.index().labels(), &[10_i64.into(), "<null>".into()]);
    assert_eq!(out.values(), &[Scalar::Float64(4.0), Scalar::Float64(2.0)]);
}

// --- AG-08-T: GroupBy Clone Elimination Tests ---

/// AG-08-T #2: Int64 keys with span > 65536 forces generic path.
#[test]
fn groupby_sum_int_keys_generic_path_wide_span() {
    let keys = Series::from_values(
        "key",
        vec![0_i64.into(), 1_i64.into(), 2_i64.into(), 3_i64.into()],
        vec![
            Scalar::Int64(0),
            Scalar::Int64(100_000), // span > 65536 -> forces generic path
            Scalar::Int64(0),
            Scalar::Int64(100_000),
        ],
    )
    .expect("keys");

    let values = Series::from_values(
        "value",
        vec![0_i64.into(), 1_i64.into(), 2_i64.into(), 3_i64.into()],
        vec![
            Scalar::Int64(1),
            Scalar::Int64(2),
            Scalar::Int64(3),
            Scalar::Int64(4),
        ],
    )
    .expect("values");

    let mut ledger = EvidenceLedger::new();
    let out = groupby_sum(
        &keys,
        &values,
        GroupByOptions::default(),
        &RuntimePolicy::strict(),
        &mut ledger,
    )
    .expect("groupby");

    assert_eq!(out.index().labels(), &[0_i64.into(), 100_000_i64.into()]);
    assert_eq!(out.values(), &[Scalar::Float64(4.0), Scalar::Float64(6.0)]);
}

/// AG-08-T #4: All rows have same key -> single output group.
#[test]
fn groupby_sum_single_group() {
    let keys = Series::from_values(
        "key",
        vec![0_i64.into(), 1_i64.into(), 2_i64.into()],
        vec![
            Scalar::Utf8("only".to_owned()),
            Scalar::Utf8("only".to_owned()),
            Scalar::Utf8("only".to_owned()),
        ],
    )
    .expect("keys");

    let values = Series::from_values(
        "value",
        vec![0_i64.into(), 1_i64.into(), 2_i64.into()],
        vec![Scalar::Int64(10), Scalar::Int64(20), Scalar::Int64(30)],
    )
    .expect("values");

    let mut ledger = EvidenceLedger::new();
    let out = groupby_sum(
        &keys,
        &values,
        GroupByOptions::default(),
        &RuntimePolicy::strict(),
        &mut ledger,
    )
    .expect("groupby");

    assert_eq!(out.index().labels(), &["only".into()]);
    assert_eq!(out.values(), &[Scalar::Float64(60.0)]);
}

/// AG-08-T #5: No rows -> empty output Series.
#[test]
fn groupby_sum_empty_input() {
    let keys = Series::from_values("key", Vec::<IndexLabel>::new(), Vec::<Scalar>::new())
        .expect("keys");
    let values = Series::from_values("value", Vec::<IndexLabel>::new(), Vec::<Scalar>::new())
        .expect("values");

    let mut ledger = EvidenceLedger::new();
    let out = groupby_sum(
        &keys,
        &values,
        GroupByOptions::default(),
        &RuntimePolicy::strict(),
        &mut ledger,
    )
    .expect("groupby");

    assert_eq!(out.index().labels().len(), 0);
    assert_eq!(out.values().len(), 0);
}

/// AG-08-T #6: Valid keys but Null/NaN values -> sum ignores missing.
#[test]
fn groupby_sum_missing_values_in_sum() {
    let keys = Series::from_values(
        "key",
        vec![0_i64.into(), 1_i64.into(), 2_i64.into(), 3_i64.into()],
        vec![
            Scalar::Utf8("a".to_owned()),
            Scalar::Utf8("a".to_owned()),
            Scalar::Utf8("b".to_owned()),
            Scalar::Utf8("b".to_owned()),
        ],
    )
    .expect("keys");

    let values = Series::from_values(
        "value",
        vec![0_i64.into(), 1_i64.into(), 2_i64.into(), 3_i64.into()],
        vec![
            Scalar::Int64(5),
            Scalar::Null(NullKind::Null),
            Scalar::Null(NullKind::NaN),
            Scalar::Null(NullKind::Null),
        ],
    )
    .expect("values");

    let mut ledger = EvidenceLedger::new();
    let out = groupby_sum(
        &keys,
        &values,
        GroupByOptions::default(),
        &RuntimePolicy::strict(),
        &mut ledger,
    )
    .expect("groupby");

    assert_eq!(out.index().labels(), &["a".into(), "b".into()]);
    // "a": 5 + missing = 5.0; "b": missing + missing = 0.0
    assert_eq!(out.values(), &[Scalar::Float64(5.0), Scalar::Float64(0.0)]);
}

/// AG-08-T #7: 10000 unique keys -> all groups present, sums correct.
#[test]
fn groupby_sum_large_cardinality() {
    let n = 10_000usize;
    let labels: Vec<IndexLabel> = (0..n).map(|i| IndexLabel::Int64(i as i64)).collect();
    let key_values: Vec<Scalar> = (0..n).map(|i| Scalar::Utf8(format!("key_{}", i))).collect();
    let sum_values: Vec<Scalar> = (0..n).map(|i| Scalar::Int64(i as i64)).collect();

    let keys = Series::from_values("key", labels.clone(), key_values).expect("keys");
    let values = Series::from_values("value", labels, sum_values).expect("values");

    let mut ledger = EvidenceLedger::new();
    let out = groupby_sum(
        &keys,
        &values,
        GroupByOptions::default(),
        &RuntimePolicy::strict(),
        &mut ledger,
    )
    .expect("groupby");

    assert_eq!(out.index().labels().len(), n);
    assert_eq!(out.values().len(), n);
    // Verify a few spot checks
    assert_eq!(out.values()[0], Scalar::Float64(0.0));
    assert_eq!(out.values()[999], Scalar::Float64(999.0));
    assert_eq!(out.values()[9999], Scalar::Float64(9999.0));
}

/// AG-08-T #9: Generic path and dense path produce identical output
/// for Int64 keys within dense range.
#[test]
fn groupby_isomorphism_generic_vs_dense() {
    // Keys within dense range (span < 65536) -> dense path
    let dense_keys = Series::from_values(
        "key",
        vec![0_i64.into(), 1_i64.into(), 2_i64.into(), 3_i64.into()],
        vec![
            Scalar::Int64(5),
            Scalar::Int64(3),
            Scalar::Int64(5),
            Scalar::Int64(3),
        ],
    )
    .expect("keys");

    let values = Series::from_values(
        "value",
        vec![0_i64.into(), 1_i64.into(), 2_i64.into(), 3_i64.into()],
        vec![
            Scalar::Int64(10),
            Scalar::Int64(20),
            Scalar::Int64(30),
            Scalar::Int64(40),
        ],
    )
    .expect("values");

    let mut ledger = EvidenceLedger::new();

    // Dense path (span of 5-3=2, within 65536)
    let dense_out = groupby_sum(
        &dense_keys,
        &values,
        GroupByOptions::default(),
        &RuntimePolicy::strict(),
        &mut ledger,
    )
    .expect("dense groupby");

    // Force generic by using Utf8 keys with same logical values
    let generic_keys = Series::from_values(
        "key",
        vec![0_i64.into(), 1_i64.into(), 2_i64.into(), 3_i64.into()],
        vec![
            Scalar::Utf8("5".to_owned()),
            Scalar::Utf8("3".to_owned()),
            Scalar::Utf8("5".to_owned()),
            Scalar::Utf8("3".to_owned()),
        ],
    )
    .expect("keys");

    let generic_out = groupby_sum(
        &generic_keys,
        &values,
        GroupByOptions::default(),
        &RuntimePolicy::strict(),
        &mut ledger,
    )
    .expect("generic groupby");

    // Both should produce the same sums in the same first-seen order
    assert_eq!(dense_out.values(), generic_out.values());
    // Dense produces IndexLabel::Int64(5), generic produces IndexLabel::Utf8("5")
    // So we verify ordering is the same (first=5/key_5, second=3/key_3)
    assert_eq!(
        dense_out.index().labels().len(),
        generic_out.index().labels().len()
    );
    assert_eq!(
        dense_out.index().labels(),
        &[IndexLabel::Int64(5), IndexLabel::Int64(3)]
    );
    assert_eq!(
        generic_out.index().labels(),
        &[
            IndexLabel::Utf8("5".to_owned()),
            IndexLabel::Utf8("3".to_owned())
        ]
    );
}

#[test]
fn arena_groupby_matches_global_allocator_behavior() {
    let keys = Series::from_values(
        "key",
        vec![0_i64.into(), 1_i64.into(), 2_i64.into(), 3_i64.into()],
        vec![
            Scalar::Utf8("b".to_owned()),
            Scalar::Utf8("a".to_owned()),
            Scalar::Utf8("b".to_owned()),
            Scalar::Utf8("a".to_owned()),
        ],
    )
    .expect("keys");

    let values = Series::from_values(
        "value",
        vec![0_i64.into(), 1_i64.into(), 2_i64.into(), 3_i64.into()],
        vec![
            Scalar::Int64(1),
            Scalar::Int64(2),
            Scalar::Int64(3),
            Scalar::Int64(4),
        ],
    )
    .expect("values");

    let mut ledger = EvidenceLedger::new();

    let global = groupby_sum_with_options(
        &keys,
        &values,
        GroupByOptions::default(),
        &RuntimePolicy::strict(),
        &mut ledger,
        GroupByExecutionOptions {
            use_arena: false,
            arena_budget_bytes: 0,
        },
    )
    .expect("global groupby");

    let arena = groupby_sum_with_options(
        &keys,
        &values,
        GroupByOptions::default(),
        &RuntimePolicy::strict(),
        &mut ledger,
        GroupByExecutionOptions::default(),
    )
    .expect("arena groupby");

    assert_eq!(arena.index().labels(), global.index().labels());
    assert_eq!(arena.values(), global.values());
}

#[test]
fn arena_groupby_falls_back_when_budget_too_small() {
    let keys = Series::from_values(
        "key",
        vec![0_i64.into(), 1_i64.into(), 2_i64.into()],
        vec![
            Scalar::Utf8("a".to_owned()),
            Scalar::Utf8("b".to_owned()),
            Scalar::Utf8("a".to_owned()),
        ],
    )
    .expect("keys");

    let values = Series::from_values(
        "value",
        vec![0_i64.into(), 1_i64.into(), 2_i64.into()],
        vec![Scalar::Int64(1), Scalar::Int64(2), Scalar::Int64(3)],
    )
    .expect("values");

    let mut ledger = EvidenceLedger::new();

    let options = GroupByExecutionOptions {
        use_arena: true,
        arena_budget_bytes: 1,
    };
    let (fallback_out, trace) = groupby_sum_with_trace(
        &keys,
        &values,
        GroupByOptions::default(),
        &RuntimePolicy::strict(),
        &mut ledger,
        options,
    )
    .expect("fallback groupby");

    let global_out = groupby_sum_with_options(
        &keys,
        &values,
        GroupByOptions::default(),
        &RuntimePolicy::strict(),
        &mut ledger,
        GroupByExecutionOptions {
            use_arena: false,
            arena_budget_bytes: 0,
        },
    )
    .expect("global groupby");

    assert_eq!(fallback_out.index().labels(), global_out.index().labels());
    assert_eq!(fallback_out.values(), global_out.values());
    assert!(!trace.used_arena);
    assert!(trace.estimated_bytes > options.arena_budget_bytes);
}

#[test]
fn arena_groupby_dense_path_matches_global() {
    let keys = Series::from_values(
        "key",
        vec![0_i64.into(), 1_i64.into(), 2_i64.into(), 3_i64.into()],
        vec![
            Scalar::Int64(10),
            Scalar::Int64(5),
            Scalar::Int64(10),
            Scalar::Int64(-2),
        ],
    )
    .expect("keys");

    let values = Series::from_values(
        "value",
        vec![0_i64.into(), 1_i64.into(), 2_i64.into(), 3_i64.into()],
        vec![
            Scalar::Int64(1),
            Scalar::Int64(2),
            Scalar::Int64(3),
            Scalar::Int64(4),
        ],
    )
    .expect("values");

    let mut ledger = EvidenceLedger::new();

    let global = groupby_sum_with_options(
        &keys,
        &values,
        GroupByOptions::default(),
        &RuntimePolicy::strict(),
        &mut ledger,
        GroupByExecutionOptions {
            use_arena: false,
            arena_budget_bytes: 0,
        },
    )
    .expect("global groupby");

    let arena = groupby_sum_with_options(
        &keys,
        &values,
        GroupByOptions::default(),
        &RuntimePolicy::strict(),
        &mut ledger,
        GroupByExecutionOptions::default(),
    )
    .expect("arena groupby");

    assert_eq!(arena.index().labels(), global.index().labels());
    assert_eq!(arena.values(), global.values());
}

#[test]
fn arena_groupby_stable_across_repeated_operations() {
    let keys = Series::from_values(
        "key",
        vec![0_i64.into(), 1_i64.into()],
        vec![Scalar::Utf8("x".to_owned()), Scalar::Utf8("y".to_owned())],
    )
    .expect("keys");

    let values = Series::from_values(
        "value",
        vec![0_i64.into(), 1_i64.into()],
        vec![Scalar::Int64(10), Scalar::Int64(20)],
    )
    .expect("values");

    let mut ledger = EvidenceLedger::new();
    let options = GroupByExecutionOptions::default();

    for _ in 0..1_000 {
        let out = groupby_sum_with_options(
            &keys,
            &values,
            GroupByOptions::default(),
            &RuntimePolicy::strict(),
            &mut ledger,
            options,
        )
        .expect("arena groupby");
        assert_eq!(out.index().labels().len(), 2);
        assert_eq!(
            out.values(),
            &[Scalar::Float64(10.0), Scalar::Float64(20.0)]
        );
    }
}
