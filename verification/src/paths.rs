//! The two ways in which rows are grouped: the generic path, which finds the
//! group of a key of any kind through a hash table, and the dense path for
//! integer keys of a small span, which finds it in a table with one bucket for
//! each integer of the span. Both give the same groups.

use vstd::prelude::*;
use crate::buckets::Buckets;
use crate::grouping::{
    distinct, first_rows_of, groups_cover, is_grouping_of, key_code, key_views, lemma_cover_group,
    lemma_distinct_bounded, lemma_first_rows, lemma_join_row, lemma_open_row, lemma_skip_row,
    member_views, members_of, row_key, row_keys, GroupKey, Grouping, KeyView,
};

verus! {

/// The greatest span of integer keys that the dense path takes.
pub const DENSE_INT_KEY_RANGE_LIMIT: i128 = 65_536;

/// The group among those of the rows before `row` whose key is that of `row`:
/// the groups under the hash code of the key are gone through, and the key of
/// each is compared with it.
pub(crate) fn find_group(
    keys: &[GroupKey],
    first_rows: &[usize],
    buckets: &Buckets,
    row: usize,
    dropna: bool,
) -> (r: Option<usize>)
    requires
        row < keys.len(),
        row_keys(key_views(keys@), dropna)[row as int] is Some,
        first_rows@ == first_rows_of(row_keys(key_views(keys@), dropna).take(row as int)),
        groups_cover(
            |code: u64| buckets.rows(code),
            distinct(row_keys(key_views(keys@), dropna).take(row as int)),
        ),
    ensures
        ({
            let groups = distinct(row_keys(key_views(keys@), dropna).take(row as int));
            match r {
                Some(g) => g < groups.len() && groups[g as int] == keys@[row as int]@,
                None => !groups.contains(keys@[row as int]@),
            }
        }),
{
    let ghost kv = key_views(keys@);
    let ghost rk = row_keys(kv, dropna);
    let ghost seen = rk.take(row as int);
    let ghost groups = distinct(seen);
    let ghost table = |code: u64| buckets.rows(code);
    let ghost k = kv[row as int];
    let code = keys[row].code();
    let rows = match buckets.rows_under(code) {
        Some(rows) => rows,
        None => {
            proof {
                lemma_distinct_bounded(seen);
                assert(k == keys@[row as int]@);
                if groups.contains(k) {
                    let g = choose|g: int| 0 <= g < groups.len() && groups[g] == k;
                    assert(table(key_code(groups[g])).contains(g as usize));
                }
            }
            return None;
        },
    };
    let mut j: usize = 0;
    while j < rows.len()
        invariant
            j <= rows.len(),
            row < keys.len(),
            kv == key_views(keys@),
            rk == row_keys(kv, dropna),
            seen == rk.take(row as int),
            groups == distinct(seen),
            k == kv[row as int],
            first_rows@ == first_rows_of(seen),
            table == (|code: u64| buckets.rows(code)),
            groups_cover(table, groups),
            rows@ == table(code),
            code == key_code(k),
            forall|x: int| 0 <= x < j ==> groups[rows@[x] as int] != k,
        decreases rows.len() - j,
    {
        let g = rows[j];
        proof {
            assert(g == table(code)[j as int]);
            assert(g < groups.len());
            lemma_first_rows(seen, g as int);
            let r = first_rows@[g as int] as int;
            assert(seen[r] == rk[r]);
            assert(rk[r] == row_key(kv[r], dropna));
        }
        if keys[first_rows[g]].same(&keys[row]) {
            return Some(g);
        }
        j += 1;
    }
    proof {
        lemma_distinct_bounded(seen);
        assert(k == keys@[row as int]@);
        if groups.contains(k) {
            let g = choose|g: int| 0 <= g < groups.len() && groups[g] == k;
            assert(table(key_code(groups[g])).contains(g as usize));
            let x = choose|x: int| 0 <= x < rows@.len() && rows@[x] == g as usize;
            assert(groups[rows@[x] as int] != k);
        }
    }
    None
}

/// Groups the rows by key, in first-seen order. A row whose key is missing is
/// dropped where `dropna` is set, and is grouped like any other where it is
/// not. The group of a key is found through a hash table.
pub fn group_rows(keys: &[GroupKey], dropna: bool) -> (g: Grouping)
    ensures
        is_grouping_of(
            g.first_rows@,
            member_views(g.members@),
            row_keys(key_views(keys@), dropna),
        ),
{
    let ghost kv = key_views(keys@);
    let ghost rk = row_keys(kv, dropna);
    let mut first_rows: Vec<usize> = Vec::new();
    let mut members: Vec<Vec<usize>> = Vec::new();
    let mut buckets = Buckets::new();
    let mut i: usize = 0;
    assert(rk.take(0) =~= Seq::<Option<KeyView>>::empty());
    assert(first_rows@ =~= first_rows_of(rk.take(0)));
    assert(member_views(members@) =~= members_of(rk.take(0)));
    while i < keys.len()
        invariant
            i <= keys.len(),
            kv == key_views(keys@),
            rk == row_keys(kv, dropna),
            is_grouping_of(first_rows@, member_views(members@), rk.take(i as int)),
            groups_cover(|code: u64| buckets.rows(code), distinct(rk.take(i as int))),
        decreases keys.len() - i,
    {
        let ghost seen = rk.take(i as int);
        proof {
            assert(rk.take(i + 1) =~= seen.push(rk[i as int]));
            assert(rk[i as int] == row_key(kv[i as int], dropna));
            lemma_distinct_bounded(seen);
        }
        if dropna && keys[i].is_missing() {
            proof {
                lemma_skip_row(seen);
            }
        } else {
            match find_group(keys, first_rows.as_slice(), &buckets, i, dropna) {
                Some(g) => {
                    proof {
                        lemma_join_row(seen, kv[i as int], g as int);
                    }
                    let ghost before = member_views(members@);
                    assert(before.len() == members@.len());
                    let mut rows: Vec<usize> = Vec::new();
                    std::mem::swap(&mut rows, &mut members[g]);
                    rows.push(i);
                    members.set(g, rows);
                    assert(member_views(members@) =~= before.update(
                        g as int,
                        before[g as int].push(i),
                    ));
                },
                None => {
                    let ghost table = |code: u64| buckets.rows(code);
                    proof {
                        lemma_open_row(seen, kv[i as int]);
                        assert(first_rows@.len() == distinct(seen).len());
                    }
                    let ghost before = member_views(members@);
                    buckets.add(keys[i].code(), first_rows.len());
                    proof {
                        lemma_cover_group(
                            table,
                            |code: u64| buckets.rows(code),
                            distinct(seen),
                            kv[i as int],
                        );
                    }
                    let mut rows: Vec<usize> = Vec::new();
                    rows.push(i);
                    first_rows.push(i);
                    members.push(rows);
                    assert(member_views(members@) =~= before.push(seq![i]));
                },
            }
        }
        i += 1;
    }
    assert(rk.take(i as int) =~= rk);
    Grouping { first_rows, members }
}

/// Every key is an integer, or is a null where missing keys are dropped.
pub open spec fn dense_keys_only(keys: Seq<KeyView>, dropna: bool) -> bool {
    forall|i: int|
        0 <= i < keys.len() ==> (#[trigger] keys[i]) is Int64 || (dropna && keys[i] is Null)
}

/// `saw` tells whether there is an integer key; where there is one, `min` and
/// `max` are the least and the greatest of the integer keys.
pub open spec fn is_int_range(keys: Seq<KeyView>, min: i64, max: i64, saw: bool) -> bool {
    &&& saw <==> exists|i: int| 0 <= i < keys.len() && (#[trigger] keys[i]) is Int64
    &&& saw ==> {
        &&& exists|i: int| 0 <= i < keys.len() && #[trigger] keys[i] == KeyView::Int64(min)
        &&& exists|i: int| 0 <= i < keys.len() && #[trigger] keys[i] == KeyView::Int64(max)
        &&& forall|i: int|
            0 <= i < keys.len() && (#[trigger] keys[i]) is Int64 ==> min <= keys[i]->Int64_0
                <= max
    }
    &&& !saw ==> min == i64::MAX && max == i64::MIN
}

/// The dense path applies: every key that is not dropped is an integer, and
/// the integer keys span at most the limit.
pub open spec fn dense_applies(keys: Seq<KeyView>, dropna: bool) -> bool {
    &&& dense_keys_only(keys, dropna)
    &&& forall|i: int, j: int|
        0 <= i < keys.len() && 0 <= j < keys.len() && (#[trigger] keys[i]) is Int64 && (
        #[trigger] keys[j]) is Int64 ==> keys[i]->Int64_0 - keys[j]->Int64_0
            < DENSE_INT_KEY_RANGE_LIMIT
}

/// Scans the keys for the range of the integer ones. Gives nothing where a key
/// is neither an integer nor a null that is dropped.
pub fn dense_int64_range(keys: &[GroupKey], dropna: bool) -> (r: Option<(i64, i64, bool)>)
    ensures
        r is Some <==> dense_keys_only(key_views(keys@), dropna),
        r matches Some((min, max, saw)) ==> is_int_range(key_views(keys@), min, max, saw),
{
    let ghost kv = key_views(keys@);
    let mut min_key: i64 = i64::MAX;
    let mut max_key: i64 = i64::MIN;
    let mut saw_int_key = false;
    let mut i: usize = 0;
    while i < keys.len()
        invariant
            i <= keys.len(),
            kv == key_views(keys@),
            dense_keys_only(kv.take(i as int), dropna),
            is_int_range(kv.take(i as int), min_key, max_key, saw_int_key),
        decreases keys.len() - i,
    {
        let ghost before = kv.take(i as int);
        let ghost now = kv.take(i + 1);
        proof {
            assert(forall|j: int| 0 <= j < i ==> now[j] == before[j]);
            assert(now[i as int] == kv[i as int]);
        }
        match &keys[i] {
            GroupKey::Int64(v) => {
                let ghost old_min = min_key;
                let ghost old_max = max_key;
                let ghost old_saw = saw_int_key;
                saw_int_key = true;
                if *v < min_key {
                    min_key = *v;
                }
                if *v > max_key {
                    max_key = *v;
                }
                proof {
                    assert(now[i as int] == KeyView::Int64(*v));
                    if old_saw {
                        let a = choose|a: int|
                            0 <= a < before.len() && #[trigger] before[a] == KeyView::Int64(
                                old_min,
                            );
                        let b = choose|b: int|
                            0 <= b < before.len() && #[trigger] before[b] == KeyView::Int64(
                                old_max,
                            );
                        assert(now[a] == KeyView::Int64(old_min));
                        assert(now[b] == KeyView::Int64(old_max));
                    }
                    assert(exists|a: int|
                        0 <= a < now.len() && #[trigger] now[a] == KeyView::Int64(min_key));
                    assert(exists|a: int|
                        0 <= a < now.len() && #[trigger] now[a] == KeyView::Int64(max_key));
                    assert forall|a: int| 0 <= a < now.len() && (#[trigger] now[a]) is Int64 implies min_key
                        <= now[a]->Int64_0 <= max_key by {
                        if a < i {
                            assert(before[a] is Int64);
                        }
                    }
                    assert(dense_keys_only(now, dropna)) by {
                        assert forall|a: int| 0 <= a < now.len() implies (#[trigger] now[a]) is Int64
                            || (dropna && now[a] is Null) by {
                            if a < i {
                                assert(before[a] is Int64 || (dropna && before[a] is Null));
                            }
                        }
                    }
                }
            },
            GroupKey::Null => {
                if !dropna {
                    proof {
                        assert(kv[i as int] is Null);
                    }
                    return None;
                }
                proof {
                    assert(now[i as int] is Null);
                    if saw_int_key {
                        let a = choose|a: int|
                            0 <= a < before.len() && #[trigger] before[a] == KeyView::Int64(
                                min_key,
                            );
                        let b = choose|b: int|
                            0 <= b < before.len() && #[trigger] before[b] == KeyView::Int64(
                                max_key,
                            );
                        assert(now[a] == KeyView::Int64(min_key));
                        assert(now[b] == KeyView::Int64(max_key));
                    } else {
                        assert forall|a: int| 0 <= a < now.len() implies !((#[trigger] now[a]) is Int64) by {
                            if a < i {
                                assert(!(before[a] is Int64));
                            }
                        }
                    }
                    assert forall|a: int| 0 <= a < now.len() && (#[trigger] now[a]) is Int64 implies min_key
                        <= now[a]->Int64_0 <= max_key by {
                        if a < i {
                            assert(before[a] is Int64);
                        }
                    }
                    assert(dense_keys_only(now, dropna)) by {
                        assert forall|a: int| 0 <= a < now.len() implies (#[trigger] now[a]) is Int64
                            || (dropna && now[a] is Null) by {
                            if a < i {
                                assert(before[a] is Int64 || (dropna && before[a] is Null));
                            }
                        }
                    }
                }
            },
            _ => {
                proof {
                    assert(!(kv[i as int] is Int64) && !(kv[i as int] is Null));
                }
                return None;
            },
        }
        i += 1;
    }
    assert(kv.take(i as int) =~= kv);
    Some((min_key, max_key, saw_int_key))
}

/// Where every row is dropped there is no group.
pub proof fn lemma_all_dropped(rk: Seq<Option<KeyView>>)
    requires
        forall|i: int| 0 <= i < rk.len() ==> rk[i] is None,
    ensures
        distinct(rk) == Seq::<KeyView>::empty(),
        first_rows_of(rk) == Seq::<usize>::empty(),
        members_of(rk) == Seq::<Seq<usize>>::empty(),
    decreases rk.len(),
{
    if rk.len() > 0 {
        assert forall|i: int| 0 <= i < rk.drop_last().len() implies rk.drop_last()[i] is None by {
            assert(rk.drop_last()[i] == rk[i]);
        }
        lemma_all_dropped(rk.drop_last());
        assert(rk[rk.len() - 1] is None);
    }
    assert(first_rows_of(rk) =~= Seq::<usize>::empty());
    assert(members_of(rk) =~= Seq::<Seq<usize>>::empty());
}

/// The buckets agree with the groups seen so far: a bucket is marked exactly
/// when its key has a group, and then it holds the place of that group.
pub open spec fn buckets_match(
    seen: Seq<bool>,
    group_of: Seq<usize>,
    min: i64,
    groups: Seq<KeyView>,
) -> bool {
    &&& seen.len() == group_of.len()
    &&& forall|b: int|
        0 <= b < seen.len() ==> (#[trigger] seen[b] <==> groups.contains(
            KeyView::Int64((min + b) as i64),
        ))
    &&& forall|b: int|
        0 <= b < seen.len() && #[trigger] seen[b] ==> group_of[b] < groups.len()
            && groups[group_of[b] as int] == KeyView::Int64((min + b) as i64)
}

/// Groups the rows by integer key through a table of buckets, one for each
/// integer from the least key to the greatest. Gives nothing where the dense
/// path does not apply; where it applies, the groups are those of the generic
/// path.
pub fn group_rows_dense(keys: &[GroupKey], dropna: bool) -> (r: Option<Grouping>)
    ensures
        r is Some <==> dense_applies(key_views(keys@), dropna),
        r matches Some(g) ==> is_grouping_of(
            g.first_rows@,
            member_views(g.members@),
            row_keys(key_views(keys@), dropna),
        ),
{
    let ghost kv = key_views(keys@);
    let ghost rk = row_keys(kv, dropna);
    let (min_key, max_key, saw_int_key) = match dense_int64_range(keys, dropna) {
        Some(range) => range,
        None => {
            return None;
        },
    };
    if !saw_int_key {
        proof {
            assert forall|i: int| 0 <= i < rk.len() implies rk[i] is None by {
                assert(kv[i] is Int64 || (dropna && kv[i] is Null));
                assert(rk[i] == row_key(kv[i], dropna));
            }
            lemma_all_dropped(rk);
        }
        let first_rows: Vec<usize> = Vec::new();
        let members: Vec<Vec<usize>> = Vec::new();
        assert(member_views(members@) =~= Seq::<Seq<usize>>::empty());
        return Some(Grouping { first_rows, members });
    }
    let span: i128 = max_key as i128 - min_key as i128 + 1;
    if span <= 0 || span > DENSE_INT_KEY_RANGE_LIMIT {
        return None;
    }
    let bucket_len: usize = span as usize;
    let mut seen: Vec<bool> = Vec::new();
    let mut group_of: Vec<usize> = Vec::new();
    let mut b: usize = 0;
    while b < bucket_len
        invariant
            b <= bucket_len,
            seen@.len() == b,
            group_of@.len() == b,
            forall|x: int| 0 <= x < b ==> !seen@[x],
        decreases bucket_len - b,
    {
        seen.push(false);
        group_of.push(0);
        b += 1;
    }
    let mut first_rows: Vec<usize> = Vec::new();
    let mut members: Vec<Vec<usize>> = Vec::new();
    let mut i: usize = 0;
    assert(rk.take(0) =~= Seq::<Option<KeyView>>::empty());
    assert(first_rows@ =~= first_rows_of(rk.take(0)));
    assert(member_views(members@) =~= members_of(rk.take(0)));
    while i < keys.len()
        invariant
            i <= keys.len(),
            kv == key_views(keys@),
            rk == row_keys(kv, dropna),
            dense_keys_only(kv, dropna),
            is_int_range(kv, min_key, max_key, true),
            max_key - min_key + 1 == bucket_len,
            bucket_len <= DENSE_INT_KEY_RANGE_LIMIT,
            seen@.len() == bucket_len,
            is_grouping_of(first_rows@, member_views(members@), rk.take(i as int)),
            buckets_match(seen@, group_of@, min_key, distinct(rk.take(i as int))),
        decreases keys.len() - i,
    {
        let ghost prefix = rk.take(i as int);
        let ghost groups = distinct(prefix);
        proof {
            assert(rk.take(i + 1) =~= prefix.push(rk[i as int]));
            assert(rk[i as int] == row_key(kv[i as int], dropna));
            assert(kv[i as int] is Int64 || (dropna && kv[i as int] is Null));
        }
        match &keys[i] {
            GroupKey::Int64(v) => {
                let bucket: usize = (*v as i128 - min_key as i128) as usize;
                proof {
                    assert(kv[i as int] == KeyView::Int64(*v));
                    assert((min_key + bucket) as i64 == *v);
                    assert(first_rows@.len() == groups.len());
                }
                if !seen[bucket] {
                    proof {
                        lemma_open_row(prefix, kv[i as int]);
                    }
                    let ghost before = member_views(members@);
                    seen.set(bucket, true);
                    group_of.set(bucket, first_rows.len());
                    let mut rows: Vec<usize> = Vec::new();
                    rows.push(i);
                    first_rows.push(i);
                    members.push(rows);
                    assert(member_views(members@) =~= before.push(seq![i]));
                    proof {
                        let next = groups.push(kv[i as int]);
                        assert forall|x: int| 0 <= x < seen@.len() implies (#[trigger] seen@[x]
                            <==> next.contains(KeyView::Int64((min_key + x) as i64))) by {
                            let k = KeyView::Int64((min_key + x) as i64);
                            if x == bucket {
                                assert(next[groups.len() as int] == k);
                            } else {
                                if groups.contains(k) {
                                    let p = choose|p: int| 0 <= p < groups.len() && groups[p] == k;
                                    assert(next[p] == k);
                                }
                                if next.contains(k) {
                                    let p = choose|p: int| 0 <= p < next.len() && next[p] == k;
                                    assert(p < groups.len());
                                    assert(groups[p] == k);
                                }
                            }
                        }
                    }
                } else {
                    let g = group_of[bucket];
                    proof {
                        lemma_join_row(prefix, kv[i as int], g as int);
                    }
                    let ghost before = member_views(members@);
                    assert(before.len() == members@.len());
                    let mut rows: Vec<usize> = Vec::new();
                    std::mem::swap(&mut rows, &mut members[g]);
                    rows.push(i);
                    members.set(g, rows);
                    assert(member_views(members@) =~= before.update(
                        g as int,
                        before[g as int].push(i),
                    ));
                }
            },
            _ => {
                proof {
                    lemma_skip_row(prefix);
                }
            },
        }
        i += 1;
    }
    assert(rk.take(i as int) =~= rk);
    Some(Grouping { first_rows, members })
}

/// Where the dense path applies, it gives the groups that
/// the generic path gives.
pub proof fn lemma_paths_agree(dense: Grouping, generic: Grouping, keys: Seq<KeyView>, dropna: bool)
    requires
        is_grouping_of(dense.first_rows@, member_views(dense.members@), row_keys(keys, dropna)),
        is_grouping_of(
            generic.first_rows@,
            member_views(generic.members@),
            row_keys(keys, dropna),
        ),
    ensures
        dense.first_rows@ == generic.first_rows@,
        member_views(dense.members@) == member_views(generic.members@),
{
}

} // verus!
