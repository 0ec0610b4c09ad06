//! The grouping paths with their tables in a bump arena of `bumpalo`, which is
//! freed in bulk when the grouping is done. The rows of the groups themselves,
//! which are what comes out, are allocated as everywhere else.

use vstd::prelude::*;
use bumpalo::Bump;
use crate::buckets::Buckets;
use crate::grouping::{
    distinct, first_rows_of, groups_cover, is_grouping_of, key_views, lemma_cover_group,
    lemma_distinct_bounded, lemma_join_row, lemma_open_row, lemma_skip_row, member_views,
    members_of, row_key, row_keys, GroupKey, Grouping, KeyView,
};
use crate::paths::{
    dense_applies, dense_int64_range, dense_keys_only, find_group, is_int_range,
    lemma_all_dropped, DENSE_INT_KEY_RANGE_LIMIT,
};

verus! {

#[verifier::external_type_specification]
#[verifier::external_body]
pub struct ExBump<const MIN_ALIGN: usize>(Bump<MIN_ALIGN>);

/// A vector of numbers that lives in an arena: `Vec` of `bumpalo::collections`.
#[verifier::external_body]
pub struct ArenaRows<'bump> {
    items: bumpalo::collections::Vec<'bump, usize>,
}

/// The numbers that a vector in an arena holds, in order.
pub uninterp spec fn arena_items(v: ArenaRows<'_>) -> Seq<usize>;

/// `Bump::new`: a new arena.
#[verifier::external_body]
fn new_arena() -> Bump {
    Bump::new()
}

/// `Vec::new_in` of `bumpalo`: an empty vector in the arena.
#[verifier::external_body]
fn arena_vec<'a>(arena: &'a Bump) -> (v: ArenaRows<'a>)
    ensures
        arena_items(v) == Seq::<usize>::empty(),
{
    ArenaRows { items: bumpalo::collections::Vec::new_in(arena) }
}

/// `Vec::push` of `bumpalo`: the value is appended.
#[verifier::external_body]
fn arena_push(v: &mut ArenaRows<'_>, value: usize)
    ensures
        arena_items(*final(v)) == arena_items(*old(v)).push(value),
{
    v.items.push(value)
}

/// `Vec::resize` of `bumpalo`: the vector is cut to the new length, or filled
/// up to it with the value.
#[verifier::external_body]
fn arena_resize(v: &mut ArenaRows<'_>, new_len: usize, value: usize)
    ensures
        arena_items(*final(v)) == Seq::new(
            new_len as nat,
            |i: int|
                if i < arena_items(*old(v)).len() {
                    arena_items(*old(v))[i]
                } else {
                    value
                },
        ),
{
    v.items.resize(new_len, value)
}

/// `Vec::as_slice` of `bumpalo`: the items as a slice.
#[verifier::external_body]
fn arena_slice<'a>(v: &'a ArenaRows<'_>) -> (s: &'a [usize])
    ensures
        s@ == arena_items(*v),
{
    v.items.as_slice()
}

/// `IndexMut` of the vector of `bumpalo`: the item at the position is
/// replaced. The position must be one of the vector.
#[verifier::external_body]
fn arena_set(v: &mut ArenaRows<'_>, i: usize, value: usize)
    requires
        i < arena_items(*old(v)).len(),
    ensures
        arena_items(*final(v)) == arena_items(*old(v)).update(i as int, value),
{
    v.items[i] = value;
}

/// A copy of the items outside the arena.
fn copy_out(items: &[usize]) -> (v: Vec<usize>)
    ensures
        v@ == items@,
{
    let mut v: Vec<usize> = Vec::new();
    let mut i: usize = 0;
    while i < items.len()
        invariant
            i <= items.len(),
            v@ == items@.take(i as int),
        decreases items.len() - i,
    {
        v.push(items[i]);
        assert(v@ =~= items@.take(i + 1));
        i += 1;
    }
    assert(items@.take(i as int) =~= items@);
    v
}

/// Groups the rows by key as the generic path does, with the first rows of
/// the groups kept in an arena while the rows are gone through.
pub fn group_rows_arena(keys: &[GroupKey], dropna: bool) -> (g: Grouping)
    ensures
        is_grouping_of(
            g.first_rows@,
            member_views(g.members@),
            row_keys(key_views(keys@), dropna),
        ),
{
    let ghost kv = key_views(keys@);
    let ghost rk = row_keys(kv, dropna);
    let arena = new_arena();
    let mut first_rows = arena_vec(&arena);
    let mut members: Vec<Vec<usize>> = Vec::new();
    let mut buckets = Buckets::new();
    let mut i: usize = 0;
    assert(rk.take(0) =~= Seq::<Option<KeyView>>::empty());
    assert(arena_items(first_rows) =~= first_rows_of(rk.take(0)));
    assert(member_views(members@) =~= members_of(rk.take(0)));
    while i < keys.len()
        invariant
            i <= keys.len(),
            kv == key_views(keys@),
            rk == row_keys(kv, dropna),
            is_grouping_of(arena_items(first_rows), member_views(members@), rk.take(i as int)),
            groups_cover(|code: u64| buckets.rows(code), distinct(rk.take(i as int))),
        decreases keys.len() - i,
    {
        let ghost seen = rk.take(i as int);
        proof {
            assert(rk.take(i + 1) =~= seen.push(rk[i as int]));
            assert(rk[i as int] == row_key(kv[i as int], dropna));
            lemma_distinct_bounded(seen);
        }
        if dropna && keys[i].is_missing() {
            proof {
                lemma_skip_row(seen);
            }
        } else {
            match find_group(keys, arena_slice(&first_rows), &buckets, i, dropna) {
                Some(g) => {
                    proof {
                        lemma_join_row(seen, kv[i as int], g as int);
                    }
                    let ghost before = member_views(members@);
                    assert(before.len() == members@.len());
                    let mut rows: Vec<usize> = Vec::new();
                    std::mem::swap(&mut rows, &mut members[g]);
                    rows.push(i);
                    members.set(g, rows);
                    assert(member_views(members@) =~= before.update(
                        g as int,
                        before[g as int].push(i),
                    ));
                },
                None => {
                    let ghost table = |code: u64| buckets.rows(code);
                    proof {
                        lemma_open_row(seen, kv[i as int]);
                        assert(arena_items(first_rows).len() == distinct(seen).len());
                    }
                    let ghost before = member_views(members@);
                    buckets.add(keys[i].code(), arena_slice(&first_rows).len());
                    proof {
                        lemma_cover_group(
                            table,
                            |code: u64| buckets.rows(code),
                            distinct(seen),
                            kv[i as int],
                        );
                    }
                    let mut rows: Vec<usize> = Vec::new();
                    rows.push(i);
                    arena_push(&mut first_rows, i);
                    members.push(rows);
                    assert(member_views(members@) =~= before.push(seq![i]));
                },
            }
        }
        i += 1;
    }
    assert(rk.take(i as int) =~= rk);
    let out = copy_out(arena_slice(&first_rows));
    Grouping { first_rows: out, members }
}

/// The buckets agree with the groups seen so far: a bucket holds the place of
/// the group of its key, or `usize::MAX` where its key has no group yet.
pub open spec fn slots_match(slots: Seq<usize>, min: i64, groups: Seq<KeyView>) -> bool {
    &&& forall|b: int|
        0 <= b < slots.len() ==> (#[trigger] slots[b] != usize::MAX <==> groups.contains(
            KeyView::Int64((min + b) as i64),
        ))
    &&& forall|b: int|
        0 <= b < slots.len() && #[trigger] slots[b] != usize::MAX ==> slots[b] < groups.len()
            && groups[slots[b] as int] == KeyView::Int64((min + b) as i64)
}

/// Groups the rows by integer key as the dense path does, with the table of
/// buckets and the first rows of the groups kept in an arena while the rows are
/// gone through. Gives nothing where the dense path does not apply.
pub fn group_rows_dense_arena(keys: &[GroupKey], dropna: bool) -> (r: Option<Grouping>)
    ensures
        r is Some <==> dense_applies(key_views(keys@), dropna),
        r matches Some(g) ==> is_grouping_of(
            g.first_rows@,
            member_views(g.members@),
            row_keys(key_views(keys@), dropna),
        ),
{
    let ghost kv = key_views(keys@);
    let ghost rk = row_keys(kv, dropna);
    let (min_key, max_key, saw_int_key) = match dense_int64_range(keys, dropna) {
        Some(range) => range,
        None => {
            return None;
        },
    };
    if !saw_int_key {
        proof {
            assert forall|i: int| 0 <= i < rk.len() implies rk[i] is None by {
                assert(kv[i] is Int64 || (dropna && kv[i] is Null));
                assert(rk[i] == row_key(kv[i], dropna));
            }
            lemma_all_dropped(rk);
        }
        let first_rows: Vec<usize> = Vec::new();
        let members: Vec<Vec<usize>> = Vec::new();
        assert(member_views(members@) =~= Seq::<Seq<usize>>::empty());
        return Some(Grouping { first_rows, members });
    }
    let span: i128 = max_key as i128 - min_key as i128 + 1;
    if span <= 0 || span > DENSE_INT_KEY_RANGE_LIMIT {
        return None;
    }
    let bucket_len: usize = span as usize;
    let arena = new_arena();
    let mut slots = arena_vec(&arena);
    arena_resize(&mut slots, bucket_len, usize::MAX);
    let mut first_rows = arena_vec(&arena);
    let mut members: Vec<Vec<usize>> = Vec::new();
    let mut i: usize = 0;
    assert(rk.take(0) =~= Seq::<Option<KeyView>>::empty());
    assert(arena_items(first_rows) =~= first_rows_of(rk.take(0)));
    assert(member_views(members@) =~= members_of(rk.take(0)));
    while i < keys.len()
        invariant
            i <= keys.len(),
            kv == key_views(keys@),
            rk == row_keys(kv, dropna),
            dense_keys_only(kv, dropna),
            is_int_range(kv, min_key, max_key, true),
            max_key - min_key + 1 == bucket_len,
            bucket_len <= DENSE_INT_KEY_RANGE_LIMIT,
            arena_items(slots).len() == bucket_len,
            is_grouping_of(arena_items(first_rows), member_views(members@), rk.take(i as int)),
            slots_match(arena_items(slots), min_key, distinct(rk.take(i as int))),
        decreases keys.len() - i,
    {
        let ghost prefix = rk.take(i as int);
        let ghost groups = distinct(prefix);
        proof {
            assert(rk.take(i + 1) =~= prefix.push(rk[i as int]));
            assert(rk[i as int] == row_key(kv[i as int], dropna));
            assert(kv[i as int] is Int64 || (dropna && kv[i as int] is Null));
        }
        match &keys[i] {
            GroupKey::Int64(v) => {
                let bucket: usize = (*v as i128 - min_key as i128) as usize;
                proof {
                    assert(kv[i as int] == KeyView::Int64(*v));
                    assert((min_key + bucket) as i64 == *v);
                    assert(arena_items(first_rows).len() == groups.len());
                    lemma_distinct_bounded(prefix);
                }
                let slot = arena_slice(&slots)[bucket];
                if slot == usize::MAX {
                    proof {
                        lemma_open_row(prefix, kv[i as int]);
                    }
                    let ghost before = member_views(members@);
                    let ghost old_slots = arena_items(slots);
                    let place = arena_slice(&first_rows).len();
                    arena_set(&mut slots, bucket, place);
                    let mut rows: Vec<usize> = Vec::new();
                    rows.push(i);
                    arena_push(&mut first_rows, i);
                    members.push(rows);
                    assert(member_views(members@) =~= before.push(seq![i]));
                    proof {
                        let next = groups.push(kv[i as int]);
                        let new_slots = arena_items(slots);
                        assert forall|x: int| 0 <= x < new_slots.len() implies (
                        #[trigger] new_slots[x] != usize::MAX <==> next.contains(
                            KeyView::Int64((min_key + x) as i64),
                        )) by {
                            let k = KeyView::Int64((min_key + x) as i64);
                            if x == bucket {
                                assert(next[groups.len() as int] == k);
                            } else {
                                assert(new_slots[x] == old_slots[x]);
                                if groups.contains(k) {
                                    let p = choose|p: int| 0 <= p < groups.len() && groups[p] == k;
                                    assert(next[p] == k);
                                }
                                if next.contains(k) {
                                    let p = choose|p: int| 0 <= p < next.len() && next[p] == k;
                                    assert(p < groups.len());
                                    assert(groups[p] == k);
                                }
                            }
                        }
                        assert forall|x: int|
                            0 <= x < new_slots.len() && #[trigger] new_slots[x]
                                != usize::MAX implies new_slots[x] < next.len()
                            && next[new_slots[x] as int] == KeyView::Int64((min_key + x) as i64) by {
                            if x != bucket {
                                assert(new_slots[x] == old_slots[x]);
                            }
                        }
                    }
                } else {
                    proof {
                        lemma_join_row(prefix, kv[i as int], slot as int);
                    }
                    let ghost before = member_views(members@);
                    assert(before.len() == members@.len());
                    let mut rows: Vec<usize> = Vec::new();
                    std::mem::swap(&mut rows, &mut members[slot]);
                    rows.push(i);
                    members.set(slot, rows);
                    assert(member_views(members@) =~= before.update(
                        slot as int,
                        before[slot as int].push(i),
                    ));
                }
            },
            _ => {
                proof {
                    lemma_skip_row(prefix);
                }
            },
        }
        i += 1;
    }
    assert(rk.take(i as int) =~= rk);
    let out = copy_out(arena_slice(&first_rows));
    Some(Grouping { first_rows: out, members })
}

/// The groups that come of the tables in an arena are those that come of the
/// tables outside one.
pub proof fn lemma_allocators_agree(
    arena: Grouping,
    global: Grouping,
    keys: Seq<KeyView>,
    dropna: bool,
)
    requires
        is_grouping_of(arena.first_rows@, member_views(arena.members@), row_keys(keys, dropna)),
        is_grouping_of(global.first_rows@, member_views(global.members@), row_keys(keys, dropna)),
    ensures
        arena.first_rows@ == global.first_rows@,
        member_views(arena.members@) == member_views(global.members@),
{
}

} // verus!
