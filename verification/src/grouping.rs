//! Grouping of rows by key, in first-seen order: what a group is, and the
//! facts about groups that the aggregation paths are proved from.

use vstd::prelude::*;
use fp_types::Scalar;
use crate::align::{first_seen, lemma_contains_first_position};
use crate::buckets::{code_of_text, text_code};
use crate::label::{first_position, lemma_first_position};
use crate::scalar::{
    bits_are_nan, datum_is_missing, datum_is_plain, is_nan_bits, read_scalar, scalar_datum, Datum,
    DatumView, NOT_A_TIME,
};

verus! {

/// The bit pattern that stands for every float NaN in a key.
pub const CANONICAL_NAN_BITS: u64 = 0x7ff8_0000_0000_0000;

/// What a key is, mathematically: the kind of the scalar and what identifies
/// it within that kind. A scalar that is of none of the plain kinds has no
/// key of its own: it stands as `Other`, with the answer to whether it is a
/// missing value.
pub enum KeyView {
    Null,
    Bool(bool),
    Int64(i64),
    FloatBits(u64),
    Utf8(Seq<char>),
    Other { missing: bool },
}

/// The identity of a key scalar for grouping. Two scalars are in one group
/// exactly when their keys are equal.
#[derive(Debug, PartialEq, Eq)]
pub enum GroupKey {
    Null,
    Bool(bool),
    Int64(i64),
    FloatBits(u64),
    Utf8(String),
    Other { missing: bool },
}

impl View for GroupKey {
    type V = KeyView;

    open spec fn view(&self) -> KeyView {
        match self {
            GroupKey::Null => KeyView::Null,
            GroupKey::Bool(v) => KeyView::Bool(*v),
            GroupKey::Int64(v) => KeyView::Int64(*v),
            GroupKey::FloatBits(bits) => KeyView::FloatBits(*bits),
            GroupKey::Utf8(s) => KeyView::Utf8(s@),
            GroupKey::Other { missing } => KeyView::Other { missing: *missing },
        }
    }
}

/// The key of a datum: the datum itself, but that nulls of all kinds have the
/// one key, so that they are one group, and that every float NaN has the one
/// canonical bit pattern, so that all NaN keys are one group.
pub open spec fn fingerprint(d: DatumView) -> KeyView {
    match d {
        DatumView::Null(_) => KeyView::Null,
        DatumView::Bool(v) => KeyView::Bool(v),
        DatumView::Int64(v) => KeyView::Int64(v),
        DatumView::Float64(bits) => KeyView::FloatBits(
            if is_nan_bits(bits) {
                CANONICAL_NAN_BITS
            } else {
                bits
            },
        ),
        DatumView::Utf8(s) => KeyView::Utf8(s),
        DatumView::Timedelta64(v) => KeyView::Other { missing: v == NOT_A_TIME },
        DatumView::Datetime64(v) => KeyView::Other { missing: v == NOT_A_TIME },
        DatumView::Period(ordinal, _) => KeyView::Other { missing: ordinal == NOT_A_TIME },
        DatumView::Interval(_, _, _) => KeyView::Other { missing: false },
    }
}

/// Whether a key is the key of a scalar of a plain kind.
pub open spec fn key_is_plain(k: KeyView) -> bool {
    !(k is Other)
}

/// Whether a key stands for a missing value.
pub open spec fn key_is_missing(k: KeyView) -> bool {
    match k {
        KeyView::Null => true,
        KeyView::FloatBits(bits) => bits == CANONICAL_NAN_BITS,
        KeyView::Other { missing, .. } => missing,
        _ => false,
    }
}

/// The hash code of a key.
pub open spec fn key_code(k: KeyView) -> u64 {
    match k {
        KeyView::Null => 0,
        KeyView::Bool(v) => if v {
            1
        } else {
            2
        },
        KeyView::Int64(v) => v as u64,
        KeyView::FloatBits(bits) => bits,
        KeyView::Utf8(s) => text_code(s),
        KeyView::Other { missing } => if missing {
            3
        } else {
            4
        },
    }
}

/// The rows under each code hold the place of every group, each under the
/// code of the key of its group, and nothing else.
pub open spec fn groups_cover(rows: spec_fn(u64) -> Seq<usize>, groups: Seq<KeyView>) -> bool {
    &&& forall|g: int|
        0 <= g < groups.len() ==> rows(key_code(#[trigger] groups[g])).contains(g as usize)
    &&& forall|code: u64, j: int|
        0 <= j < rows(code).len() ==> (#[trigger] rows(code)[j]) < groups.len()
}

/// A new group is covered once its place is put under the code of its key.
pub proof fn lemma_cover_group(
    before: spec_fn(u64) -> Seq<usize>,
    after: spec_fn(u64) -> Seq<usize>,
    groups: Seq<KeyView>,
    k: KeyView,
)
    requires
        groups_cover(before, groups),
        groups.len() < usize::MAX,
        after(key_code(k)) == before(key_code(k)).push(groups.len() as usize),
        forall|code: u64| code != key_code(k) ==> #[trigger] after(code) == before(code),
    ensures
        groups_cover(after, groups.push(k)),
{
    let next = groups.push(k);
    let ck = key_code(k);
    assert forall|g: int| 0 <= g < next.len() implies after(key_code(#[trigger] next[g])).contains(
        g as usize,
    ) by {
        let c = key_code(next[g]);
        if g == groups.len() {
            assert(after(ck)[before(ck).len() as int] == g as usize);
        } else {
            assert(next[g] == groups[g]);
            let old_rows = before(c);
            assert(old_rows.contains(g as usize));
            let j = choose|j: int| 0 <= j < old_rows.len() && old_rows[j] == g as usize;
            assert(after(c)[j] == g as usize);
        }
    }
    assert forall|code: u64, j: int| 0 <= j < after(code).len() implies (#[trigger] after(code)[j])
        < next.len() by {
        if code == ck && j == before(ck).len() {
        } else {
            assert(after(code)[j] == before(code)[j]);
        }
    }
}

/// The canonical bit pattern is one of a NaN.
pub proof fn lemma_canonical_is_nan()
    ensures
        is_nan_bits(CANONICAL_NAN_BITS),
{
    assert(is_nan_bits(0x7ff8_0000_0000_0000u64)) by (bit_vector);
}

/// A key is missing exactly when the datum it was made of is, and is the key
/// of a plain kind exactly when the datum is of one.
pub proof fn lemma_fingerprint_missing(d: DatumView)
    ensures
        key_is_missing(fingerprint(d)) == datum_is_missing(d),
        key_is_plain(fingerprint(d)) == datum_is_plain(d),
{
    lemma_canonical_is_nan();
}

impl GroupKey {
    /// The key of a datum.
    pub fn from_datum(d: Datum) -> (k: GroupKey)
        ensures
            k@ == fingerprint(d@),
    {
        match d {
            Datum::Null(_) => GroupKey::Null,
            Datum::Bool(v) => GroupKey::Bool(v),
            Datum::Int64(v) => GroupKey::Int64(v),
            Datum::Float64(bits) => {
                if bits_are_nan(bits) {
                    GroupKey::FloatBits(CANONICAL_NAN_BITS)
                } else {
                    GroupKey::FloatBits(bits)
                }
            },
            Datum::Utf8(s) => GroupKey::Utf8(s),
            Datum::Timedelta64(v) => GroupKey::Other { missing: v == NOT_A_TIME },
            Datum::Datetime64(v) => GroupKey::Other { missing: v == NOT_A_TIME },
            Datum::Period(ordinal, _) => GroupKey::Other { missing: ordinal == NOT_A_TIME },
            Datum::Interval(_, _, _) => GroupKey::Other { missing: false },
        }
    }

    /// The key of a scalar.
    pub fn from_scalar(key: &Scalar) -> (k: GroupKey)
        ensures
            k@ == fingerprint(scalar_datum(*key)),
    {
        GroupKey::from_datum(read_scalar(key))
    }

    /// The hash code of the key. Equal keys have equal codes.
    pub fn code(&self) -> (h: u64)
        ensures
            h == key_code(self@),
    {
        match self {
            GroupKey::Null => 0,
            GroupKey::Bool(v) => if *v {
                1
            } else {
                2
            },
            GroupKey::Int64(v) => *v as u64,
            GroupKey::FloatBits(bits) => *bits,
            GroupKey::Utf8(s) => code_of_text(s.as_str()),
            GroupKey::Other { missing } => if *missing {
                3
            } else {
                4
            },
        }
    }

    /// Whether the key is the key of a scalar of a plain kind.
    pub fn is_plain(&self) -> (r: bool)
        ensures
            r == key_is_plain(self@),
    {
        match self {
            GroupKey::Other { .. } => false,
            _ => true,
        }
    }

    /// Whether the key stands for a missing value.
    pub fn is_missing(&self) -> (r: bool)
        ensures
            r == key_is_missing(self@),
    {
        match self {
            GroupKey::Null => true,
            GroupKey::FloatBits(bits) => *bits == CANONICAL_NAN_BITS,
            GroupKey::Other { missing, .. } => *missing,
            _ => false,
        }
    }

    /// Value equality of two keys.
    pub fn same(&self, other: &GroupKey) -> (r: bool)
        ensures
            r == (self@ == other@),
    {
        match self {
            GroupKey::Null => match other {
                GroupKey::Null => true,
                _ => false,
            },
            GroupKey::Bool(a) => match other {
                GroupKey::Bool(b) => *a == *b,
                _ => false,
            },
            GroupKey::Int64(a) => match other {
                GroupKey::Int64(b) => *a == *b,
                _ => false,
            },
            GroupKey::FloatBits(a) => match other {
                GroupKey::FloatBits(b) => *a == *b,
                _ => false,
            },
            GroupKey::Utf8(a) => match other {
                GroupKey::Utf8(b) => *a == *b,
                _ => false,
            },
            GroupKey::Other { missing: ma } => match other {
                GroupKey::Other { missing: mb } => *ma == *mb,
                _ => false,
            },
        }
    }
}

/// The keys of a sequence, each taken by its view.
pub open spec fn key_views(keys: Seq<GroupKey>) -> Seq<KeyView> {
    keys.map_values(|k: GroupKey| k@)
}

/// The keys of a sequence of scalars.
pub open spec fn scalar_keys(keys: Seq<Scalar>) -> Seq<KeyView> {
    keys.map_values(|s: Scalar| fingerprint(scalar_datum(s)))
}

/// The key under which a row is grouped: none where the row is dropped, which
/// is where missing keys are to be dropped and the key is a missing one.
pub open spec fn row_key(k: KeyView, dropna: bool) -> Option<KeyView> {
    if dropna && key_is_missing(k) {
        None
    } else {
        Some(k)
    }
}

/// For each row, the key under which it is grouped.
pub open spec fn row_keys(keys: Seq<KeyView>, dropna: bool) -> Seq<Option<KeyView>> {
    keys.map_values(|k: KeyView| row_key(k, dropna))
}

/// The keys of the rows that are not dropped, in row order.
pub open spec fn kept_keys(rk: Seq<Option<KeyView>>) -> Seq<KeyView>
    decreases rk.len(),
{
    if rk.len() == 0 {
        Seq::empty()
    } else {
        match rk.last() {
            None => kept_keys(rk.drop_last()),
            Some(k) => kept_keys(rk.drop_last()).push(k),
        }
    }
}

/// The distinct keys of the rows, each at the place of its first occurrence.
pub open spec fn distinct(rk: Seq<Option<KeyView>>) -> Seq<KeyView>
    decreases rk.len(),
{
    if rk.len() == 0 {
        Seq::empty()
    } else {
        let before = distinct(rk.drop_last());
        match rk.last() {
            None => before,
            Some(k) => if before.contains(k) {
                before
            } else {
                before.push(k)
            },
        }
    }
}

/// The rows that are grouped under `k`, in ascending order.
pub open spec fn rows_with(rk: Seq<Option<KeyView>>, k: KeyView) -> Seq<usize>
    decreases rk.len(),
{
    if rk.len() == 0 {
        Seq::empty()
    } else {
        let before = rows_with(rk.drop_last(), k);
        if rk.last() == Some(k) {
            before.push((rk.len() - 1) as usize)
        } else {
            before
        }
    }
}

/// The first row that is grouped under `k`.
pub open spec fn first_row(rk: Seq<Option<KeyView>>, k: KeyView) -> usize {
    match first_position(rk, Some(k)) {
        Some(p) => p as usize,
        None => 0,
    }
}

/// For each group, in first-seen order, its first row.
pub open spec fn first_rows_of(rk: Seq<Option<KeyView>>) -> Seq<usize> {
    distinct(rk).map_values(|k: KeyView| first_row(rk, k))
}

/// For each group, in first-seen order, its rows.
pub open spec fn members_of(rk: Seq<Option<KeyView>>) -> Seq<Seq<usize>> {
    distinct(rk).map_values(|k: KeyView| rows_with(rk, k))
}

/// The groups of a sequence of rows: for each group, in the order in which the
/// groups are first seen, its first row and all its rows.
#[derive(Debug, PartialEq, Eq)]
pub struct Grouping {
    pub first_rows: Vec<usize>,
    pub members: Vec<Vec<usize>>,
}

/// The rows of each group, as sequences.
pub open spec fn member_views(members: Seq<Vec<usize>>) -> Seq<Seq<usize>> {
    members.map_values(|m: Vec<usize>| m@)
}

/// `first_rows` and `members` are the groups of the rows `rk`.
pub open spec fn is_grouping_of(
    first_rows: Seq<usize>,
    members: Seq<Seq<usize>>,
    rk: Seq<Option<KeyView>>,
) -> bool {
    first_rows == first_rows_of(rk) && members == members_of(rk)
}

/// First-seen order: the distinct keys are the keys of the kept rows, each at
/// its first occurrence.
pub proof fn lemma_distinct_is_first_seen(rk: Seq<Option<KeyView>>)
    ensures
        distinct(rk) == first_seen(kept_keys(rk)),
    decreases rk.len(),
{
    if rk.len() > 0 {
        lemma_distinct_is_first_seen(rk.drop_last());
        match rk.last() {
            None => {},
            Some(k) => {
                assert(kept_keys(rk).drop_last() =~= kept_keys(rk.drop_last()));
            },
        }
    }
}

/// A key is among the distinct keys exactly when some row is grouped under it.
pub proof fn lemma_distinct_contains(rk: Seq<Option<KeyView>>, k: KeyView)
    ensures
        distinct(rk).contains(k) <==> rk.contains(Some(k)),
    decreases rk.len(),
{
    if rk.len() > 0 {
        let r0 = rk.drop_last();
        let before = distinct(r0);
        lemma_distinct_contains(r0, k);
        if rk.contains(Some(k)) {
            let i = choose|i: int| 0 <= i < rk.len() && rk[i] == Some(k);
            if i < r0.len() {
                assert(r0[i] == Some(k));
                let j = choose|j: int| 0 <= j < before.len() && before[j] == k;
                assert(distinct(rk)[j] == k);
            } else {
                assert(rk.last() == Some(k));
                if !before.contains(k) {
                    assert(before.push(k)[before.len() as int] == k);
                }
            }
        }
        if distinct(rk).contains(k) {
            if before.contains(k) {
                let i = choose|i: int| 0 <= i < r0.len() && r0[i] == Some(k);
                assert(rk[i] == Some(k));
            } else {
                let j = choose|j: int| 0 <= j < distinct(rk).len() && distinct(rk)[j] == k;
                if j < before.len() {
                    assert(before[j] == k);
                }
                assert(rk[rk.len() - 1] == Some(k));
            }
        }
    }
}

/// No key occurs twice among the distinct keys.
pub proof fn lemma_distinct_no_duplicates(rk: Seq<Option<KeyView>>)
    ensures
        forall|i: int, j: int|
            0 <= i < j < distinct(rk).len() ==> distinct(rk)[i] != distinct(rk)[j],
    decreases rk.len(),
{
    if rk.len() > 0 {
        let before = distinct(rk.drop_last());
        let now = distinct(rk);
        lemma_distinct_no_duplicates(rk.drop_last());
        assert forall|i: int, j: int| 0 <= i < j < now.len() implies now[i] != now[j] by {
            if j < before.len() {
                assert(before[i] != before[j]);
            } else {
                assert(now[i] == before[i]);
                assert(!before.contains(now[j]));
            }
        }
    }
}

/// The rows grouped under a key are rows that hold it, in ascending order, and
/// every row that holds it is among them.
pub proof fn lemma_rows_with(rk: Seq<Option<KeyView>>, k: KeyView)
    requires
        rk.len() <= usize::MAX,
    ensures
        forall|j: int|
            0 <= j < rows_with(rk, k).len() ==> (#[trigger] rows_with(rk, k)[j]) < rk.len()
                && rk[rows_with(rk, k)[j] as int] == Some(k),
        forall|a: int, b: int|
            0 <= a < b < rows_with(rk, k).len() ==> rows_with(rk, k)[a] < rows_with(rk, k)[b],
        forall|i: int|
            0 <= i < rk.len() && rk[i] == Some(k) ==> rows_with(rk, k).contains(i as usize),
        !rk.contains(Some(k)) ==> rows_with(rk, k).len() == 0,
    decreases rk.len(),
{
    if rk.len() > 0 {
        let r0 = rk.drop_last();
        lemma_rows_with(r0, k);
        let before = rows_with(r0, k);
        let now = rows_with(rk, k);
        assert forall|i: int| 0 <= i < rk.len() && rk[i] == Some(k) implies now.contains(
            i as usize,
        ) by {
            if i < r0.len() {
                assert(r0[i] == Some(k));
                let j = choose|j: int| 0 <= j < before.len() && before[j] == i as usize;
                assert(now[j] == i as usize);
            } else {
                assert(now[now.len() - 1] == i as usize);
            }
        }
        if !rk.contains(Some(k)) {
            assert(!r0.contains(Some(k))) by {
                if r0.contains(Some(k)) {
                    let i = choose|i: int| 0 <= i < r0.len() && r0[i] == Some(k);
                    assert(rk[i] == Some(k));
                }
            }
            assert(rk[rk.len() - 1] != Some(k));
        }
    }
}

/// A row that is dropped changes no group.
pub proof fn lemma_skip_row(rk: Seq<Option<KeyView>>)
    ensures
        first_rows_of(rk.push(None)) == first_rows_of(rk),
        members_of(rk.push(None)) == members_of(rk),
        distinct(rk.push(None)) == distinct(rk),
{
    let next = rk.push(None);
    assert(next.drop_last() =~= rk);
    assert(distinct(next) == distinct(rk));
    assert forall|j: int| 0 <= j < distinct(rk).len() implies first_row(next, distinct(rk)[j])
        == first_row(rk, distinct(rk)[j]) && rows_with(next, distinct(rk)[j]) == rows_with(
        rk,
        distinct(rk)[j],
    ) by {
        let k = distinct(rk)[j];
        lemma_distinct_contains(rk, k);
        lemma_contains_first_position(rk, Some(k));
    }
    assert(first_rows_of(next) =~= first_rows_of(rk));
    assert(members_of(next) =~= members_of(rk));
}

/// A row under a key that has a group joins that group, and changes no other.
pub proof fn lemma_join_row(rk: Seq<Option<KeyView>>, k: KeyView, g: int)
    requires
        0 <= g < distinct(rk).len(),
        distinct(rk)[g] == k,
        rk.len() < usize::MAX,
    ensures
        distinct(rk.push(Some(k))) == distinct(rk),
        first_rows_of(rk.push(Some(k))) == first_rows_of(rk),
        members_of(rk.push(Some(k))) == members_of(rk).update(
            g,
            members_of(rk)[g].push(rk.len() as usize),
        ),
{
    let next = rk.push(Some(k));
    assert(next.drop_last() =~= rk);
    assert(distinct(rk).contains(k));
    assert(distinct(next) == distinct(rk));
    lemma_distinct_no_duplicates(rk);
    assert forall|j: int| 0 <= j < distinct(rk).len() implies first_row(next, distinct(rk)[j])
        == first_row(rk, distinct(rk)[j]) by {
        let x = distinct(rk)[j];
        lemma_distinct_contains(rk, x);
        lemma_contains_first_position(rk, Some(x));
    }
    assert(first_rows_of(next) =~= first_rows_of(rk));
    assert(members_of(next) =~= members_of(rk).update(
        g,
        members_of(rk)[g].push(rk.len() as usize),
    ));
}

/// A row under a key that has no group opens a group of its own, after all
/// the others, and changes none of them.
pub proof fn lemma_open_row(rk: Seq<Option<KeyView>>, k: KeyView)
    requires
        !distinct(rk).contains(k),
        rk.len() < usize::MAX,
    ensures
        distinct(rk.push(Some(k))) == distinct(rk).push(k),
        first_rows_of(rk.push(Some(k))) == first_rows_of(rk).push(rk.len() as usize),
        members_of(rk.push(Some(k))) == members_of(rk).push(seq![rk.len() as usize]),
{
    let next = rk.push(Some(k));
    assert(next.drop_last() =~= rk);
    assert(distinct(next) == distinct(rk).push(k));
    lemma_distinct_contains(rk, k);
    lemma_rows_with(rk, k);
    lemma_contains_first_position(rk, Some(k));
    assert(rows_with(next, k) =~= seq![rk.len() as usize]);
    assert(first_row(next, k) == rk.len() as usize);
    assert forall|j: int| 0 <= j < distinct(rk).len() implies first_row(next, distinct(rk)[j])
        == first_row(rk, distinct(rk)[j]) && rows_with(next, distinct(rk)[j]) == rows_with(
        rk,
        distinct(rk)[j],
    ) by {
        let x = distinct(rk)[j];
        lemma_distinct_contains(rk, x);
        lemma_contains_first_position(rk, Some(x));
    }
    assert(first_rows_of(next) =~= first_rows_of(rk).push(rk.len() as usize));
    assert(members_of(next) =~= members_of(rk).push(seq![rk.len() as usize]));
}

/// The first row of each group is a row under the key of the group, and no
/// row before it is.
pub proof fn lemma_first_rows(rk: Seq<Option<KeyView>>, g: int)
    requires
        0 <= g < distinct(rk).len(),
        rk.len() <= usize::MAX,
    ensures
        first_rows_of(rk)[g] < rk.len(),
        rk[first_rows_of(rk)[g] as int] == Some(distinct(rk)[g]),
        forall|i: int| 0 <= i < first_rows_of(rk)[g] ==> rk[i] != Some(distinct(rk)[g]),
{
    let k = distinct(rk)[g];
    lemma_distinct_contains(rk, k);
    lemma_contains_first_position(rk, Some(k));
    lemma_first_position(rk, Some(k));
}

/// The keys of the groups, each read at the first
/// row of its group, are the keys of the rows that are kept, in row order,
/// each at its first occurrence.
pub proof fn lemma_groups_in_first_seen_order(keys: Seq<KeyView>, dropna: bool)
    requires
        keys.len() <= usize::MAX,
    ensures
        first_rows_of(row_keys(keys, dropna)).map_values(|r: usize| keys[r as int]) == first_seen(
            kept_keys(row_keys(keys, dropna)),
        ),
{
    let rk = row_keys(keys, dropna);
    let at_first = first_rows_of(rk).map_values(|r: usize| keys[r as int]);
    lemma_distinct_is_first_seen(rk);
    assert forall|g: int| 0 <= g < distinct(rk).len() implies at_first[g] == distinct(rk)[g] by {
        lemma_first_rows(rk, g);
        let r = first_rows_of(rk)[g] as int;
        assert(rk[r] == row_key(keys[r], dropna));
    }
    assert(at_first =~= distinct(rk));
}

/// No row is in two groups.
pub proof fn lemma_groups_disjoint(rk: Seq<Option<KeyView>>, g: int, h: int, row: usize)
    requires
        rk.len() <= usize::MAX,
        0 <= g < distinct(rk).len(),
        0 <= h < distinct(rk).len(),
        members_of(rk)[g].contains(row),
        members_of(rk)[h].contains(row),
    ensures
        g == h,
{
    lemma_rows_with(rk, distinct(rk)[g]);
    lemma_rows_with(rk, distinct(rk)[h]);
    lemma_distinct_no_duplicates(rk);
    let a = choose|a: int|
        0 <= a < rows_with(rk, distinct(rk)[g]).len() && rows_with(rk, distinct(rk)[g])[a] == row;
    let b = choose|b: int|
        0 <= b < rows_with(rk, distinct(rk)[h]).len() && rows_with(rk, distinct(rk)[h])[b] == row;
    assert(rk[row as int] == Some(distinct(rk)[g]));
    assert(rk[row as int] == Some(distinct(rk)[h]));
}

/// Every row that is kept is in the group of its key.
pub proof fn lemma_kept_row_is_grouped(rk: Seq<Option<KeyView>>, row: int)
    requires
        rk.len() <= usize::MAX,
        0 <= row < rk.len(),
        rk[row] is Some,
    ensures
        exists|g: int|
            0 <= g < distinct(rk).len() && distinct(rk)[g] == rk[row]->Some_0 && (
            #[trigger] members_of(rk)[g]).contains(row as usize),
{
    let k = rk[row]->Some_0;
    lemma_distinct_contains(rk, k);
    let g = choose|g: int| 0 <= g < distinct(rk).len() && distinct(rk)[g] == k;
    lemma_rows_with(rk, k);
    assert(members_of(rk)[g] == rows_with(rk, k));
}

/// There are no more groups than rows.
pub proof fn lemma_distinct_bounded(rk: Seq<Option<KeyView>>)
    ensures
        distinct(rk).len() <= rk.len(),
    decreases rk.len(),
{
    if rk.len() > 0 {
        lemma_distinct_bounded(rk.drop_last());
    }
}

} // verus!
