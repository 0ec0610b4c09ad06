//! The alignment planner: from two indices, their union and the position of
//! each label of the union in either source.

use vstd::prelude::*;
use vstd::string::StringExecFns;
use crate::text::{decimal, decimal_text};
use crate::label::{
    first_position, label_views, lemma_first_position, Index, IndexLabel, LabelLookup, LabelView,
};

verus! {

/// The elements of `s`, each kept at its first occurrence only.
pub open spec fn first_seen<T>(s: Seq<T>) -> Seq<T>
    decreases s.len(),
{
    if s.len() == 0 {
        Seq::empty()
    } else {
        let before = first_seen(s.drop_last());
        if before.contains(s.last()) {
            before
        } else {
            before.push(s.last())
        }
    }
}

/// The labels of `left` in order, then each label of `right` that is not yet
/// there, in order.
pub open spec fn union_labels(left: Seq<LabelView>, right: Seq<LabelView>) -> Seq<LabelView>
    decreases right.len(),
{
    if right.len() == 0 {
        left
    } else {
        let before = union_labels(left, right.drop_last());
        if before.contains(right.last()) {
            before
        } else {
            before.push(right.last())
        }
    }
}

/// For each label of `union`, its first position in `side`, if it occurs there.
pub open spec fn position_map(union: Seq<LabelView>, side: Seq<LabelView>) -> Seq<Option<usize>> {
    Seq::new(
        union.len(),
        |i: int|
            match first_position(side, union[i]) {
                Some(p) => Some(p as usize),
                None => None,
            },
    )
}

/// The union index of two sources and the two maps that project each source
/// onto it.
#[derive(Debug, PartialEq, Eq)]
pub struct AlignmentPlan {
    pub union_index: Index,
    pub left_positions: Vec<Option<usize>>,
    pub right_positions: Vec<Option<usize>>,
}

/// Why a plan is refused.
#[derive(Debug, Clone, Copy, PartialEq, Eq)]
pub enum IndexError {
    InvalidAlignmentVectors,
    OutOfBounds { position: usize, length: usize },
}

/// What an index error says.
pub open spec fn index_error_text(e: IndexError) -> Seq<char> {
    match e {
        IndexError::InvalidAlignmentVectors => "alignment vectors must have equal lengths"@,
        IndexError::OutOfBounds { position, length } => "position "@ + decimal_text(
            position as nat,
        ) + " out of bounds for length "@ + decimal_text(length as nat),
    }
}

impl IndexError {
    /// A short text that names what is wrong, with the sizes.
    pub fn message(&self) -> (r: String)
        ensures
            r@ == index_error_text(*self),
    {
        match self {
            IndexError::InvalidAlignmentVectors => {
                "alignment vectors must have equal lengths".to_owned()
            },
            IndexError::OutOfBounds { position, length } => {
                "position ".to_owned().concat(decimal(*position).as_str()).concat(
                    " out of bounds for length ",
                ).concat(decimal(*length).as_str())
            },
        }
    }
}

/// Every position that is present lies below `len`.
pub open spec fn positions_in_range(p: Seq<Option<usize>>, len: nat) -> bool {
    forall|i: int| 0 <= i < p.len() ==> (#[trigger] p[i] is Some ==> p[i]->Some_0 < len)
}

/// The first position of `p` that is present and not below `len`.
pub open spec fn first_out_of_range(p: Seq<Option<usize>>, len: nat) -> Option<usize>
    decreases p.len(),
{
    if p.len() == 0 {
        None
    } else {
        match first_out_of_range(p.drop_last(), len) {
            Some(v) => Some(v),
            None => match p.last() {
                Some(v) => if v >= len {
                    Some(v)
                } else {
                    None
                },
                None => None,
            },
        }
    }
}

/// The three vectors agree in length and every present position is in range
/// for its source.
pub open spec fn plan_is_valid(plan: AlignmentPlan, left_len: nat, right_len: nat) -> bool {
    &&& plan.left_positions@.len() == plan.right_positions@.len()
    &&& plan.left_positions@.len() == plan.union_index@.len()
    &&& positions_in_range(plan.left_positions@, left_len)
    &&& positions_in_range(plan.right_positions@, right_len)
}

/// What validation answers for a plan and the lengths of its two sources.
pub open spec fn validation_of(plan: AlignmentPlan, left_len: nat, right_len: nat) -> Result<
    (),
    IndexError,
> {
    if plan.left_positions@.len() != plan.right_positions@.len() || plan.left_positions@.len()
        != plan.union_index@.len() {
        Err(IndexError::InvalidAlignmentVectors)
    } else {
        match first_out_of_range(plan.left_positions@, left_len) {
            Some(v) => Err(IndexError::OutOfBounds { position: v, length: left_len as usize }),
            None => match first_out_of_range(plan.right_positions@, right_len) {
                Some(v) => Err(
                    IndexError::OutOfBounds { position: v, length: right_len as usize },
                ),
                None => Ok(()),
            },
        }
    }
}

/// No position is out of range exactly when all positions are in range.
pub proof fn lemma_first_out_of_range(p: Seq<Option<usize>>, len: nat)
    ensures
        first_out_of_range(p, len) is None <==> positions_in_range(p, len),
        first_out_of_range(p, len) is Some ==> first_out_of_range(p, len)->Some_0 >= len,
    decreases p.len(),
{
    if p.len() > 0 {
        let t = p.drop_last();
        lemma_first_out_of_range(t, len);
        assert forall|j: int| 0 <= j < t.len() implies t[j] == p[j] by {}
        if first_out_of_range(p, len) is None {
            assert forall|i: int| 0 <= i < p.len() && #[trigger] p[i] is Some implies p[i]->Some_0
                < len by {
                if i < t.len() {
                    assert(t[i] == p[i]);
                }
            }
        } else if first_out_of_range(t, len) is None {
            assert(p[p.len() - 1] is Some);
        } else {
            let j = choose|j: int| 0 <= j < t.len() && #[trigger] t[j] is Some && t[j]->Some_0 >= len;
            assert(p[j] is Some);
        }
    }
}

/// Validation succeeds on exactly the valid plans.
pub proof fn lemma_validation_ok(plan: AlignmentPlan, left_len: nat, right_len: nat)
    ensures
        validation_of(plan, left_len, right_len) is Ok <==> plan_is_valid(
            plan,
            left_len,
            right_len,
        ),
{
    lemma_first_out_of_range(plan.left_positions@, left_len);
    lemma_first_out_of_range(plan.right_positions@, right_len);
}

fn scan_out_of_range(p: &Vec<Option<usize>>, len: usize) -> (r: Option<usize>)
    ensures
        r == first_out_of_range(p@, len as nat),
{
    let mut i: usize = 0;
    while i < p.len()
        invariant
            i <= p.len(),
            first_out_of_range(p@.take(i as int), len as nat) is None,
        decreases p.len() - i,
    {
        assert(p@.take(i + 1).drop_last() =~= p@.take(i as int));
        match p[i] {
            Some(v) => {
                if v >= len {
                    proof {
                        lemma_out_of_range_extends(p@, len as nat, i + 1);
                    }
                    return Some(v);
                }
            },
            None => {},
        }
        i += 1;
    }
    assert(p@.take(i as int) =~= p@);
    None
}

/// Once a prefix holds a position out of range, the first one of the whole
/// sequence is the first one of that prefix.
proof fn lemma_out_of_range_extends(p: Seq<Option<usize>>, len: nat, k: int)
    requires
        0 <= k <= p.len(),
        first_out_of_range(p.take(k), len) is Some,
    ensures
        first_out_of_range(p, len) == first_out_of_range(p.take(k), len),
    decreases p.len() - k,
{
    if k < p.len() {
        assert(p.take(k + 1).drop_last() =~= p.take(k));
        lemma_out_of_range_extends(p, len, k + 1);
    } else {
        assert(p.take(k) =~= p);
    }
}

/// Checks that the three vectors of `plan` agree in length and that every
/// present position is in range for its source.
pub fn validate_alignment_plan(plan: &AlignmentPlan, left_len: usize, right_len: usize) -> (r:
    Result<(), IndexError>)
    ensures
        r == validation_of(*plan, left_len as nat, right_len as nat),
        r is Ok <==> plan_is_valid(*plan, left_len as nat, right_len as nat),
{
    proof {
        lemma_validation_ok(*plan, left_len as nat, right_len as nat);
    }
    if plan.left_positions.len() != plan.right_positions.len() || plan.left_positions.len()
        != plan.union_index.len() {
        return Err(IndexError::InvalidAlignmentVectors);
    }
    match scan_out_of_range(&plan.left_positions, left_len) {
        Some(v) => {
            return Err(IndexError::OutOfBounds { position: v, length: left_len });
        },
        None => {},
    }
    match scan_out_of_range(&plan.right_positions, right_len) {
        Some(v) => Err(IndexError::OutOfBounds { position: v, length: right_len }),
        None => Ok(()),
    }
}

/// A label occurs in a sequence exactly when it has a first position there.
pub proof fn lemma_contains_first_position<T>(s: Seq<T>, label: T)
    ensures
        s.contains(label) <==> first_position(s, label) is Some,
{
    lemma_first_position(s, label);
    if first_position(s, label) is Some {
        assert(s[first_position(s, label)->Some_0] == label);
    }
}

fn locate_all(union: &[IndexLabel], side: &[IndexLabel]) -> (r: Vec<Option<usize>>)
    ensures
        r@ == position_map(label_views(union@), label_views(side@)),
{
    let lookup = LabelLookup::of(side);
    let n = side.len();
    assert(label_views(side@).take(n as int) =~= label_views(side@));
    let mut out: Vec<Option<usize>> = Vec::new();
    let mut i: usize = 0;
    while i < union.len()
        invariant
            i <= union.len(),
            n == side.len(),
            lookup.covers(label_views(side@).take(n as int)),
            label_views(side@).take(n as int) == label_views(side@),
            out@.len() == i,
            forall|j: int|
                0 <= j < i ==> #[trigger] out@[j] == position_map(
                    label_views(union@),
                    label_views(side@),
                )[j],
        decreases union.len() - i,
    {
        let found = lookup.find(side, n, &union[i]);
        out.push(found);
        i += 1;
    }
    assert(out@ =~= position_map(label_views(union@), label_views(side@)));
    out
}

/// Plans the alignment of two indices.
///
/// The union holds the labels of `left` in order, then the labels of `right`
/// that are not yet in the union, in order. Each position map gives, for every
/// label of the union, the first position of that label in its source, or
/// nothing where the source does not hold it.
pub fn align_union(left: &Index, right: &Index) -> (plan: AlignmentPlan)
    ensures
        plan.union_index@ == union_labels(left@, right@),
        plan.left_positions@ == position_map(plan.union_index@, left@),
        plan.right_positions@ == position_map(plan.union_index@, right@),
        plan_is_valid(plan, left@.len(), right@.len()),
{
    let left_labels = left.labels();
    let right_labels = right.labels();
    let mut labels: Vec<IndexLabel> = Vec::new();
    let mut lookup = LabelLookup::new();
    let mut i: usize = 0;
    assert(label_views(labels@) =~= Seq::<LabelView>::empty());
    while i < left_labels.len()
        invariant
            i <= left_labels.len(),
            label_views(left_labels@) == left@,
            label_views(labels@) == left@.take(i as int),
            labels@.len() == i,
            lookup.covers(label_views(labels@)),
        decreases left_labels.len() - i,
    {
        let ghost before = labels@;
        labels.push(left_labels[i].clone());
        assert(label_views(labels@) =~= label_views(before).push(left@[i as int]));
        assert(label_views(labels@) =~= left@.take(i + 1));
        assert(label_views(labels@).take(i as int) =~= label_views(before));
        let _ = lookup.note(labels.as_slice(), i);
        assert(label_views(labels@).take(i + 1) =~= label_views(labels@));
        i += 1;
    }
    assert(left@.take(i as int) =~= left@);
    assert(right@.take(0) =~= Seq::<LabelView>::empty());
    let mut j: usize = 0;
    while j < right_labels.len()
        invariant
            j <= right_labels.len(),
            label_views(right_labels@) == right@,
            label_views(labels@) == union_labels(left@, right@.take(j as int)),
            lookup.covers(label_views(labels@)),
        decreases right_labels.len() - j,
    {
        let ghost before = labels@;
        let n = labels.len();
        assert(label_views(before).take(n as int) =~= label_views(before));
        let found = lookup.find(labels.as_slice(), n, &right_labels[j]);
        proof {
            lemma_contains_first_position(label_views(before), right@[j as int]);
            assert(right@.take(j + 1).drop_last() =~= right@.take(j as int));
            assert(right@.take(j + 1).last() == right@[j as int]);
        }
        if found.is_none() {
            labels.push(right_labels[j].clone());
            assert(label_views(labels@) =~= label_views(before).push(right@[j as int]));
            assert(label_views(labels@).take(n as int) =~= label_views(before));
            lookup.add_new(labels.as_slice(), n);
            assert(label_views(labels@).take(n + 1) =~= label_views(labels@));
        }
        j += 1;
    }
    assert(right@.take(j as int) =~= right@);
    let left_positions = locate_all(labels.as_slice(), left_labels);
    let right_positions = locate_all(labels.as_slice(), right_labels);
    let union_index = Index::new(labels);
    let plan = AlignmentPlan { union_index, left_positions, right_positions };
    proof {
        lemma_position_map_valid(plan.union_index@, left@);
        lemma_position_map_valid(plan.union_index@, right@);
    }
    plan
}

/// A position map is as long as the union and holds positions of its source
/// only.
pub proof fn lemma_position_map_valid(union: Seq<LabelView>, side: Seq<LabelView>)
    requires
        side.len() <= usize::MAX,
    ensures
        position_map(union, side).len() == union.len(),
        positions_in_range(position_map(union, side), side.len()),
{
    let p = position_map(union, side);
    assert forall|i: int| 0 <= i < p.len() && #[trigger] p[i] is Some implies p[i]->Some_0
        < side.len() by {
        lemma_first_position(side, union[i]);
    }
}

/// The union begins with the labels of the left source, in order.
pub proof fn lemma_union_begins_with_left(left: Seq<LabelView>, right: Seq<LabelView>)
    ensures
        left.len() <= union_labels(left, right).len(),
        union_labels(left, right).take(left.len() as int) == left,
    decreases right.len(),
{
    if right.len() == 0 {
        assert(left.take(left.len() as int) =~= left);
    } else {
        lemma_union_begins_with_left(left, right.drop_last());
        let before = union_labels(left, right.drop_last());
        assert(before.push(right.last()).take(left.len() as int) =~= before.take(
            left.len() as int,
        ));
    }
}

/// The labels of `right` that `left` does not hold, in their order.
pub open spec fn absent_from(left: Seq<LabelView>, right: Seq<LabelView>) -> Seq<LabelView>
    decreases right.len(),
{
    if right.len() == 0 {
        Seq::empty()
    } else {
        let before = absent_from(left, right.drop_last());
        if left.contains(right.last()) {
            before
        } else {
            before.push(right.last())
        }
    }
}

/// The union is the left labels in order, followed by the labels of the right
/// source that the left one does not hold, each once, in the order in which
/// they stand there.
pub proof fn lemma_union_ordering(left: Seq<LabelView>, right: Seq<LabelView>)
    ensures
        union_labels(left, right) == left + first_seen(absent_from(left, right)),
    decreases right.len(),
{
    if right.len() == 0 {
        assert(left + Seq::<LabelView>::empty() =~= left);
    } else {
        let r0 = right.drop_last();
        let x = right.last();
        lemma_union_ordering(left, r0);
        let before = union_labels(left, r0);
        let tail = first_seen(absent_from(left, r0));
        assert(before == left + tail);
        if left.contains(x) {
            let k = choose|k: int| 0 <= k < left.len() && left[k] == x;
            assert(before[k] == x);
        } else {
            let a1 = absent_from(left, r0).push(x);
            assert(absent_from(left, right) == a1);
            assert(a1.drop_last() =~= absent_from(left, r0));
            assert(a1.last() == x);
            if tail.contains(x) {
                let k = choose|k: int| 0 <= k < tail.len() && tail[k] == x;
                assert(before[left.len() + k] == x);
            } else {
                assert(!before.contains(x)) by {
                    if before.contains(x) {
                        let k = choose|k: int| 0 <= k < before.len() && before[k] == x;
                        if k < left.len() {
                            assert(left[k] == x);
                        } else {
                            assert(tail[k - left.len()] == x);
                        }
                    }
                }
                assert(before.push(x) =~= left + tail.push(x));
            }
        }
    }
}

/// Wherever the position map gives a position, the source holds the label of
/// the union at that position, and no earlier position of the source holds
/// it; where it gives none, the source does not hold the label.
pub proof fn lemma_alignment_sound(union: Seq<LabelView>, side: Seq<LabelView>, i: int)
    requires
        side.len() <= usize::MAX,
        0 <= i < union.len(),
    ensures
        match position_map(union, side)[i] {
            Some(p) => p < side.len() && side[p as int] == union[i] && forall|j: int|
                0 <= j < p ==> side[j] != union[i],
            None => !side.contains(union[i]),
        },
{
    lemma_first_position(side, union[i]);
    lemma_contains_first_position(side, union[i]);
}

/// Every label of either source occurs in the union.
pub proof fn lemma_union_holds_both(left: Seq<LabelView>, right: Seq<LabelView>, label: LabelView)
    requires
        left.contains(label) || right.contains(label),
    ensures
        union_labels(left, right).contains(label),
    decreases right.len(),
{
    if right.len() == 0 {
        assert(!right.contains(label));
    } else {
        let r0 = right.drop_last();
        let before = union_labels(left, r0);
        if left.contains(label) || r0.contains(label) {
            lemma_union_holds_both(left, r0, label);
            let k = choose|k: int| 0 <= k < before.len() && before[k] == label;
            assert(before.push(right.last())[k] == label);
        } else {
            let k = choose|k: int| 0 <= k < right.len() && right[k] == label;
            if k < r0.len() {
                assert(r0[k] == label);
            }
            assert(right.last() == label);
            if !before.contains(label) {
                assert(before.push(label)[before.len() as int] == label);
            }
        }
    }
}

} // verus!
