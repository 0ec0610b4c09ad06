//! Row labels and the ordered index that a series or a frame is bound to.

use vstd::prelude::*;
use vstd::std_specs::convert::FromSpecImpl;
use crate::buckets::{code_of_text, text_code, Buckets};

verus! {

/// What a label is, mathematically: an integer or a text.
pub enum LabelView {
    Int64(i64),
    Utf8(Seq<char>),
}

/// An atomic identifier of a row.
#[derive(Debug, PartialEq, Eq, Hash)]
pub enum IndexLabel {
    Int64(i64),
    Utf8(String),
}

impl View for IndexLabel {
    type V = LabelView;

    open spec fn view(&self) -> LabelView {
        match self {
            IndexLabel::Int64(v) => LabelView::Int64(*v),
            IndexLabel::Utf8(s) => LabelView::Utf8(s@),
        }
    }
}

impl Clone for IndexLabel {
    fn clone(&self) -> (r: Self)
        ensures
            r@ == self@,
    {
        match self {
            IndexLabel::Int64(v) => IndexLabel::Int64(*v),
            IndexLabel::Utf8(s) => IndexLabel::Utf8(s.clone()),
        }
    }
}

impl From<i64> for IndexLabel {
    fn from(value: i64) -> (r: Self) {
        IndexLabel::Int64(value)
    }
}

impl FromSpecImpl<i64> for IndexLabel {
    open spec fn obeys_from_spec() -> bool {
        true
    }

    open spec fn from_spec(v: i64) -> Self {
        IndexLabel::Int64(v)
    }
}

impl From<String> for IndexLabel {
    fn from(value: String) -> (r: Self) {
        IndexLabel::Utf8(value)
    }
}

impl FromSpecImpl<String> for IndexLabel {
    open spec fn obeys_from_spec() -> bool {
        true
    }

    open spec fn from_spec(v: String) -> Self {
        IndexLabel::Utf8(v)
    }
}

impl<'a> From<&'a str> for IndexLabel {
    fn from(value: &'a str) -> (r: Self) {
        IndexLabel::text(value)
    }
}

impl<'a> FromSpecImpl<&'a str> for IndexLabel {
    open spec fn obeys_from_spec() -> bool {
        false
    }

    open spec fn from_spec(v: &'a str) -> Self {
        arbitrary()
    }
}

impl IndexLabel {
    /// The label that holds the text `value`.
    pub fn text(value: &str) -> (r: Self)
        ensures
            r@ == LabelView::Utf8(value@),
    {
        IndexLabel::Utf8(value.to_owned())
    }

    /// The hash code of the label. Equal labels have equal codes.
    pub fn code(&self) -> (h: u64)
        ensures
            h == label_code(self@),
    {
        match self {
            IndexLabel::Int64(v) => *v as u64,
            IndexLabel::Utf8(s) => code_of_text(s.as_str()),
        }
    }

    /// Value equality of two labels.
    pub fn same(&self, other: &IndexLabel) -> (r: bool)
        ensures
            r == (self@ == other@),
    {
        match self {
            IndexLabel::Int64(a) => match other {
                IndexLabel::Int64(b) => *a == *b,
                IndexLabel::Utf8(_) => false,
            },
            IndexLabel::Utf8(a) => match other {
                IndexLabel::Int64(_) => false,
                IndexLabel::Utf8(b) => *a == *b,
            },
        }
    }
}

/// The hash code of a label.
pub open spec fn label_code(l: LabelView) -> u64 {
    match l {
        LabelView::Int64(v) => v as u64,
        LabelView::Utf8(s) => text_code(s),
    }
}

/// The labels of a sequence, each taken by its view.
pub open spec fn label_views(s: Seq<IndexLabel>) -> Seq<LabelView> {
    s.map_values(|l: IndexLabel| l@)
}

/// The position of the first occurrence of `label` in `s`, if it occurs.
pub open spec fn first_position<T>(s: Seq<T>, label: T) -> Option<int>
    decreases s.len(),
{
    if s.len() == 0 {
        None
    } else {
        match first_position(s.drop_last(), label) {
            Some(i) => Some(i),
            None => if s.last() == label {
                Some(s.len() - 1)
            } else {
                None
            },
        }
    }
}

/// Some label occurs at two positions.
pub open spec fn has_duplicate_labels(s: Seq<LabelView>) -> bool {
    exists|i: int, j: int| 0 <= i < j < s.len() && s[i] == s[j]
}

/// `first_position` returns the least position that holds the label, and
/// `None` exactly when no position does.
pub proof fn lemma_first_position<T>(s: Seq<T>, label: T)
    ensures
        match first_position(s, label) {
            Some(i) => 0 <= i < s.len() && s[i] == label && forall|j: int|
                0 <= j < i ==> s[j] != label,
            None => forall|j: int| 0 <= j < s.len() ==> s[j] != label,
        },
    decreases s.len(),
{
    if s.len() > 0 {
        let t = s.drop_last();
        lemma_first_position(t, label);
        assert forall|j: int| 0 <= j < t.len() implies t[j] == s[j] by {}
    }
}

/// A position that holds the label, with none before it that does, is the
/// first position.
pub proof fn lemma_first_position_is<T>(s: Seq<T>, label: T, i: int)
    requires
        0 <= i < s.len(),
        s[i] == label,
        forall|j: int| 0 <= j < i ==> s[j] != label,
    ensures
        first_position(s, label) == Some(i),
{
    lemma_first_position(s, label);
}

/// A label that occurs nowhere has no first position.
pub proof fn lemma_first_position_none<T>(s: Seq<T>, label: T)
    requires
        forall|j: int| 0 <= j < s.len() ==> s[j] != label,
    ensures
        first_position(s, label) is None,
{
    lemma_first_position(s, label);
}

/// No earlier position of `s` holds the label at position `p`.
pub open spec fn is_first(s: Seq<LabelView>, p: int) -> bool {
    first_position(s, s[p]) == Some(p)
}

/// The rows under each code hold the first position of every label of `s`,
/// each under the code of its label, and nothing else.
pub open spec fn rows_cover(rows: spec_fn(u64) -> Seq<usize>, s: Seq<LabelView>) -> bool {
    &&& forall|p: int|
        0 <= p < s.len() && is_first(s, p) ==> rows(label_code(#[trigger] s[p])).contains(
            p as usize,
        )
    &&& forall|code: u64, j: int|
        0 <= j < rows(code).len() ==> (#[trigger] rows(code)[j]) < s.len() && is_first(
            s,
            rows(code)[j] as int,
        )
}

/// The first position of a label in a sequence with one more label.
pub proof fn lemma_first_position_push(s: Seq<LabelView>, x: LabelView, label: LabelView)
    ensures
        first_position(s.push(x), label) == match first_position(s, label) {
            Some(i) => Some(i),
            None => if x == label {
                Some(s.len() as int)
            } else {
                None
            },
        },
{
    assert(s.push(x).drop_last() =~= s);
}

/// Which positions are first positions in a sequence with one more label.
pub proof fn lemma_is_first_push(s: Seq<LabelView>, x: LabelView, p: int)
    requires
        0 <= p <= s.len(),
    ensures
        p < s.len() ==> is_first(s.push(x), p) == is_first(s, p),
        p == s.len() ==> is_first(s.push(x), p) == (first_position(s, x) is None),
{
    let label = s.push(x)[p];
    lemma_first_position_push(s, x, label);
    lemma_first_position(s, label);
    if p < s.len() {
        assert(s[p] == label);
    }
}

/// A label that occurs already changes nothing in a table.
pub proof fn lemma_cover_known(rows: spec_fn(u64) -> Seq<usize>, s: Seq<LabelView>, x: LabelView)
    requires
        rows_cover(rows, s),
        first_position(s, x) is Some,
    ensures
        rows_cover(rows, s.push(x)),
{
    let t = s.push(x);
    assert forall|p: int| 0 <= p < t.len() && is_first(t, p) implies rows(
        label_code(#[trigger] t[p]),
    ).contains(p as usize) by {
        lemma_is_first_push(s, x, p);
        assert(t[p] == s[p]);
    }
    assert forall|code: u64, j: int| 0 <= j < rows(code).len() implies (#[trigger] rows(code)[j])
        < t.len() && is_first(t, rows(code)[j] as int) by {
        lemma_is_first_push(s, x, rows(code)[j] as int);
    }
}

/// A new label is covered once its position is put under its code.
pub proof fn lemma_cover_new(
    before: spec_fn(u64) -> Seq<usize>,
    after: spec_fn(u64) -> Seq<usize>,
    s: Seq<LabelView>,
    x: LabelView,
)
    requires
        rows_cover(before, s),
        first_position(s, x) is None,
        s.len() < usize::MAX,
        after(label_code(x)) == before(label_code(x)).push(s.len() as usize),
        forall|code: u64| code != label_code(x) ==> #[trigger] after(code) == before(code),
    ensures
        rows_cover(after, s.push(x)),
{
    let t = s.push(x);
    let cx = label_code(x);
    assert forall|p: int| 0 <= p < t.len() && is_first(t, p) implies after(
        label_code(#[trigger] t[p]),
    ).contains(p as usize) by {
        lemma_is_first_push(s, x, p);
        let c = label_code(t[p]);
        if p == s.len() {
            assert(after(cx)[before(cx).len() as int] == p as usize);
        } else {
            assert(t[p] == s[p]);
            let old_rows = before(c);
            assert(old_rows.contains(p as usize));
            let j = choose|j: int| 0 <= j < old_rows.len() && old_rows[j] == p as usize;
            assert(after(c)[j] == p as usize);
        }
    }
    assert forall|code: u64, j: int| 0 <= j < after(code).len() implies (#[trigger] after(code)[j])
        < t.len() && is_first(t, after(code)[j] as int) by {
        if code == cx && j == before(cx).len() {
            lemma_is_first_push(s, x, s.len() as int);
        } else {
            assert(after(code)[j] == before(code)[j]);
            lemma_is_first_push(s, x, before(code)[j] as int);
        }
    }
}

/// A table that finds the first position of a label in a sequence of labels
/// without going through the sequence: it holds, under the hash code of each
/// distinct label, the first position of that label.
pub struct LabelLookup {
    buckets: Buckets,
}

impl LabelLookup {
    /// The table holds the first position of every label of `s`, each under
    /// the code of its label, and nothing else.
    pub closed spec fn covers(&self, s: Seq<LabelView>) -> bool {
        rows_cover(|code: u64| self.buckets.rows(code), s)
    }

    /// The table of no labels.
    pub fn new() -> (r: LabelLookup)
        ensures
            r.covers(Seq::<LabelView>::empty()),
    {
        LabelLookup { buckets: Buckets::new() }
    }

    /// The first position among the first `n` labels that holds `label`.
    pub fn find(&self, labels: &[IndexLabel], n: usize, label: &IndexLabel) -> (r: Option<usize>)
        requires
            n <= labels.len(),
            self.covers(label_views(labels@).take(n as int)),
        ensures
            match r {
                Some(i) => first_position(label_views(labels@).take(n as int), label@) == Some(
                    i as int,
                ),
                None => first_position(label_views(labels@).take(n as int), label@) is None,
            },
    {
        let ghost s = label_views(labels@).take(n as int);
        let ghost table = |code: u64| self.buckets.rows(code);
        let code = label.code();
        let rows = match self.buckets.rows_under(code) {
            Some(rows) => rows,
            None => {
                proof {
                    lemma_first_position(s, label@);
                    if first_position(s, label@) is Some {
                        let p = first_position(s, label@)->Some_0;
                        assert(is_first(s, p));
                        assert(table(label_code(s[p])).contains(p as usize));
                    }
                }
                return None;
            },
        };
        let mut j: usize = 0;
        while j < rows.len()
            invariant
                j <= rows.len(),
                n <= labels.len(),
                s == label_views(labels@).take(n as int),
                table == (|code: u64| self.buckets.rows(code)),
                rows_cover(table, s),
                rows@ == table(code),
                code == label_code(label@),
                forall|x: int| 0 <= x < j ==> s[rows@[x] as int] != label@,
            decreases rows.len() - j,
        {
            let p = rows[j];
            assert(p == table(code)[j as int]);
            assert(p < n && is_first(s, p as int));
            assert(s[p as int] == labels@[p as int]@);
            if labels[p].same(label) {
                return Some(p);
            }
            j += 1;
        }
        proof {
            lemma_first_position(s, label@);
            if first_position(s, label@) is Some {
                let p = first_position(s, label@)->Some_0;
                assert(is_first(s, p));
                assert(table(label_code(s[p])).contains(p as usize));
                let x = choose|x: int| 0 <= x < rows@.len() && rows@[x] == p as usize;
                assert(s[rows@[x] as int] != label@);
            }
        }
        None
    }

    /// Takes the label at position `n` into a table of the first `n` labels,
    /// given that none of these is equal to it.
    pub fn add_new(&mut self, labels: &[IndexLabel], n: usize)
        requires
            n < labels.len(),
            old(self).covers(label_views(labels@).take(n as int)),
            first_position(label_views(labels@).take(n as int), labels@[n as int]@) is None,
        ensures
            final(self).covers(label_views(labels@).take(n + 1)),
    {
        let ghost s = label_views(labels@).take(n as int);
        let ghost before = |code: u64| self.buckets.rows(code);
        let code = labels[n].code();
        self.buckets.add(code, n);
        proof {
            let after = |code: u64| self.buckets.rows(code);
            assert(label_views(labels@).take(n + 1) =~= s.push(labels@[n as int]@));
            lemma_cover_new(before, after, s, labels@[n as int]@);
        }
    }

    /// Takes the label at position `n` into a table of the first `n` labels.
    /// Gives the first position among these that holds the label, which is
    /// none where the label is new.
    pub fn note(&mut self, labels: &[IndexLabel], n: usize) -> (r: Option<usize>)
        requires
            n < labels.len(),
            old(self).covers(label_views(labels@).take(n as int)),
        ensures
            final(self).covers(label_views(labels@).take(n + 1)),
            match r {
                Some(i) => first_position(
                    label_views(labels@).take(n as int),
                    labels@[n as int]@,
                ) == Some(i as int),
                None => first_position(label_views(labels@).take(n as int), labels@[n as int]@)
                    is None,
            },
    {
        let found = self.find(labels, n, &labels[n]);
        match found {
            Some(_) => {
                proof {
                    let s = label_views(labels@).take(n as int);
                    assert(label_views(labels@).take(n + 1) =~= s.push(labels@[n as int]@));
                    lemma_cover_known(|code: u64| self.buckets.rows(code), s, labels@[n as int]@);
                }
            },
            None => {
                self.add_new(labels, n);
            },
        }
        found
    }

    /// The table of all the labels.
    pub fn of(labels: &[IndexLabel]) -> (r: LabelLookup)
        ensures
            r.covers(label_views(labels@)),
    {
        let mut lookup = LabelLookup::new();
        let mut i: usize = 0;
        assert(label_views(labels@).take(0) =~= Seq::<LabelView>::empty());
        while i < labels.len()
            invariant
                i <= labels.len(),
                lookup.covers(label_views(labels@).take(i as int)),
            decreases labels.len() - i,
        {
            let _ = lookup.note(labels, i);
            i += 1;
        }
        assert(label_views(labels@).take(i as int) =~= label_views(labels@));
        lookup
    }
}

/// An ordered sequence of labels.
#[derive(Debug, PartialEq, Eq)]
pub struct Index {
    labels: Vec<IndexLabel>,
}

impl View for Index {
    type V = Seq<LabelView>;

    closed spec fn view(&self) -> Seq<LabelView> {
        label_views(self.labels@)
    }
}

impl Clone for Index {
    fn clone(&self) -> (r: Self)
        ensures
            r@ == self@,
    {
        let mut labels: Vec<IndexLabel> = Vec::new();
        let mut i: usize = 0;
        while i < self.labels.len()
            invariant
                i <= self.labels.len(),
                label_views(labels@) == label_views(self.labels@).take(i as int),
            decreases self.labels.len() - i,
        {
            let ghost before = labels@;
            labels.push(self.labels[i].clone());
            assert(label_views(labels@) =~= label_views(before).push(self.labels@[i as int]@));
            assert(label_views(labels@) =~= label_views(self.labels@).take(i + 1));
            i += 1;
        }
        assert(label_views(self.labels@).take(i as int) =~= label_views(self.labels@));
        Index { labels }
    }
}

/// The position of the first label of `labels` equal to `label`.
pub fn find_label(labels: &[IndexLabel], label: &IndexLabel) -> (r: Option<usize>)
    ensures
        match r {
            Some(i) => first_position(label_views(labels@), label@) == Some(i as int),
            None => first_position(label_views(labels@), label@) is None,
        },
{
    let mut i: usize = 0;
    while i < labels.len()
        invariant
            i <= labels.len(),
            forall|j: int| 0 <= j < i ==> label_views(labels@)[j] != label@,
        decreases labels.len() - i,
    {
        if labels[i].same(label) {
            proof {
                lemma_first_position_is(label_views(labels@), label@, i as int);
            }
            return Some(i);
        }
        i += 1;
    }
    proof {
        lemma_first_position_none(label_views(labels@), label@);
    }
    None
}

impl Index {
    /// The index over `labels`, in their order.
    pub fn new(labels: Vec<IndexLabel>) -> (r: Self)
        ensures
            r@ == label_views(labels@),
    {
        Index { labels }
    }

    /// The number of labels: the length of any series bound to this index.
    pub fn len(&self) -> (n: usize)
        ensures
            n == self@.len(),
    {
        self.labels.len()
    }

    pub fn is_empty(&self) -> (r: bool)
        ensures
            r == (self@.len() == 0),
    {
        self.labels.len() == 0
    }

    /// The labels, in order.
    pub fn labels(&self) -> (r: &[IndexLabel])
        ensures
            label_views(r@) == self@,
    {
        self.labels.as_slice()
    }

    /// The first position that holds `label`.
    pub fn position_of(&self, label: &IndexLabel) -> (r: Option<usize>)
        ensures
            match r {
                Some(i) => first_position(self@, label@) == Some(i as int),
                None => first_position(self@, label@) is None,
            },
    {
        find_label(self.labels.as_slice(), label)
    }

    /// Whether some label occurs more than once.
    pub fn has_duplicates(&self) -> (r: bool)
        ensures
            r == has_duplicate_labels(self@),
    {
        let ghost s = self@;
        let labels = self.labels.as_slice();
        let mut lookup = LabelLookup::new();
        let mut i: usize = 0;
        assert(s.take(0) =~= Seq::<LabelView>::empty());
        while i < labels.len()
            invariant
                i <= labels.len(),
                s == self@,
                s == label_views(labels@),
                lookup.covers(s.take(i as int)),
                forall|a: int, b: int| 0 <= a < b < i ==> s[a] != s[b],
            decreases labels.len() - i,
        {
            proof {
                lemma_first_position(s.take(i as int), s[i as int]);
                assert(s[i as int] == labels@[i as int]@);
            }
            match lookup.note(labels, i) {
                Some(p) => {
                    assert(s.take(i as int)[p as int] == s[p as int]);
                    assert(s[p as int] == s[i as int]);
                    return true;
                },
                None => {
                    assert forall|a: int, b: int| 0 <= a < b < i + 1 implies s[a] != s[b] by {
                        if b == i {
                            assert(s.take(i as int)[a] == s[a]);
                        }
                    }
                },
            }
            i += 1;
        }
        false
    }

    /// Whether both indices hold the same labels in the same order.
    pub fn same_labels(&self, other: &Index) -> (r: bool)
        ensures
            r == (self@ == other@),
    {
        if self.labels.len() != other.labels.len() {
            assert(self@.len() != other@.len());
            return false;
        }
        let mut i: usize = 0;
        while i < self.labels.len()
            invariant
                i <= self.labels.len(),
                self.labels.len() == other.labels.len(),
                forall|j: int| 0 <= j < i ==> self@[j] == other@[j],
            decreases self.labels.len() - i,
        {
            if !self.labels[i].same(&other.labels[i]) {
                assert(self@[i as int] != other@[i as int]);
                return false;
            }
            i += 1;
        }
        assert(self@ =~= other@);
        true
    }
}

} // verus!
