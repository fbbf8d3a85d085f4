//! When two keys, ranges or schemes are the same, and what a hash of one is taken
//! over: the same for those that are the same, whatever order their parts came in.
use vstd::prelude::*;
use crate::names::{lemma_pairs_dom, lemma_pairs_value, NameMap};
use crate::partitions::definition::{
    def_view, def_wf, dims_of, lemma_dim_decreases, lemma_dims_of, DefView, PartitionsDefinition,
};
use crate::partitions::grid::{equal_lengths, same_lengths, same_opt_text, GridView, TimeGrid};
use crate::partitions::key::{
    dims_view, key_view, key_wf, keys_view, lemma_keys_view, lemma_member_decreases, KeyView,
    PyPartitionKey,
};
use crate::partitions::key_range::{
    sels_wf, DimensionSelection, PartitionKeyRangeInner, PyPartitionKeyRange,
};
use crate::partitions::key_set::OrderedKeySet;
use crate::partitions::meet::all_in;
use crate::text::{lemma_sorted_lists_set, same_text, set_in_order, sort_texts, texts};

verus! {

/// One value that goes into a hash.
#[derive(Debug)]
pub enum HashPart {
    /// Which shape follows.
    Tag(u8),
    /// Which shape of key follows, inside a batch.
    Variant(u8),
    /// How many texts follow.
    Count(usize),
    Text(String),
}

/// What a part says.
pub enum PartView {
    Tag(u8),
    Variant(u8),
    Count(int),
    Text(Seq<char>),
}

impl View for HashPart {
    type V = PartView;

    open spec fn view(&self) -> PartView {
        match *self {
            HashPart::Tag(n) => PartView::Tag(n),
            HashPart::Variant(n) => PartView::Variant(n),
            HashPart::Count(n) => PartView::Count(n as int),
            HashPart::Text(t) => PartView::Text(t@),
        }
    }
}

/// What each part of a list says.
pub open spec fn parts_view(s: Seq<HashPart>) -> Seq<PartView> {
    s.map_values(|p: HashPart| p@)
}

/// The parts of a list of texts, with their number before them where they are counted.
pub open spec fn listed_parts(v: Seq<Seq<char>>, counted: bool) -> Seq<PartView> {
    (if counted {
        seq![PartView::Count(v.len() as int)]
    } else {
        Seq::empty()
    }) + v.map_values(|t: Seq<char>| PartView::Text(t))
}

/// The parts of the dimensions of a key, in the order of `names`.
pub open spec fn dims_parts(
    m: Map<Seq<char>, Seq<Seq<char>>>,
    names: Seq<Seq<char>>,
    counted: bool,
) -> Seq<PartView>
    decreases names.len(),
{
    if names.len() == 0 {
        Seq::empty()
    } else {
        dims_parts(m, names.drop_last(), counted).push(PartView::Text(names.last()))
            + listed_parts(m[names.last()], counted)
    }
}

/// The parts of a key: by itself, or nested in a batch.
pub open spec fn key_parts(k: KeyView, nested: bool) -> Seq<PartView>
    decreases k,
{
    let head = |n: u8|
        if nested {
            seq![PartView::Variant(n)]
        } else {
            seq![PartView::Tag(n)]
        };
    match k {
        KeyView::Single(keys) => head(0) + listed_parts(keys, nested),
        KeyView::Multi(m) => head(1) + dims_parts(m, set_in_order(m.dom()), nested),
        KeyView::Batch(members) => head(2) + members_parts(members),
    }
}

/// The parts of the members of a batch.
pub open spec fn members_parts(s: Seq<KeyView>) -> Seq<PartView>
    decreases s,
{
    if s.len() == 0 {
        Seq::empty()
    } else {
        members_parts(s.drop_last()) + key_parts(s.last(), true)
    }
}

fn put(out: &mut Vec<HashPart>, part: HashPart)
    ensures
        parts_view(final(out)@) == parts_view(old(out)@).push(part@),
{
    let ghost before = parts_view(out@);
    let ghost p = part@;
    out.push(part);
    proof {
        assert(parts_view(out@) =~= before.push(p));
    }
}

fn put_list(out: &mut Vec<HashPart>, v: &Vec<String>, counted: bool)
    ensures
        parts_view(final(out)@) == parts_view(old(out)@) + listed_parts(texts(v@), counted),
{
    let ghost before = parts_view(out@);
    let ghost head: Seq<PartView> = if counted {
        seq![PartView::Count(v@.len() as int)]
    } else {
        Seq::empty()
    };
    let ghost tail = texts(v@).map_values(|t: Seq<char>| PartView::Text(t));
    if counted {
        put(out, HashPart::Count(v.len()));
    }
    proof {
        assert(parts_view(out@) =~= before + head + tail.take(0));
    }
    let mut i: usize = 0;
    while i < v.len()
        invariant
            i <= v@.len(),
            tail == texts(v@).map_values(|t: Seq<char>| PartView::Text(t)),
            parts_view(out@) == before + head + tail.take(i as int),
        decreases v@.len() - i,
    {
        put(out, HashPart::Text(v[i].clone()));
        proof {
            assert(tail.take(i + 1) =~= tail.take(i as int).push(PartView::Text(v@[i as int]@)));
            assert(parts_view(out@) =~= before + head + tail.take(i + 1));
        }
        i += 1;
    }
    proof {
        assert(tail.take(i as int) =~= tail);
        assert(before + head + tail =~= before + (head + tail));
    }
}

impl PyPartitionKey {
    fn put_parts(&self, nested: bool, out: &mut Vec<HashPart>)
        requires
            self.wf(),
        ensures
            parts_view(final(out)@) == parts_view(old(out)@) + key_parts(self@, nested),
        decreases self,
    {
        let ghost before = parts_view(out@);
        let tag: u8 = match self {
            PyPartitionKey::Single { .. } => 0,
            PyPartitionKey::Multi { .. } => 1,
            PyPartitionKey::Batch { .. } => 2,
        };
        let ghost head = if nested {
            seq![PartView::Variant(tag)]
        } else {
            seq![PartView::Tag(tag)]
        };
        if nested {
            put(out, HashPart::Variant(tag));
        } else {
            put(out, HashPart::Tag(tag));
        }
        proof {
            assert(parts_view(out@) =~= before + head);
        }
        match self {
            PyPartitionKey::Single { key } => {
                put_list(out, key, nested);
                proof {
                    assert(before + head + listed_parts(texts(key@), nested) =~= before + (head
                        + listed_parts(texts(key@), nested)));
                }
            },
            PyPartitionKey::Multi { keys } => {
                let names = keys.sorted_names();
                let ghost m = dims_view(keys@);
                let ghost order = set_in_order(m.dom());
                proof {
                    assert(m.dom() =~= keys@.dom());
                    assert(order.take(0) =~= Seq::empty());
                    assert(before + head + dims_parts(m, order.take(0), nested) =~= before + head);
                }
                let mut i: usize = 0;
                while i < names.len()
                    invariant
                        texts(names@) == order,
                        m == dims_view(keys@),
                        forall|j: int|
                            0 <= j < names@.len() ==> keys@.dom().contains((#[trigger] names@[j])@),
                        i <= names@.len(),
                        parts_view(out@) == before + head + dims_parts(
                            m,
                            order.take(i as int),
                            nested,
                        ),
                    decreases names@.len() - i,
                {
                    proof {
                        assert(order[i as int] == names@[i as int]@);
                        assert(order.take(i + 1).drop_last() =~= order.take(i as int));
                        assert(order.take(i + 1).last() == order[i as int]);
                    }
                    if let Some(v) = keys.get(names[i].as_str()) {
                        put(out, HashPart::Text(names[i].clone()));
                        put_list(out, v, nested);
                        proof {
                            assert(m[order[i as int]] == texts(v@));
                            assert(parts_view(out@) =~= before + head + dims_parts(
                                m,
                                order.take(i + 1),
                                nested,
                            ));
                        }
                    }
                    i += 1;
                }
                proof {
                    assert(order.take(i as int) =~= order);
                    assert(before + head + dims_parts(m, order, nested) =~= before + (head
                        + dims_parts(m, order, nested)));
                }
            },
            PyPartitionKey::Batch { members } => {
                let ghost ks = keys_view(members@);
                proof {
                    lemma_keys_view(members@);
                    assert(ks.take(0) =~= Seq::empty());
                    assert(before + head + members_parts(ks.take(0)) =~= before + head);
                }
                let mut i: usize = 0;
                while i < members.len()
                    invariant
                        i <= members@.len(),
                        self == (PyPartitionKey::Batch { members: *members }),
                        ks.len() == members@.len(),
                        forall|j: int| 0 <= j < members@.len() ==> key_wf(#[trigger] members@[j]),
                        forall|j: int|
                            0 <= j < members@.len() ==> #[trigger] ks[j] == key_view(members@[j]),
                        parts_view(out@) == before + head + members_parts(ks.take(i as int)),
                    decreases members@.len() - i,
                {
                    proof {
                        lemma_member_decreases(*self, i as int);
                        assert(ks.take(i + 1).drop_last() =~= ks.take(i as int));
                        assert(ks.take(i + 1).last() == ks[i as int]);
                    }
                    members[i].put_parts(true, out);
                    proof {
                        assert(parts_view(out@) =~= before + head + members_parts(ks.take(i + 1)));
                    }
                    i += 1;
                }
                proof {
                    assert(ks.take(i as int) =~= ks);
                    assert(before + head + members_parts(ks) =~= before + (head + members_parts(
                        ks,
                    )));
                }
            },
        }
    }

    /// What a hash of the key is taken over, in order.
    pub fn hash_parts(&self) -> (r: Vec<HashPart>)
        requires
            self.wf(),
        ensures
            parts_view(r@) == key_parts(self@, false),
    {
        let mut out: Vec<HashPart> = Vec::new();
        self.put_parts(false, &mut out);
        proof {
            assert(parts_view(out@) =~= key_parts(self@, false));
        }
        out
    }
}

/// What a selection stands for: a range, or a set of keys.
pub enum ChoiceView {
    Range(Seq<char>, Seq<char>),
    Keys(Set<Seq<char>>),
}

/// What a range stands for.
pub enum RangeView {
    Single(Seq<char>, Seq<char>),
    Multi(Map<Seq<char>, ChoiceView>),
}

/// What a selection stands for.
pub open spec fn choice_of(s: DimensionSelection) -> ChoiceView {
    match s {
        DimensionSelection::Range { from_key, to_key } => ChoiceView::Range(from_key@, to_key@),
        DimensionSelection::Keys(keys) => ChoiceView::Keys(keys@.to_set()),
    }
}

/// What each selection of a map stands for.
pub open spec fn choices_of(m: Map<Seq<char>, DimensionSelection>) -> Map<Seq<char>, ChoiceView> {
    m.map_values(|s: DimensionSelection| choice_of(s))
}

impl View for PyPartitionKeyRange {
    type V = RangeView;

    open spec fn view(&self) -> RangeView {
        match self.inner {
            PartitionKeyRangeInner::Single { from_key, to_key } => RangeView::Single(
                from_key@,
                to_key@,
            ),
            PartitionKeyRangeInner::Multi { dimensions } => RangeView::Multi(
                choices_of(dimensions@),
            ),
        }
    }
}

/// The parts of a selection.
pub open spec fn choice_parts(c: ChoiceView) -> Seq<PartView> {
    match c {
        ChoiceView::Range(from, to) => seq![
            PartView::Tag(0),
            PartView::Text(from),
            PartView::Text(to),
        ],
        ChoiceView::Keys(keys) => seq![PartView::Tag(1)] + listed_parts(set_in_order(keys), true),
    }
}

/// The parts of a list of dimensions of a range.
pub open spec fn choices_parts(m: Map<Seq<char>, ChoiceView>, names: Seq<Seq<char>>) -> Seq<
    PartView,
>
    decreases names.len(),
{
    if names.len() == 0 {
        Seq::empty()
    } else {
        choices_parts(m, names.drop_last()).push(PartView::Text(names.last())) + choice_parts(
            m[names.last()],
        )
    }
}

/// The parts of a range.
pub open spec fn range_parts(r: RangeView) -> Seq<PartView> {
    match r {
        RangeView::Single(from, to) => seq![
            PartView::Tag(0),
            PartView::Text(from),
            PartView::Text(to),
        ],
        RangeView::Multi(m) => seq![PartView::Tag(1)] + choices_parts(m, set_in_order(m.dom())),
    }
}

/// Whether two sets hold the same keys.
fn same_members(a: &OrderedKeySet, b: &OrderedKeySet) -> (r: bool)
    ensures
        r == (a@.to_set() == b@.to_set()),
{
    let va = a.iter();
    let vb = b.iter();
    let r = all_in(&va, &vb) && all_in(&vb, &va);
    proof {
        let sa = a@.to_set();
        let sb = b@.to_set();
        if r {
            assert forall|k: Seq<char>| sa.contains(k) <==> sb.contains(k) by {
                assert(a@.contains(k) ==> b@.contains(k));
                assert(b@.contains(k) ==> a@.contains(k));
            }
            assert(sa =~= sb);
        } else if sa == sb {
            assert forall|k: Seq<char>| #[trigger] a@.contains(k) implies b@.contains(k) by {
                assert(sa.contains(k));
            }
            assert forall|k: Seq<char>| #[trigger] b@.contains(k) implies a@.contains(k) by {
                assert(sb.contains(k));
            }
        }
    }
    r
}

fn same_choice(a: &DimensionSelection, b: &DimensionSelection) -> (r: bool)
    ensures
        r == (choice_of(*a) == choice_of(*b)),
{
    match (a, b) {
        (
            DimensionSelection::Range { from_key: fa, to_key: ta },
            DimensionSelection::Range { from_key: fb, to_key: tb },
        ) => same_text(fa.as_str(), fb.as_str()) && same_text(ta.as_str(), tb.as_str()),
        (DimensionSelection::Keys(ka), DimensionSelection::Keys(kb)) => same_members(ka, kb),
        _ => false,
    }
}

/// Whether each selection of one map is that of the other.
fn choices_within(a: &NameMap<DimensionSelection>, b: &NameMap<DimensionSelection>) -> (r: bool)
    requires
        a.wf(),
        b.wf(),
    ensures
        r == forall|n: Seq<char>| #[trigger]
            choices_of(a@).dom().contains(n) ==> choices_of(b@).dom().contains(n) && choices_of(
                a@,
            )[n] == choices_of(b@)[n],
{
    let ghost ca = choices_of(a@);
    let ghost cb = choices_of(b@);
    let mut i: usize = 0;
    while i < a.entries.len()
        invariant
            a.wf(),
            b.wf(),
            ca == choices_of(a@),
            cb == choices_of(b@),
            i <= a.entries@.len(),
            forall|j: int|
                0 <= j < i ==> cb.dom().contains((#[trigger] a.entries@[j]).0@)
                    && cb[a.entries@[j].0@] == choice_of(a.entries@[j].1),
        decreases a.entries@.len() - i,
    {
        proof {
            assert forall|j: int| i < j < a.entries@.len() implies (#[trigger] a.entries@[j]).0@
                != a.entries@[i as int].0@ by {
                assert(a.entries@[i as int].0@ != a.entries@[j].0@);
            }
            lemma_pairs_value(a.entries@, i as int);
            assert(ca.dom().contains(a.entries@[i as int].0@));
            assert(ca[a.entries@[i as int].0@] == choice_of(a.entries@[i as int].1));
        }
        match b.get(a.entries[i].0.as_str()) {
            Some(v) => {
                if !same_choice(&a.entries[i].1, v) {
                    return false;
                }
            },
            None => {
                return false;
            },
        }
        i += 1;
    }
    proof {
        assert forall|n: Seq<char>| #[trigger] ca.dom().contains(n) implies cb.dom().contains(n)
            && ca[n] == cb[n] by {
            lemma_pairs_dom(a.entries@, n);
            let j = choose|j: int| 0 <= j < a.entries@.len() && (#[trigger] a.entries@[j]).0@ == n;
            assert forall|k: int| j < k < a.entries@.len() implies (#[trigger] a.entries@[k]).0@
                != a.entries@[j].0@ by {
                assert(a.entries@[j].0@ != a.entries@[k].0@);
            }
            lemma_pairs_value(a.entries@, j);
        }
    }
    true
}

fn put_choice(out: &mut Vec<HashPart>, sel: &DimensionSelection)
    requires
        sel matches DimensionSelection::Keys(k) ==> k.wf(),
    ensures
        parts_view(final(out)@) == parts_view(old(out)@) + choice_parts(choice_of(*sel)),
{
    let ghost before = parts_view(out@);
    match sel {
        DimensionSelection::Range { from_key, to_key } => {
            put(out, HashPart::Tag(0));
            put(out, HashPart::Text(from_key.clone()));
            put(out, HashPart::Text(to_key.clone()));
            proof {
                assert(parts_view(out@) =~= before + choice_parts(choice_of(*sel)));
            }
        },
        DimensionSelection::Keys(keys) => {
            put(out, HashPart::Tag(1));
            let sorted = sort_texts(keys.iter());
            proof {
                lemma_sorted_lists_set(keys@, keys@.to_set());
            }
            put_list(out, &sorted, true);
            proof {
                assert(parts_view(out@) =~= before + choice_parts(choice_of(*sel)));
            }
        },
    }
}

impl PyPartitionKeyRange {
    /// Whether two ranges stand for the same, whatever order their parts came in.
    pub fn same(&self, other: &Self) -> (r: bool)
        requires
            self.wf(),
            other.wf(),
        ensures
            r == (self@ == other@),
    {
        match (&self.inner, &other.inner) {
            (
                PartitionKeyRangeInner::Single { from_key: fa, to_key: ta },
                PartitionKeyRangeInner::Single { from_key: fb, to_key: tb },
            ) => same_text(fa.as_str(), fb.as_str()) && same_text(ta.as_str(), tb.as_str()),
            (
                PartitionKeyRangeInner::Multi { dimensions: a },
                PartitionKeyRangeInner::Multi { dimensions: b },
            ) => {
                let r = choices_within(a, b) && choices_within(b, a);
                proof {
                    if r {
                        assert(choices_of(a@) =~= choices_of(b@));
                    }
                }
                r
            },
            _ => false,
        }
    }

    /// What a hash of the range is taken over, in order.
    pub fn hash_parts(&self) -> (r: Vec<HashPart>)
        requires
            self.wf(),
        ensures
            parts_view(r@) == range_parts(self@),
    {
        let mut out: Vec<HashPart> = Vec::new();
        match &self.inner {
            PartitionKeyRangeInner::Single { from_key, to_key } => {
                put(&mut out, HashPart::Tag(0));
                put(&mut out, HashPart::Text(from_key.clone()));
                put(&mut out, HashPart::Text(to_key.clone()));
                proof {
                    assert(parts_view(out@) =~= range_parts(self@));
                }
            },
            PartitionKeyRangeInner::Multi { dimensions } => {
                put(&mut out, HashPart::Tag(1));
                let names = dimensions.sorted_names();
                let ghost m = choices_of(dimensions@);
                let ghost order = set_in_order(m.dom());
                let ghost head = seq![PartView::Tag(1)];
                proof {
                    assert(m.dom() =~= dimensions@.dom());
                    assert(order.take(0) =~= Seq::empty());
                    assert(parts_view(out@) =~= head + choices_parts(m, order.take(0)));
                }
                let mut i: usize = 0;
                while i < names.len()
                    invariant
                        texts(names@) == order,
                        m == choices_of(dimensions@),
                        sels_wf(dimensions@),
                        forall|j: int|
                            0 <= j < names@.len() ==> dimensions@.dom().contains(
                                (#[trigger] names@[j])@,
                            ),
                        i <= names@.len(),
                        parts_view(out@) == head + choices_parts(m, order.take(i as int)),
                    decreases names@.len() - i,
                {
                    proof {
                        assert(order[i as int] == names@[i as int]@);
                        assert(order.take(i + 1).drop_last() =~= order.take(i as int));
                        assert(order.take(i + 1).last() == order[i as int]);
                    }
                    if let Some(sel) = dimensions.get(names[i].as_str()) {
                        put(&mut out, HashPart::Text(names[i].clone()));
                        put_choice(&mut out, sel);
                        proof {
                            assert(m[order[i as int]] == choice_of(*sel));
                            assert(parts_view(out@) =~= head + choices_parts(
                                m,
                                order.take(i + 1),
                            ));
                        }
                    }
                    i += 1;
                }
                proof {
                    assert(order.take(i as int) =~= order);
                }
            },
        }
        out
    }
}

/// Whether two grids are the same: their lengths as numbers, the rest as it is written.
pub open spec fn same_grids(a: GridView, b: GridView) -> bool {
    &&& a.cron == b.cron
    &&& same_lengths(a.interval, b.interval)
    &&& a.start == b.start
    &&& a.end == b.end
    &&& a.fmt == b.fmt
}

/// Whether two schemes are the same: dimension by dimension, in order.
pub open spec fn same_schemes(a: DefView, b: DefView) -> bool
    decreases a,
{
    match (a, b) {
        (DefView::TimeWindow(x), DefView::TimeWindow(y)) => same_grids(x, y),
        (DefView::Multi(x), DefView::Multi(y)) => same_dims(x, y),
        (DefView::Static(_), DefView::Static(_)) => a == b,
        (DefView::Dynamic(_), DefView::Dynamic(_)) => a == b,
        _ => false,
    }
}

/// Whether two lists of dimensions are the same.
pub open spec fn same_dims(x: Seq<(Seq<char>, DefView)>, y: Seq<(Seq<char>, DefView)>) -> bool
    decreases x,
{
    if x.len() == 0 || y.len() == 0 {
        x.len() == y.len()
    } else {
        &&& same_dims(x.drop_last(), y.drop_last())
        &&& x.last().0 == y.last().0
        &&& same_schemes(x.last().1, y.last().1)
    }
}

proof fn lemma_dims_differ(x: Seq<(Seq<char>, DefView)>, y: Seq<(Seq<char>, DefView)>, n: int)
    requires
        x.len() == y.len(),
        0 <= n <= x.len(),
        !same_dims(x.take(n), y.take(n)),
    ensures
        !same_dims(x, y),
    decreases x.len(),
{
    if n < x.len() {
        assert(x.drop_last().take(n) =~= x.take(n));
        assert(y.drop_last().take(n) =~= y.take(n));
        lemma_dims_differ(x.drop_last(), y.drop_last(), n);
    } else {
        assert(x.take(n) =~= x);
        assert(y.take(n) =~= y);
    }
}

proof fn lemma_dims_lengths(x: Seq<(Seq<char>, DefView)>, y: Seq<(Seq<char>, DefView)>)
    ensures
        same_dims(x, y) ==> x.len() == y.len(),
    decreases x.len(),
{
    if x.len() > 0 && y.len() > 0 {
        lemma_dims_lengths(x.drop_last(), y.drop_last());
    }
}

impl TimeGrid {
    fn same(&self, other: &Self) -> (r: bool)
        ensures
            r == same_grids(self@, other@),
    {
        let ends = match (self.end, other.end) {
            (Some(x), Some(y)) => x.total() == y.total(),
            (None, None) => true,
            _ => false,
        };
        ends && self.start.total() == other.start.total() && same_opt_text(
            &self.cron_schedule,
            &other.cron_schedule,
        ) && equal_lengths(&self.interval_seconds, &other.interval_seconds) && same_text(
            self.fmt.as_str(),
            other.fmt.as_str(),
        )
    }
}

impl PartitionsDefinition {
    /// Whether two schemes stand for the same.
    pub fn same(&self, other: &Self) -> (r: bool)
        requires
            self.wf(),
            other.wf(),
        ensures
            r == same_schemes(self@, other@),
        decreases self,
    {
        match (self, other) {
            (
                PartitionsDefinition::Static { keys: a },
                PartitionsDefinition::Static { keys: b },
            ) => a.same(b),
            (
                PartitionsDefinition::TimeWindow { grid: a },
                PartitionsDefinition::TimeWindow { grid: b },
            ) => a.same(b),
            (
                PartitionsDefinition::Dynamic { name: a },
                PartitionsDefinition::Dynamic { name: b },
            ) => same_text(a.as_str(), b.as_str()),
            (
                PartitionsDefinition::Multi { dimensions: a },
                PartitionsDefinition::Multi { dimensions: b },
            ) => {
                proof {
                    lemma_dims_of(a@);
                    lemma_dims_of(b@);
                    lemma_dims_lengths(dims_of(a@), dims_of(b@));
                    assert(dims_of(a@).take(0) =~= Seq::empty());
                    assert(dims_of(b@).take(0) =~= Seq::empty());
                }
                if a.len() != b.len() {
                    return false;
                }
                let mut i: usize = 0;
                while i < a.len()
                    invariant
                        a@.len() == b@.len(),
                        i <= a@.len(),
                        self == (PartitionsDefinition::Multi { dimensions: *a }),
                        other == (PartitionsDefinition::Multi { dimensions: *b }),
                        forall|j: int| 0 <= j < a@.len() ==> def_wf((#[trigger] a@[j]).1),
                        forall|j: int| 0 <= j < b@.len() ==> def_wf((#[trigger] b@[j]).1),
                        same_dims(dims_of(a@).take(i as int), dims_of(b@).take(i as int)),
                    decreases a@.len() - i,
                {
                    proof {
                        lemma_dim_decreases(*self, i as int);
                        lemma_dims_of(a@);
                        lemma_dims_of(b@);
                        assert(dims_of(a@)[i as int] == (
                            a@[i as int].0@,
                            def_view(a@[i as int].1),
                        ));
                        assert(dims_of(b@)[i as int] == (
                            b@[i as int].0@,
                            def_view(b@[i as int].1),
                        ));
                        let x = dims_of(a@).take(i + 1);
                        let y = dims_of(b@).take(i + 1);
                        assert(x.drop_last() =~= dims_of(a@).take(i as int));
                        assert(y.drop_last() =~= dims_of(b@).take(i as int));
                        assert(x.last() == dims_of(a@)[i as int]);
                        assert(y.last() == dims_of(b@)[i as int]);
                        if !same_dims(x, y) {
                            lemma_dims_differ(dims_of(a@), dims_of(b@), i + 1);
                        }
                    }
                    if !same_text(a[i].0.as_str(), b[i].0.as_str()) || !a[i].1.same(&b[i].1) {
                        return false;
                    }
                    i += 1;
                }
                proof {
                    lemma_dims_of(a@);
                    lemma_dims_of(b@);
                    assert(dims_of(a@).take(i as int) =~= dims_of(a@));
                    assert(dims_of(b@).take(i as int) =~= dims_of(b@));
                }
                true
            },
            _ => false,
        }
    }
}

/// Keys that are the same hash alike.
pub proof fn lemma_same_keys_hash_alike(a: PyPartitionKey, b: PyPartitionKey)
    requires
        a@ == b@,
    ensures
        key_parts(a@, false) == key_parts(b@, false),
{
}

/// Ranges that are the same hash alike, whatever order their dimensions and keys came
/// in.
pub proof fn lemma_same_ranges_hash_alike(a: PyPartitionKeyRange, b: PyPartitionKeyRange)
    requires
        a@ == b@,
    ensures
        range_parts(a@) == range_parts(b@),
{
}

} // verus!
