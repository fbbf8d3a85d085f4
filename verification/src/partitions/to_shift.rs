//! Which shifts a mapping makes, and which keys it reads, to find the upstream key of a
//! downstream key: what the host has to look up before it asks.
use vstd::prelude::*;
use crate::moment::Moment;
use crate::partitions::definition::{
    dimension_of, find_dim, lemma_dims_of, DefView, PartitionsDefinition,
};
use crate::partitions::facts::{KeyFacts, Shifts};
use crate::partitions::grid::{GridView, TimeGrid};
use crate::partitions::key::{dims_view, KeyView, PyPartitionKey};
use crate::partitions::key_range::opt_def;
use crate::partitions::mapping::{
    filled_dims, lemma_mapping_decreases, lemma_mappings_wf, mapped, mapped_dims, mapping_wf,
    resolution, selector_matches, PartitionKeySelector, PartitionMapping,
};
use crate::partitions::to_read::{
    agree, asks_view, key_reads, lemma_agree_parts, lemma_key_reads, lemma_range_has_reads,
    range_reads, Ask,
};
use crate::text::{copy_texts, texts};

verus! {

/// A shift of a key along a grid, by a number of windows.
#[derive(Debug)]
pub struct ShiftAsk {
    pub grid: TimeGrid,
    pub key: String,
    pub offset: i64,
}

/// What a shift asks for.
pub struct ShiftAskView {
    pub grid: GridView,
    pub key: Seq<char>,
    pub offset: i64,
}

impl View for ShiftAsk {
    type V = ShiftAskView;

    open spec fn view(&self) -> ShiftAskView {
        ShiftAskView { grid: self.grid@, key: self.key@, offset: self.offset }
    }
}

/// What each shift of a list asks for.
pub open spec fn shift_asks_view(v: Seq<ShiftAsk>) -> Seq<ShiftAskView> {
    v.map_values(|s: ShiftAsk| s@)
}

/// The shifts that a mapping makes for a key.
pub open spec fn shift_asks(m: PartitionMapping, k: KeyView, up: Option<DefView>) -> Seq<
    ShiftAskView,
>
    decreases m,
{
    match m {
        PartitionMapping::TimeWindow { offset } => match (k, up) {
            (KeyView::Single(keys), Some(DefView::TimeWindow(g))) => if offset != 0 && keys.len()
                > 0 {
                seq![ShiftAskView { grid: g, key: keys[0], offset }]
            } else {
                Seq::empty()
            },
            _ => Seq::empty(),
        },
        PartitionMapping::Multi { dimension_mappings } => match k {
            KeyView::Multi(dims) => dims_shift_asks(dimension_mappings.entries@, dims, up),
            _ => Seq::empty(),
        },
        PartitionMapping::MultiToSingle { dimension_name, partition_mapping } => match k {
            KeyView::Single(_) => match up {
                Some(DefView::Multi(dims)) => shift_asks(
                    *partition_mapping.0,
                    k,
                    find_dim(dims, dimension_name@),
                ),
                _ => Seq::empty(),
            },
            KeyView::Multi(dims) => if dims.dom().contains(dimension_name@) {
                shift_asks(
                    *partition_mapping.0,
                    KeyView::Single(dims[dimension_name@]),
                    up,
                )
            } else {
                Seq::empty()
            },
            KeyView::Batch(_) => Seq::empty(),
        },
        _ => Seq::empty(),
    }
}

/// The shifts that the mappings of dimensions make.
pub open spec fn dims_shift_asks(
    s: Seq<(String, (String, PartitionMapping))>,
    dims: Map<Seq<char>, Seq<Seq<char>>>,
    up: Option<DefView>,
) -> Seq<ShiftAskView>
    decreases s,
{
    if s.len() == 0 {
        Seq::empty()
    } else {
        dims_shift_asks(s.drop_last(), dims, up) + if dims.dom().contains(s.last().1.0@) {
            shift_asks(
                s.last().1.1,
                KeyView::Single(dims[s.last().1.0@]),
                match up {
                    Some(d) => dimension_of(d, s.last().0@),
                    None => None,
                },
            )
        } else {
            Seq::empty()
        }
    }
}

/// Whether two lists of shifts say the same of everything that is asked for.
pub open spec fn agree_on_shifts(a: Shifts, b: Shifts, asks: Seq<ShiftAskView>) -> bool {
    forall|i: int|
        0 <= i < asks.len() ==> a.of((#[trigger] asks[i]).grid, asks[i].key, asks[i].offset)
            == b.of(asks[i].grid, asks[i].key, asks[i].offset)
}

/// What is read to check the keys that shifts lead to.
pub open spec fn shifted_reads(asks: Seq<ShiftAskView>, shifts: Shifts) -> Seq<Ask>
    decreases asks.len(),
{
    if asks.len() == 0 {
        Seq::empty()
    } else {
        let w = shifted_reads(asks.drop_last(), shifts);
        match shifts.of(asks.last().grid, asks.last().key, asks.last().offset) {
            Ok(to) => w.push((to, asks.last().grid.fmt)),
            Err(_) => w,
        }
    }
}

proof fn lemma_shifted_reads_parts(x: Seq<ShiftAskView>, y: Seq<ShiftAskView>, shifts: Shifts)
    ensures
        shifted_reads(x + y, shifts) == shifted_reads(x, shifts) + shifted_reads(y, shifts),
    decreases y.len(),
{
    if y.len() > 0 {
        lemma_shifted_reads_parts(x, y.drop_last(), shifts);
        assert((x + y).drop_last() =~= x + y.drop_last());
        assert((x + y).last() == y.last());
        assert(shifted_reads(x + y, shifts) =~= shifted_reads(x, shifts) + shifted_reads(
            y,
            shifts,
        ));
    } else {
        assert(x + y =~= x);
        assert(shifted_reads(x, shifts) + Seq::<Ask>::empty() =~= shifted_reads(x, shifts));
    }
}

/// Whether the host knows the same of all that the shifts of a list ask for: the time,
/// where they lead, and what the keys there read as.
pub open spec fn same_facts(a: KeyFacts, b: KeyFacts, asks: Seq<ShiftAskView>) -> bool {
    &&& a.now.at() == b.now.at()
    &&& agree_on_shifts(a.shifts, b.shifts, asks)
    &&& agree(a.readings, b.readings, shifted_reads(asks, a.shifts))
}

proof fn lemma_same_facts_parts(
    a: KeyFacts,
    b: KeyFacts,
    x: Seq<ShiftAskView>,
    y: Seq<ShiftAskView>,
)
    requires
        same_facts(a, b, x + y),
    ensures
        same_facts(a, b, x),
        same_facts(a, b, y),
{
    lemma_shifted_reads_parts(x, y, a.shifts);
    lemma_agree_parts(
        a.readings,
        b.readings,
        shifted_reads(x, a.shifts),
        shifted_reads(y, a.shifts),
    );
    let z = x + y;
    assert forall|i: int| 0 <= i < x.len() implies a.shifts.of(
        (#[trigger] x[i]).grid,
        x[i].key,
        x[i].offset,
    ) == b.shifts.of(x[i].grid, x[i].key, x[i].offset) by {
        assert(z[i] == x[i]);
    }
    assert forall|i: int| 0 <= i < y.len() implies a.shifts.of(
        (#[trigger] y[i]).grid,
        y[i].key,
        y[i].offset,
    ) == b.shifts.of(y[i].grid, y[i].key, y[i].offset) by {
        assert(z[x.len() + i] == y[i]);
    }
}

proof fn lemma_filled_dims(
    dims: Seq<(Seq<char>, DefView)>,
    name: Seq<char>,
    vals: Seq<Seq<char>>,
    a: KeyFacts,
    b: KeyFacts,
)
    requires
        a.now.at() == b.now.at(),
    ensures
        filled_dims(dims, name, vals, a) == filled_dims(dims, name, vals, b),
    decreases dims.len(),
{
    if dims.len() > 0 {
        lemma_filled_dims(dims.drop_last(), name, vals, a, b);
    }
}

/// The upstream key of a key rests on the shifts that the mapping makes for it and on
/// what their ends read as, and on nothing else that the host knows but the time.
pub proof fn lemma_shift_asks(
    m: PartitionMapping,
    k: KeyView,
    up: Option<DefView>,
    a: KeyFacts,
    b: KeyFacts,
)
    requires
        same_facts(a, b, shift_asks(m, k, up)),
    ensures
        mapped(m, k, up, a) == mapped(m, k, up, b),
    decreases m,
{
    match m {
        PartitionMapping::TimeWindow { offset } => {
            if let (KeyView::Single(keys), Some(d)) = (k, up) {
                if offset != 0 && keys.len() > 0 {
                    if let DefView::TimeWindow(g) = d {
                        let asks = shift_asks(m, k, up);
                        assert(asks[0] == (ShiftAskView { grid: g, key: keys[0], offset }));
                        assert(a.shifts.of(g, keys[0], offset) == b.shifts.of(g, keys[0], offset));
                        if let Ok(to) = a.shifts.of(g, keys[0], offset) {
                            assert(asks.drop_last() =~= Seq::empty());
                            assert(asks.last() == asks[0]);
                            let reads = shifted_reads(asks, a.shifts);
                            reveal_with_fuel(shifted_reads, 2);
                            assert(reads =~= seq![(to, g.fmt)]);
                            assert(key_reads(d, KeyView::Single(seq![to])) =~= reads);
                            lemma_key_reads(
                                d,
                                a.now.at(),
                                KeyView::Single(seq![to]),
                                a.readings,
                                b.readings,
                            );
                        }
                    }
                }
            }
        },
        PartitionMapping::Multi { dimension_mappings } => {
            if let KeyView::Multi(dims) = k {
                lemma_dims_shift_asks(dimension_mappings.entries@, dims, up, a, b);
            }
        },
        PartitionMapping::MultiToSingle { dimension_name, partition_mapping } => match k {
            KeyView::Single(_) => {
                if let Some(DefView::Multi(dims)) = up {
                    let inner = find_dim(dims, dimension_name@);
                    lemma_shift_asks(*partition_mapping.0, k, inner, a, b);
                    if let Ok(KeyView::Single(vals)) = mapped(*partition_mapping.0, k, inner, a) {
                        lemma_filled_dims(dims, dimension_name@, vals, a, b);
                    }
                }
            },
            KeyView::Multi(dims) => {
                if dims.dom().contains(dimension_name@) {
                    lemma_shift_asks(
                        *partition_mapping.0,
                        KeyView::Single(dims[dimension_name@]),
                        up,
                        a,
                        b,
                    );
                }
            },
            KeyView::Batch(_) => {},
        },
        _ => {},
    }
}

proof fn lemma_dims_shift_asks(
    s: Seq<(String, (String, PartitionMapping))>,
    dims: Map<Seq<char>, Seq<Seq<char>>>,
    up: Option<DefView>,
    a: KeyFacts,
    b: KeyFacts,
)
    requires
        same_facts(a, b, dims_shift_asks(s, dims, up)),
    ensures
        mapped_dims(s, dims, up, a) == mapped_dims(s, dims, up, b),
    decreases s,
{
    if s.len() > 0 {
        let inner = match up {
            Some(d) => dimension_of(d, s.last().0@),
            None => None,
        };
        lemma_same_facts_parts(
            a,
            b,
            dims_shift_asks(s.drop_last(), dims, up),
            if dims.dom().contains(s.last().1.0@) {
                shift_asks(s.last().1.1, KeyView::Single(dims[s.last().1.0@]), inner)
            } else {
                Seq::empty()
            },
        );
        lemma_dims_shift_asks(s.drop_last(), dims, up, a, b);
        if dims.dom().contains(s.last().1.0@) {
            lemma_shift_asks(s.last().1.1, KeyView::Single(dims[s.last().1.0@]), inner, a, b);
        }
    }
}

/// What is read to match the ranges of a list of selectors.
pub open spec fn selectors_reads(s: Seq<PartitionKeySelector>, d: DefView, now: int) -> Seq<Ask>
    decreases s.len(),
{
    if s.len() == 0 {
        Seq::empty()
    } else {
        selectors_reads(s.drop_last(), d, now) + match s.last() {
            PartitionKeySelector::Range(r) => range_reads(r, d, now),
            PartitionKeySelector::Key(_) => Seq::empty(),
        }
    }
}

/// What is read to decide how to load the upstream of a key, where its shifts lead as
/// `shifts` says.
pub open spec fn resolution_reads(
    m: PartitionMapping,
    k: KeyView,
    down: Option<DefView>,
    up: Option<DefView>,
    now: int,
    shifts: Shifts,
) -> Seq<Ask> {
    match m {
        PartitionMapping::ForKeys { selectors } => match down {
            Some(d) => selectors_reads(selectors@, d, now) + key_reads(d, k),
            None => Seq::empty(),
        },
        PartitionMapping::Subset => match up {
            Some(d) => key_reads(d, k),
            None => Seq::empty(),
        },
        _ => shifted_reads(shift_asks(m, k, up), shifts),
    }
}

proof fn lemma_selector_reads(
    s: Seq<PartitionKeySelector>,
    d: DefView,
    k: KeyView,
    i: int,
    a: KeyFacts,
    b: KeyFacts,
)
    requires
        0 <= i < s.len(),
        s[i].wf(),
        agree(a.readings, b.readings, selectors_reads(s, d, a.now.at())),
        agree(a.readings, b.readings, key_reads(d, k)),
    ensures
        selector_matches(s[i], k, Some(d), a) == selector_matches(s[i], k, Some(d), b),
    decreases s.len(),
{
    let now = a.now.at();
    let w = s.drop_last();
    lemma_agree_parts(
        a.readings,
        b.readings,
        selectors_reads(w, d, now),
        match s.last() {
            PartitionKeySelector::Range(r) => range_reads(r, d, now),
            PartitionKeySelector::Key(_) => Seq::empty(),
        },
    );
    if i < w.len() {
        assert(w[i] == s[i]);
        lemma_selector_reads(w, d, k, i, a, b);
    } else if let PartitionKeySelector::Range(r) = s[i] {
        lemma_range_has_reads(r, d, now, k, a.readings, b.readings);
    }
}

/// The decision how to load the upstream of a key rests on the shifts that are made and
/// the keys that are read for it, and on nothing else that the host knows but the time.
pub proof fn lemma_resolution_reads(
    m: PartitionMapping,
    k: KeyView,
    down: Option<DefView>,
    up: Option<DefView>,
    a: KeyFacts,
    b: KeyFacts,
)
    requires
        mapping_wf(m),
        a.now.at() == b.now.at(),
        agree_on_shifts(a.shifts, b.shifts, shift_asks(m, k, up)),
        agree(
            a.readings,
            b.readings,
            resolution_reads(m, k, down, up, a.now.at(), a.shifts),
        ),
    ensures
        resolution(m, Some(k), down, up, a) == resolution(m, Some(k), down, up, b),
{
    match m {
        PartitionMapping::ForKeys { selectors } => {
            let s = selectors@;
            if let Some(d) = down {
                lemma_agree_parts(
                    a.readings,
                    b.readings,
                    selectors_reads(s, d, a.now.at()),
                    key_reads(d, k),
                );
            }
            assert forall|i: int| 0 <= i < s.len() implies selector_matches(
                #[trigger] s[i],
                k,
                down,
                a,
            ) == selector_matches(s[i], k, down, b) by {
                match down {
                    Some(d) => {
                        lemma_selector_reads(s, d, k, i, a, b);
                    },
                    None => {},
                }
            }
        },
        PartitionMapping::Subset => {
            if let Some(d) = up {
                lemma_key_reads(d, a.now.at(), k, a.readings, b.readings);
            }
        },
        _ => {
            lemma_shift_asks(m, k, up, a, b);
        },
    }
}

impl PartitionMapping {
    fn put_shift_asks(
        &self,
        key: &PyPartitionKey,
        up: Option<&PartitionsDefinition>,
        out: &mut Vec<ShiftAsk>,
    )
        requires
            self.wf(),
            key.wf(),
            up matches Some(d) ==> d.wf(),
        ensures
            shift_asks_view(final(out)@) == shift_asks_view(old(out)@) + shift_asks(
                *self,
                key@,
                opt_def(up),
            ),
        decreases self,
    {
        let ghost before = shift_asks_view(out@);
        match self {
            PartitionMapping::TimeWindow { offset } => {
                if let PyPartitionKey::Single { key: keys } = key {
                    if let Some(PartitionsDefinition::TimeWindow { grid }) = up {
                        if *offset != 0 && keys.len() > 0 {
                            let ask = ShiftAsk {
                                grid: grid.copy(),
                                key: keys[0].clone(),
                                offset: *offset,
                            };
                            let ghost v = ask@;
                            out.push(ask);
                            proof {
                                assert(texts(keys@)[0] == keys@[0]@);
                                assert(shift_asks_view(out@) =~= before + seq![v]);
                            }
                        }
                    }
                }
            },
            PartitionMapping::Multi { dimension_mappings } => {
                if let PyPartitionKey::Multi { keys } = key {
                    let ghost s = dimension_mappings.entries@;
                    let ghost dims = dims_view(keys@);
                    let mut i: usize = 0;
                    proof {
                        assert(s.take(0) =~= Seq::empty());
                        assert(dims.dom() =~= keys@.dom());
                        assert(before + dims_shift_asks(s.take(0), dims, opt_def(up)) =~= before);
                    }
                    while i < dimension_mappings.entries.len()
                        invariant
                            self.wf(),
                            keys.wf(),
                            up matches Some(d) ==> d.wf(),
                            self == (PartitionMapping::Multi {
                                dimension_mappings: *dimension_mappings,
                            }),
                            s == dimension_mappings.entries@,
                            dims == dims_view(keys@),
                            dims.dom() == keys@.dom(),
                            i <= s.len(),
                            shift_asks_view(out@) == before + dims_shift_asks(
                                s.take(i as int),
                                dims,
                                opt_def(up),
                            ),
                        decreases s.len() - i,
                    {
                        proof {
                            lemma_mappings_wf(s, i as int);
                            lemma_mapping_decreases(*self, i as int);
                            assert(s.take(i + 1).drop_last() =~= s.take(i as int));
                            assert(s.take(i + 1).last() == s[i as int]);
                        }
                        if let Some(vals) = keys.get(dimension_mappings.entries[i].1.0.as_str()) {
                            proof {
                                assert(dims[s[i as int].1.0@] == texts(vals@));
                            }
                            let single = PyPartitionKey::Single { key: copy_texts(vals) };
                            let dim_def = match up {
                                Some(d) => d.dimension_def(
                                    dimension_mappings.entries[i].0.as_str(),
                                ),
                                None => None,
                            };
                            dimension_mappings.entries[i].1.1.put_shift_asks(
                                &single,
                                dim_def,
                                out,
                            );
                        }
                        proof {
                            assert(shift_asks_view(out@) =~= before + dims_shift_asks(
                                s.take(i + 1),
                                dims,
                                opt_def(up),
                            ));
                        }
                        i += 1;
                    }
                    proof {
                        assert(s.take(i as int) =~= s);
                    }
                }
            },
            PartitionMapping::MultiToSingle { dimension_name, partition_mapping } => {
                match key {
                    PyPartitionKey::Single { .. } => {
                        if let Some(def) = up {
                            if let PartitionsDefinition::Multi { dimensions } = def {
                                proof {
                                    lemma_dims_of(dimensions@);
                                }
                                let named = def.dimension_def(dimension_name.as_str());
                                partition_mapping.0.put_shift_asks(key, named, out);
                            }
                        }
                    },
                    PyPartitionKey::Multi { keys } => {
                        proof {
                            assert(dims_view(keys@).dom() =~= keys@.dom());
                        }
                        if let Some(vals) = keys.get(dimension_name.as_str()) {
                            proof {
                                assert(dims_view(keys@)[dimension_name@] == texts(vals@));
                            }
                            let single = PyPartitionKey::Single { key: copy_texts(vals) };
                            partition_mapping.0.put_shift_asks(&single, up, out);
                        }
                    },
                    PyPartitionKey::Batch { .. } => {},
                }
            },
            _ => {},
        }
        proof {
            assert(shift_asks_view(out@) =~= before + shift_asks(*self, key@, opt_def(up)));
        }
    }

    /// The shifts that the mapping makes for a downstream key.
    pub fn shifts_to_make(
        &self,
        downstream_key: &PyPartitionKey,
        upstream_def: Option<&PartitionsDefinition>,
    ) -> (r: Vec<ShiftAsk>)
        requires
            self.wf(),
            downstream_key.wf(),
            upstream_def matches Some(d) ==> d.wf(),
        ensures
            shift_asks_view(r@) == shift_asks(*self, downstream_key@, opt_def(upstream_def)),
    {
        let mut out: Vec<ShiftAsk> = Vec::new();
        self.put_shift_asks(downstream_key, upstream_def, &mut out);
        proof {
            assert(shift_asks_view(out@) =~= shift_asks(
                *self,
                downstream_key@,
                opt_def(upstream_def),
            ));
        }
        out
    }

    /// The keys, and the formats under which they are read, that deciding how to load the
    /// upstream of a downstream key reads, where its shifts lead as `shifts` says.
    pub fn keys_to_read(
        &self,
        downstream_key: &PyPartitionKey,
        downstream_def: Option<&PartitionsDefinition>,
        upstream_def: Option<&PartitionsDefinition>,
        now: Moment,
        shifts: &Shifts,
    ) -> (r: Vec<(String, String)>)
        requires
            self.wf(),
            downstream_key.wf(),
            downstream_def matches Some(d) ==> d.wf(),
            upstream_def matches Some(d) ==> d.wf(),
            now.wf(),
        ensures
            asks_view(r@) == resolution_reads(
                *self,
                downstream_key@,
                opt_def(downstream_def),
                opt_def(upstream_def),
                now.at(),
                *shifts,
            ),
    {
        let mut out: Vec<(String, String)> = Vec::new();
        proof {
            assert(asks_view(out@) =~= Seq::empty());
        }
        match self {
            PartitionMapping::ForKeys { selectors } => {
                if let Some(def) = downstream_def {
                    let ghost s = selectors@;
                    let mut i: usize = 0;
                    proof {
                        assert(s.take(0) =~= Seq::empty());
                    }
                    while i < selectors.len()
                        invariant
                            i <= s.len(),
                            s == selectors@,
                            forall|j: int| 0 <= j < s.len() ==> (#[trigger] s[j]).wf(),
                            def.wf(),
                            now.wf(),
                            asks_view(out@) == selectors_reads(s.take(i as int), def@, now.at()),
                        decreases s.len() - i,
                    {
                        proof {
                            assert(s[i as int].wf());
                            assert(s.take(i + 1).drop_last() =~= s.take(i as int));
                            assert(s.take(i + 1).last() == s[i as int]);
                        }
                        let ghost before = asks_view(out@);
                        if let PartitionKeySelector::Range(range) = &selectors[i] {
                            let mut more = range.keys_to_read(def, now);
                            let ghost m = asks_view(more@);
                            out.append(&mut more);
                            proof {
                                assert(asks_view(out@) =~= before + m);
                            }
                        }
                        proof {
                            assert(asks_view(out@) =~= selectors_reads(
                                s.take(i + 1),
                                def@,
                                now.at(),
                            ));
                        }
                        i += 1;
                    }
                    proof {
                        assert(s.take(i as int) =~= s);
                    }
                    let ghost before = asks_view(out@);
                    let mut more = def.keys_to_read(downstream_key);
                    let ghost m = asks_view(more@);
                    out.append(&mut more);
                    proof {
                        assert(asks_view(out@) =~= before + m);
                    }
                }
                out
            },
            PartitionMapping::Subset => match upstream_def {
                Some(def) => def.keys_to_read(downstream_key),
                None => out,
            },
            _ => {
                let asks = self.shifts_to_make(downstream_key, upstream_def);
                let ghost a = shift_asks_view(asks@);
                let mut i: usize = 0;
                proof {
                    assert(a.take(0) =~= Seq::empty());
                }
                while i < asks.len()
                    invariant
                        i <= asks@.len(),
                        a == shift_asks_view(asks@),
                        asks_view(out@) == shifted_reads(a.take(i as int), *shifts),
                    decreases asks@.len() - i,
                {
                    proof {
                        assert(a.take(i + 1).drop_last() =~= a.take(i as int));
                        assert(a.take(i + 1).last() == a[i as int]);
                        assert(a[i as int] == asks@[i as int]@);
                    }
                    let ghost before = asks_view(out@);
                    if let Ok(to) = shifts.shift(
                        &asks[i].grid,
                        asks[i].key.as_str(),
                        asks[i].offset,
                    ) {
                        let ghost v = (to@, asks@[i as int].grid.fmt@);
                        out.push((to, asks[i].grid.fmt.clone()));
                        proof {
                            assert(asks_view(out@) =~= before.push(v));
                        }
                    }
                    i += 1;
                }
                proof {
                    assert(a.take(i as int) =~= a);
                }
                out
            },
        }
    }
}

} // verus!
