//! The structural intersection of partition schemes.
use vstd::prelude::*;
use vstd::string::*;
use crate::moment::{moment_form, moment_text, Moment};
use crate::partitions::definition::{
    def_view, def_wf, dims_of, lemma_dim_decreases, lemma_dims_of, variant_of, DefView,
    PartitionsDefinition,
};
use crate::partitions::grid::{
    equal_lengths, opt_at, same_lengths, same_opt_text, GridView, TimeGrid,
};
use crate::partitions::key_set::{
    lemma_first_occurrences_of_distinct, no_repeats, OrderedKeySet,
};
use crate::text::{has_text, quoted_list, quoted_list_text, same_text, say3, say4, say5, texts};

verus! {

/// The keys of `b` that `a` has too, in the order of `b`.
pub open spec fn common_keys(a: Seq<Seq<char>>, b: Seq<Seq<char>>) -> Seq<Seq<char>>
    decreases b.len(),
{
    if b.len() == 0 {
        b
    } else {
        let w = common_keys(a, b.drop_last());
        if a.contains(b.last()) {
            w.push(b.last())
        } else {
            w
        }
    }
}

/// A key is common exactly when both lists have it.
pub proof fn lemma_common_keys(a: Seq<Seq<char>>, b: Seq<Seq<char>>)
    ensures
        forall|k: Seq<char>|
            #[trigger] common_keys(a, b).contains(k) <==> a.contains(k) && b.contains(k),
        no_repeats(b) ==> no_repeats(common_keys(a, b)),
    decreases b.len(),
{
    if b.len() > 0 {
        let u = b.drop_last();
        let w = common_keys(a, u);
        let r = common_keys(a, b);
        lemma_common_keys(a, u);
        assert forall|k: Seq<char>| #[trigger] r.contains(k) <==> a.contains(k) && b.contains(
            k,
        ) by {
            if r.contains(k) {
                let i = choose|i: int| 0 <= i < r.len() && r[i] == k;
                if i < w.len() {
                    assert(w[i] == k);
                    assert(w.contains(k));
                    let j = choose|j: int| 0 <= j < u.len() && u[j] == k;
                    assert(b[j] == k);
                } else {
                    assert(b[b.len() - 1] == k);
                }
            }
            if a.contains(k) && b.contains(k) {
                let j = choose|j: int| 0 <= j < b.len() && b[j] == k;
                if j < u.len() {
                    assert(u[j] == k);
                    assert(u.contains(k));
                    assert(w.contains(k));
                    let i = choose|i: int| 0 <= i < w.len() && w[i] == k;
                    assert(r[i] == k);
                } else {
                    assert(r[w.len() as int] == k);
                }
            }
        }
        if no_repeats(b) {
            assert(no_repeats(u)) by {
                assert forall|i: int, j: int| 0 <= i < j < u.len() implies #[trigger] u[i]
                    != #[trigger] u[j] by {
                    assert(b[i] != b[j]);
                }
            }
            assert forall|i: int, j: int| 0 <= i < j < r.len() implies #[trigger] r[i]
                != #[trigger] r[j] by {
                if j == w.len() {
                    assert(w.contains(w[i]));
                    assert(u.contains(w[i]));
                    let x = choose|x: int| 0 <= x < u.len() && u[x] == w[i];
                    assert(b[x] != b[b.len() - 1]);
                } else {
                    assert(w[i] != w[j]);
                }
            }
        }
    }
}

/// How the cadence of a grid reads in messages.
pub open spec fn cadence_form(g: GridView) -> Seq<char> {
    match g.cron {
        Some(c) => "cron='"@ + c + "'"@,
        None => match g.interval {
            Some(i) => "interval_seconds="@ + i.text,
            None => "<unspecified>"@,
        },
    }
}

/// How the end of a grid reads in messages.
pub open spec fn end_form(end: Option<int>) -> Seq<char> {
    match end {
        Some(e) => moment_form(e),
        None => "∞"@,
    }
}

/// The later of two starts.
pub open spec fn later_start(a: GridView, b: GridView) -> int {
    if a.start < b.start {
        b.start
    } else {
        a.start
    }
}

/// The earlier of two ends, where there is one.
pub open spec fn earlier_end(a: GridView, b: GridView) -> Option<int> {
    match (a.end, b.end) {
        (Some(x), Some(y)) => Some(
            if y < x {
                y
            } else {
                x
            },
        ),
        (Some(x), None) => Some(x),
        (None, Some(y)) => Some(y),
        (None, None) => None,
    }
}

/// The common part of two grids.
pub open spec fn meet_grids(a: GridView, b: GridView) -> Result<GridView, Seq<char>> {
    if a.cron != b.cron || !same_lengths(a.interval, b.interval) {
        Err(
            "TimeWindow cadence mismatch ("@ + cadence_form(a) + " vs "@ + cadence_form(b) + ")"@,
        )
    } else if a.fmt != b.fmt {
        Err("TimeWindow fmt mismatch ('"@ + a.fmt + "' vs '"@ + b.fmt + "')"@)
    } else {
        let start = later_start(a, b);
        let end = earlier_end(a, b);
        if end is Some && end->0 <= start {
            Err(
                "TimeWindow date ranges don't overlap (["@ + moment_form(a.start) + ", "@
                    + end_form(a.end) + ") vs ["@ + moment_form(b.start) + ", "@ + end_form(b.end)
                    + "))"@,
            )
        } else {
            Ok(GridView { cron: a.cron, interval: a.interval, start, end, fmt: a.fmt })
        }
    }
}

/// The names of a list of dimensions.
pub open spec fn dim_names(dims: Seq<(Seq<char>, DefView)>) -> Seq<Seq<char>> {
    dims.map_values(|d: (Seq<char>, DefView)| d.0)
}

/// Whether two lists hold the same texts, however often and in whatever order.
pub open spec fn same_members(a: Seq<Seq<char>>, b: Seq<Seq<char>>) -> bool {
    forall|k: Seq<char>| #[trigger] a.contains(k) <==> b.contains(k)
}

/// The last dimension of a list that has a name.
pub open spec fn last_dim(dims: Seq<(Seq<char>, DefView)>, name: Seq<char>) -> Option<DefView>
    decreases dims.len(),
{
    if dims.len() == 0 {
        None
    } else if dims.last().0 == name {
        Some(dims.last().1)
    } else {
        last_dim(dims.drop_last(), name)
    }
}

/// The common part of two schemes, or why there is none.
pub open spec fn meet(a: DefView, b: DefView) -> Result<DefView, Seq<char>>
    decreases a,
{
    match (a, b) {
        (DefView::Static(x), DefView::Static(y)) => if common_keys(x, y).len() == 0 {
            Err(
                "disjoint Static keys ("@ + quoted_list(x) + " vs "@ + quoted_list(y) + ")"@,
            )
        } else {
            Ok(DefView::Static(common_keys(x, y)))
        },
        (DefView::TimeWindow(x), DefView::TimeWindow(y)) => match meet_grids(x, y) {
            Ok(g) => Ok(DefView::TimeWindow(g)),
            Err(e) => Err(e),
        },
        (DefView::Multi(x), DefView::Multi(y)) => if !same_members(dim_names(x), dim_names(y)) {
            Err(
                "Multi dimension name mismatch ("@ + quoted_list(dim_names(x)) + " vs "@
                    + quoted_list(dim_names(y)) + ")"@,
            )
        } else {
            match meet_dims(x, y) {
                Ok(v) => Ok(DefView::Multi(v)),
                Err(e) => Err(e),
            }
        },
        (DefView::Dynamic(x), DefView::Dynamic(y)) => if x == y {
            Ok(DefView::Dynamic(x))
        } else {
            Err("Dynamic namespace mismatch ('"@ + x + "' vs '"@ + y + "')"@)
        },
        _ => Err(
            "different partition kinds ("@ + variant_of(a) + " vs "@ + variant_of(b) + ")"@,
        ),
    }
}

/// The common part of each dimension of `x` with the dimension of `y` of the same
/// name, in the order of `x`.
pub open spec fn meet_dims(x: Seq<(Seq<char>, DefView)>, y: Seq<(Seq<char>, DefView)>) -> Result<
    Seq<(Seq<char>, DefView)>,
    Seq<char>,
>
    decreases x,
{
    if x.len() == 0 {
        Ok(Seq::empty())
    } else {
        match meet_dims(x.drop_last(), y) {
            Err(e) => Err(e),
            Ok(v) => match last_dim(y, x.last().0) {
                Some(d) => match meet(x.last().1, d) {
                    Ok(m) => Ok(v.push((x.last().0, m))),
                    Err(e) => Err("Multi dimension '"@ + x.last().0 + "': "@ + e),
                },
                None => Err(Seq::empty()),
            },
        }
    }
}

proof fn lemma_meet_dims_prefix(
    x: Seq<(Seq<char>, DefView)>,
    y: Seq<(Seq<char>, DefView)>,
    n: int,
)
    requires
        0 <= n <= x.len(),
        meet_dims(x.take(n), y) is Err,
    ensures
        meet_dims(x, y) == meet_dims(x.take(n), y),
    decreases x.len(),
{
    if n < x.len() {
        assert(x.drop_last().take(n) =~= x.take(n));
        lemma_meet_dims_prefix(x.drop_last(), y, n);
    } else {
        assert(x.take(n) =~= x);
    }
}

proof fn lemma_last_dim(dims: Seq<(Seq<char>, DefView)>, name: Seq<char>, n: int)
    requires
        0 <= n < dims.len(),
        dims[n].0 == name,
        forall|i: int| n < i < dims.len() ==> (#[trigger] dims[i]).0 != name,
    ensures
        last_dim(dims, name) == Some(dims[n].1),
    decreases dims.len(),
{
    if n < dims.len() - 1 {
        assert(dims[dims.len() - 1].0 != name);
        let w = dims.drop_last();
        assert forall|i: int| n < i < w.len() implies (#[trigger] w[i]).0 != name by {
            assert(dims[i].0 != name);
        }
        lemma_last_dim(w, name, n);
    }
}

fn cadence_text(g: &TimeGrid) -> (r: String)
    ensures
        r@ == cadence_form(g@),
{
    match &g.cron_schedule {
        Some(c) => say3("cron='", c.as_str(), "'"),
        None => match &g.interval_seconds {
            Some(i) => {
                let mut s = "interval_seconds=".to_owned();
                s.append(i.text.as_str());
                s
            },
            None => "<unspecified>".to_owned(),
        },
    }
}

fn end_text(end: Option<Moment>) -> (r: String)
    requires
        end matches Some(e) ==> e.wf(),
    ensures
        r@ == end_form(opt_at(end)),
{
    match end {
        Some(e) => moment_text(e),
        None => "∞".to_owned(),
    }
}

impl TimeGrid {
    /// The common part of two grids.
    fn intersect(&self, other: &Self) -> (r: Result<TimeGrid, String>)
        requires
            self.wf(),
            other.wf(),
        ensures
            match r {
                Ok(g) => g.wf() && meet_grids(self@, other@) == Ok::<GridView, Seq<char>>(g@),
                Err(e) => meet_grids(self@, other@) == Err::<GridView, Seq<char>>(e@),
            },
    {
        if !same_opt_text(&self.cron_schedule, &other.cron_schedule) || !equal_lengths(
            &self.interval_seconds,
            &other.interval_seconds,
        ) {
            return Err(
                say5(
                    "TimeWindow cadence mismatch (",
                    cadence_text(self).as_str(),
                    " vs ",
                    cadence_text(other).as_str(),
                    ")",
                ),
            );
        }
        if !same_text(self.fmt.as_str(), other.fmt.as_str()) {
            return Err(
                say5(
                    "TimeWindow fmt mismatch ('",
                    self.fmt.as_str(),
                    "' vs '",
                    other.fmt.as_str(),
                    "')",
                ),
            );
        }
        let start = self.start.later(other.start);
        let end: Option<Moment> = match (self.end, other.end) {
            (Some(a), Some(b)) => Some(a.earlier(b)),
            (Some(a), None) => Some(a),
            (None, Some(b)) => Some(b),
            (None, None) => None,
        };
        if let Some(e) = end {
            if !start.before(e) {
                let mut s = say5(
                    "TimeWindow date ranges don't overlap ([",
                    moment_text(self.start).as_str(),
                    ", ",
                    end_text(self.end).as_str(),
                    ") vs [",
                );
                s.append(moment_text(other.start).as_str());
                s.append(", ");
                s.append(end_text(other.end).as_str());
                s.append("))");
                return Err(s);
            }
        }
        let g = self.copy();
        Ok(
            TimeGrid {
                cron_schedule: g.cron_schedule,
                interval_seconds: g.interval_seconds,
                start,
                end,
                fmt: g.fmt,
            },
        )
    }
}

/// The names of a list of dimensions.
pub fn names_of_dims(dims: &Vec<(String, PartitionsDefinition)>) -> (r: Vec<String>)
    ensures
        texts(r@) == dim_names(dims_of(dims@)),
{
    let mut out: Vec<String> = Vec::new();
    let mut i: usize = 0;
    while i < dims.len()
        invariant
            i <= dims@.len(),
            out@.len() == i,
            forall|j: int| 0 <= j < i ==> (#[trigger] out@[j])@ == dims@[j].0@,
        decreases dims@.len() - i,
    {
        out.push(dims[i].0.clone());
        i += 1;
    }
    proof {
        lemma_dims_of(dims@);
        assert(texts(out@) =~= dim_names(dims_of(dims@)));
    }
    out
}

/// Whether every text of one list is in another.
pub fn all_in(a: &Vec<String>, b: &Vec<String>) -> (r: bool)
    ensures
        r == forall|k: Seq<char>| #[trigger] texts(a@).contains(k) ==> texts(b@).contains(k),
{
    let mut i: usize = 0;
    while i < a.len()
        invariant
            i <= a@.len(),
            forall|j: int| 0 <= j < i ==> texts(b@).contains(#[trigger] texts(a@)[j]),
        decreases a@.len() - i,
    {
        if !has_text(b, a[i].as_str()) {
            proof {
                assert(texts(a@)[i as int] == a@[i as int]@);
                assert(texts(a@).contains(a@[i as int]@));
            }
            return false;
        }
        proof {
            assert(texts(a@)[i as int] == a@[i as int]@);
        }
        i += 1;
    }
    true
}

impl PartitionsDefinition {
    /// Compute the structural intersection of two partition definitions.
    pub fn intersect(&self, other: &Self) -> (r: Result<Self, String>)
        requires
            self.wf(),
            other.wf(),
        ensures
            match r {
                Ok(d) => d.wf() && meet(self@, other@) == Ok::<DefView, Seq<char>>(d@),
                Err(e) => meet(self@, other@) == Err::<DefView, Seq<char>>(e@),
            },
        decreases self,
    {
        match (self, other) {
            (
                PartitionsDefinition::Static { keys: a },
                PartitionsDefinition::Static { keys: b },
            ) => {
                let bs = b.iter();
                let mut common: Vec<String> = Vec::new();
                let mut i: usize = 0;
                proof {
                    assert(b@.take(0) =~= Seq::empty());
                    assert(texts(common@) =~= Seq::empty());
                }
                while i < bs.len()
                    invariant
                        texts(bs@) == b@,
                        i <= bs@.len(),
                        texts(common@) == common_keys(a@, b@.take(i as int)),
                    decreases bs@.len() - i,
                {
                    proof {
                        assert(b@.take(i + 1).drop_last() =~= b@.take(i as int));
                        assert(b@.take(i + 1).last() == bs@[i as int]@);
                    }
                    if a.contains(bs[i].as_str()) {
                        let ghost prev = texts(common@);
                        common.push(bs[i].clone());
                        proof {
                            assert(texts(common@) =~= prev.push(bs@[i as int]@));
                        }
                    }
                    i += 1;
                }
                proof {
                    assert(b@.take(i as int) =~= b@);
                    lemma_common_keys(a@, b@);
                    lemma_first_occurrences_of_distinct(common_keys(a@, b@));
                    assert(texts(common@).len() == common@.len());
                }
                if common.len() == 0 {
                    Err(
                        say5(
                            "disjoint Static keys (",
                            a.debug_text().as_str(),
                            " vs ",
                            b.debug_text().as_str(),
                            ")",
                        ),
                    )
                } else {
                    Ok(PartitionsDefinition::Static { keys: OrderedKeySet::new(common) })
                }
            },
            (
                PartitionsDefinition::TimeWindow { grid: a },
                PartitionsDefinition::TimeWindow { grid: b },
            ) => match a.intersect(b) {
                Ok(grid) => Ok(PartitionsDefinition::TimeWindow { grid }),
                Err(e) => Err(e),
            },
            (
                PartitionsDefinition::Multi { dimensions: a },
                PartitionsDefinition::Multi { dimensions: b },
            ) => {
                let ghost x = dims_of(a@);
                let ghost y = dims_of(b@);
                proof {
                    lemma_dims_of(a@);
                    lemma_dims_of(b@);
                }
                let an = names_of_dims(a);
                let bn = names_of_dims(b);
                if !all_in(&an, &bn) || !all_in(&bn, &an) {
                    return Err(
                        say5(
                            "Multi dimension name mismatch (",
                            quoted_list_text(&an).as_str(),
                            " vs ",
                            quoted_list_text(&bn).as_str(),
                            ")",
                        ),
                    );
                }
                proof {
                    assert(same_members(dim_names(x), dim_names(y)));
                    assert(x.take(0) =~= Seq::empty());
                }
                let mut dims: Vec<(String, PartitionsDefinition)> = Vec::new();
                let mut i: usize = 0;
                while i < a.len()
                    invariant
                        self == (PartitionsDefinition::Multi { dimensions: *a }),
                        other@ == DefView::Multi(y),
                        x == dims_of(a@),
                        y == dims_of(b@),
                        x.len() == a@.len(),
                        y.len() == b@.len(),
                        same_members(dim_names(x), dim_names(y)),
                        forall|j: int|
                            0 <= j < a@.len() ==> #[trigger] x[j] == (a@[j].0@, def_view(a@[j].1)),
                        forall|j: int|
                            0 <= j < b@.len() ==> #[trigger] y[j] == (b@[j].0@, def_view(b@[j].1)),
                        forall|j: int| 0 <= j < a@.len() ==> def_wf((#[trigger] a@[j]).1),
                        forall|j: int| 0 <= j < b@.len() ==> def_wf((#[trigger] b@[j]).1),
                        i <= a@.len(),
                        forall|j: int| 0 <= j < dims@.len() ==> def_wf((#[trigger] dims@[j]).1),
                        meet_dims(x.take(i as int), y) == Ok::<
                            Seq<(Seq<char>, DefView)>,
                            Seq<char>,
                        >(dims_of(dims@)),
                    decreases a@.len() - i,
                {
                    proof {
                        lemma_dim_decreases(*self, i as int);
                        assert(x.take(i + 1).drop_last() =~= x.take(i as int));
                        assert(x.take(i + 1).last() == x[i as int]);
                        assert(dim_names(x)[i as int] == x[i as int].0);
                        assert(dim_names(x).contains(x[i as int].0));
                        assert(dim_names(y).contains(x[i as int].0));
                    }
                    let mut j: usize = b.len();
                    while j > 0 && !same_text(b[j - 1].0.as_str(), a[i].0.as_str())
                        invariant
                            i < a@.len(),
                            j <= b@.len(),
                            forall|k: int| j <= k < b@.len() ==> (#[trigger] b@[k]).0@ != a@[i as int].0@,
                        decreases j,
                    {
                        j -= 1;
                    }
                    proof {
                        let k = choose|k: int|
                            0 <= k < dim_names(y).len() && dim_names(y)[k] == x[i as int].0;
                        assert(y[k].0 == a@[i as int].0@);
                        assert(b@[k].0@ == a@[i as int].0@);
                        assert(j > 0);
                        assert forall|n: int| j - 1 < n < y.len() implies (#[trigger] y[n]).0
                            != x[i as int].0 by {
                            assert(b@[n].0@ != a@[i as int].0@);
                        }
                        lemma_last_dim(y, x[i as int].0, j - 1);
                    }
                    match a[i].1.intersect(&b[j - 1].1) {
                        Ok(m) => {
                            let ghost prev = dims@;
                            let ghost mv = m;
                            dims.push((a[i].0.clone(), m));
                            proof {
                                assert(dims@.drop_last() =~= prev);
                                assert(dims_of(dims@) == dims_of(prev).push(
                                    (a@[i as int].0@, mv@),
                                ));
                            }
                        },
                        Err(inner) => {
                            proof {
                                lemma_meet_dims_prefix(x, y, i + 1);
                            }
                            return Err(
                                say4("Multi dimension '", a[i].0.as_str(), "': ", inner.as_str()),
                            );
                        },
                    }
                    i += 1;
                }
                proof {
                    assert(x.take(i as int) =~= x);
                    lemma_dims_of(dims@);
                }
                Ok(PartitionsDefinition::Multi { dimensions: dims })
            },
            (
                PartitionsDefinition::Dynamic { name: a },
                PartitionsDefinition::Dynamic { name: b },
            ) => {
                if same_text(a.as_str(), b.as_str()) {
                    Ok(PartitionsDefinition::Dynamic { name: a.clone() })
                } else {
                    Err(
                        say5(
                            "Dynamic namespace mismatch ('",
                            a.as_str(),
                            "' vs '",
                            b.as_str(),
                            "')",
                        ),
                    )
                }
            },
            _ => Err(
                say5(
                    "different partition kinds (",
                    self.variant_name(),
                    " vs ",
                    other.variant_name(),
                    ")",
                ),
            ),
        }
    }
}

} // verus!
