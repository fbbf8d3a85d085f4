//! How the partitions of a backfill are spread over runs.
use vstd::prelude::*;
use vstd::string::*;
use crate::errors::{Fault, FaultKind};
use crate::text::{copy_texts, has_text, quoted_list, quoted_list_text, same_texts, say3, say5, texts};

verus! {

/// How the partitions of a backfill are spread over runs.
#[derive(Debug)]
pub enum PyBackfillStrategy {
    /// One run per partition key.
    MultiRun,
    /// One run covers all partition keys.
    SingleRun,
    /// One run for each combination of some dimensions, which covers all keys of
    /// the other dimensions.
    PerDimension { multi_run_dims: Vec<String>, single_run_dims: Vec<String> },
}

/// The strategy as it is stored.
#[derive(Debug)]
pub enum BackfillStrategy {
    MultiRun,
    SingleRun,
    PerDimension { multi_run: Vec<String>, single_run: Vec<String> },
}

/// What a strategy stands for.
pub enum StrategyView {
    MultiRun,
    SingleRun,
    PerDimension(Seq<Seq<char>>, Seq<Seq<char>>),
}

impl View for PyBackfillStrategy {
    type V = StrategyView;

    open spec fn view(&self) -> StrategyView {
        match *self {
            PyBackfillStrategy::MultiRun => StrategyView::MultiRun,
            PyBackfillStrategy::SingleRun => StrategyView::SingleRun,
            PyBackfillStrategy::PerDimension {
                multi_run_dims,
                single_run_dims,
            } => StrategyView::PerDimension(texts(multi_run_dims@), texts(single_run_dims@)),
        }
    }
}

impl View for BackfillStrategy {
    type V = StrategyView;

    open spec fn view(&self) -> StrategyView {
        match *self {
            BackfillStrategy::MultiRun => StrategyView::MultiRun,
            BackfillStrategy::SingleRun => StrategyView::SingleRun,
            BackfillStrategy::PerDimension {
                multi_run,
                single_run,
            } => StrategyView::PerDimension(texts(multi_run@), texts(single_run@)),
        }
    }
}

/// The first text of a list that another list holds too.
pub open spec fn first_shared(a: Seq<Seq<char>>, b: Seq<Seq<char>>) -> Option<Seq<char>>
    decreases a.len(),
{
    if a.len() == 0 {
        None
    } else {
        match first_shared(a.drop_last(), b) {
            Some(k) => Some(k),
            None => if b.contains(a.last()) {
                Some(a.last())
            } else {
                None
            },
        }
    }
}

proof fn lemma_first_shared_prefix(a: Seq<Seq<char>>, b: Seq<Seq<char>>, n: int)
    requires
        0 <= n <= a.len(),
        first_shared(a.take(n), b) is Some,
    ensures
        first_shared(a, b) == first_shared(a.take(n), b),
    decreases a.len(),
{
    if n < a.len() {
        assert(a.drop_last().take(n) =~= a.take(n));
        lemma_first_shared_prefix(a.drop_last(), b, n);
    } else {
        assert(a.take(n) =~= a);
    }
}

/// Nothing is shared exactly when no text is in both lists.
pub proof fn lemma_first_shared_none(a: Seq<Seq<char>>, b: Seq<Seq<char>>)
    ensures
        first_shared(a, b) is None <==> forall|i: int|
            0 <= i < a.len() ==> !b.contains(#[trigger] a[i]),
    decreases a.len(),
{
    if a.len() > 0 {
        let w = a.drop_last();
        lemma_first_shared_none(w, b);
        if first_shared(a, b) is None {
            assert forall|i: int| 0 <= i < a.len() implies !b.contains(#[trigger] a[i]) by {
                if i < w.len() {
                    assert(!b.contains(w[i]));
                }
            }
        }
        if forall|i: int| 0 <= i < a.len() ==> !b.contains(#[trigger] a[i]) {
            assert forall|i: int| 0 <= i < w.len() implies !b.contains(#[trigger] w[i]) by {
                assert(!b.contains(a[i]));
            }
            assert(!b.contains(a[a.len() - 1]));
        }
    }
}

/// The printed form of a strategy.
pub open spec fn strategy_repr(s: StrategyView) -> Seq<char> {
    match s {
        StrategyView::MultiRun => "BackfillStrategy.multi_run()"@,
        StrategyView::SingleRun => "BackfillStrategy.single_run()"@,
        StrategyView::PerDimension(m, o) => "BackfillStrategy.per_dimension(multi_run="@
            + quoted_list(m) + ", single_run="@ + quoted_list(o) + ")"@,
    }
}

impl PyBackfillStrategy {
    pub fn to_core(&self) -> (r: BackfillStrategy)
        ensures
            r@ == self@,
    {
        match self {
            PyBackfillStrategy::MultiRun => BackfillStrategy::MultiRun,
            PyBackfillStrategy::SingleRun => BackfillStrategy::SingleRun,
            PyBackfillStrategy::PerDimension {
                multi_run_dims,
                single_run_dims,
            } => BackfillStrategy::PerDimension {
                multi_run: copy_texts(multi_run_dims),
                single_run: copy_texts(single_run_dims),
            },
        }
    }

    pub fn from_core(s: &BackfillStrategy) -> (r: Self)
        ensures
            r@ == s@,
    {
        match s {
            BackfillStrategy::MultiRun => PyBackfillStrategy::MultiRun,
            BackfillStrategy::SingleRun => PyBackfillStrategy::SingleRun,
            BackfillStrategy::PerDimension {
                multi_run,
                single_run,
            } => PyBackfillStrategy::PerDimension {
                multi_run_dims: copy_texts(multi_run),
                single_run_dims: copy_texts(single_run),
            },
        }
    }

    /// Per-dimension control: the first dimensions are iterated across runs, the
    /// others are batched within each run.
    pub fn per_dimension(multi_run: Vec<String>, single_run: Vec<String>) -> (r: Result<
        Self,
        Fault,
    >)
        ensures
            match r {
                Ok(s) => multi_run@.len() > 0 && single_run@.len() > 0 && first_shared(
                    texts(multi_run@),
                    texts(single_run@),
                ) is None && s@ == StrategyView::PerDimension(
                    texts(multi_run@),
                    texts(single_run@),
                ),
                Err(e) => e@ == (
                    FaultKind::Definition,
                    if multi_run@.len() == 0 {
                        "multi_run must contain at least one dimension"@
                    } else if single_run@.len() == 0 {
                        "single_run must contain at least one dimension"@
                    } else {
                        "dimension '"@ + first_shared(
                            texts(multi_run@),
                            texts(single_run@),
                        )->0 + "' cannot be in both multi_run and single_run"@
                    },
                ) && (multi_run@.len() == 0 || single_run@.len() == 0 || first_shared(
                    texts(multi_run@),
                    texts(single_run@),
                ) is Some),
            },
    {
        if multi_run.len() == 0 {
            return Err(
                Fault::definition("multi_run must contain at least one dimension".to_owned()),
            );
        }
        if single_run.len() == 0 {
            return Err(
                Fault::definition("single_run must contain at least one dimension".to_owned()),
            );
        }
        let ghost a = texts(multi_run@);
        let mut i: usize = 0;
        proof {
            assert(a.take(0) =~= Seq::empty());
        }
        while i < multi_run.len()
            invariant
                a == texts(multi_run@),
                multi_run@.len() > 0,
                single_run@.len() > 0,
                i <= multi_run@.len(),
                first_shared(a.take(i as int), texts(single_run@)) is None,
            decreases multi_run@.len() - i,
        {
            proof {
                assert(a.take(i + 1).drop_last() =~= a.take(i as int));
                assert(a.take(i + 1).last() == multi_run@[i as int]@);
            }
            if has_text(&single_run, multi_run[i].as_str()) {
                proof {
                    lemma_first_shared_prefix(a, texts(single_run@), i + 1);
                }
                return Err(
                    Fault::definition(
                        say3(
                            "dimension '",
                            multi_run[i].as_str(),
                            "' cannot be in both multi_run and single_run",
                        ),
                    ),
                );
            }
            i += 1;
        }
        proof {
            assert(a.take(i as int) =~= a);
        }
        Ok(
            PyBackfillStrategy::PerDimension {
                multi_run_dims: multi_run,
                single_run_dims: single_run,
            },
        )
    }

    /// The printed form of the strategy.
    pub fn repr(&self) -> (r: String)
        ensures
            r@ == strategy_repr(self@),
    {
        match self {
            PyBackfillStrategy::MultiRun => "BackfillStrategy.multi_run()".to_owned(),
            PyBackfillStrategy::SingleRun => "BackfillStrategy.single_run()".to_owned(),
            PyBackfillStrategy::PerDimension { multi_run_dims, single_run_dims } => say5(
                "BackfillStrategy.per_dimension(multi_run=",
                quoted_list_text(multi_run_dims).as_str(),
                ", single_run=",
                quoted_list_text(single_run_dims).as_str(),
                ")",
            ),
        }
    }

    /// Whether two strategies are the same.
    pub fn same(&self, other: &Self) -> (r: bool)
        ensures
            r == (self@ == other@),
    {
        match (self, other) {
            (PyBackfillStrategy::MultiRun, PyBackfillStrategy::MultiRun) => true,
            (PyBackfillStrategy::SingleRun, PyBackfillStrategy::SingleRun) => true,
            (
                PyBackfillStrategy::PerDimension { multi_run_dims: a, single_run_dims: b },
                PyBackfillStrategy::PerDimension { multi_run_dims: c, single_run_dims: d },
            ) => same_texts(a, c) && same_texts(b, d),
            _ => false,
        }
    }
}

} // verus!
