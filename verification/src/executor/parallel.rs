//! How the instances of a batch are spread over worker processes.
use vstd::prelude::*;
use vstd::string::*;
use crate::errors::Fault;
use crate::executor::batch::{
    execution_error, recorded_failure, Batch, BatchView, ErrView, StepError,
};
use crate::executor::events::{ClassView, Classified};
use crate::executor::orchestrate::{
    instances_view, InstanceView, StepInstance,
};
use crate::executor::plan::ExecutionStep;
use crate::executor::results::{collect_input_data_versions, versions_of};
use crate::names::NameMap;
use crate::text::{say3, texts};

verus! {

/// What is known of the handler that writes the output of a node.
#[derive(Debug)]
pub enum HandlerKind {
    /// There is none, or it keeps values in the memory of the process.
    InMemory,
    /// Another process can use it.
    Shared,
    /// It could not be looked at.
    Unknown(StepError, Classified),
}

/// The message of a node whose output no other process can see.
pub open spec fn in_memory_message(name: Seq<char>) -> Seq<char> {
    "Asset '"@ + name
        + "' uses InMemoryIOHandler which cannot work with parallel execution. InMemoryIOHandler stores data in process-local memory that is not accessible from subprocesses. Use PickleIOHandler or DeltaIOHandler instead, or switch to Executor.in_process()."@
}

/// Why the output of a node cannot be written by another process: the error and its
/// classification.
pub open spec fn handler_fault(name: Seq<char>, k: HandlerKind, own: ClassView) -> Option<
    (ErrView, ClassView),
> {
    match k {
        HandlerKind::InMemory => Some((execution_error(in_memory_message(name)), own)),
        HandlerKind::Shared => None,
        HandlerKind::Unknown(e, c) => Some((e@, c@)),
    }
}

/// The first fault among the handlers of a list of names. Names without a handler to
/// look at pass.
pub open spec fn handlers_fault(
    kinds: Map<Seq<char>, HandlerKind>,
    names: Seq<Seq<char>>,
    own: ClassView,
) -> Option<(ErrView, ClassView)>
    decreases names.len(),
{
    if names.len() == 0 {
        None
    } else {
        match handlers_fault(kinds, names.drop_last(), own) {
            Some(e) => Some(e),
            None => if kinds.dom().contains(names.last()) {
                handler_fault(names.last(), kinds[names.last()], own)
            } else {
                None
            },
        }
    }
}

/// The names whose handlers a step needs: its own and, unless it is a map instance,
/// those of its outputs.
pub open spec fn handler_names(step: ExecutionStep, mapped: bool) -> Seq<Seq<char>> {
    if mapped {
        seq![step.name@]
    } else {
        seq![step.name@] + texts(step.outputs@)
    }
}

proof fn lemma_handlers_prefix(
    kinds: Map<Seq<char>, HandlerKind>,
    names: Seq<Seq<char>>,
    own: ClassView,
    n: int,
)
    requires
        0 <= n <= names.len(),
        handlers_fault(kinds, names.take(n), own) is Some,
    ensures
        handlers_fault(kinds, names, own) == handlers_fault(kinds, names.take(n), own),
    decreases names.len(),
{
    if n < names.len() {
        assert(names.drop_last().take(n) =~= names.take(n));
        lemma_handlers_prefix(kinds, names.drop_last(), own, n);
    } else {
        assert(names.take(n) =~= names);
    }
}

fn in_memory_text(name: &str) -> (r: String)
    ensures
        r@ == in_memory_message(name@),
{
    say3(
        "Asset '",
        name,
        "' uses InMemoryIOHandler which cannot work with parallel execution. InMemoryIOHandler stores data in process-local memory that is not accessible from subprocesses. Use PickleIOHandler or DeltaIOHandler instead, or switch to Executor.in_process().",
    )
}

impl StepError {
    pub fn copy(&self) -> (r: Self)
        ensures
            r@ == self@,
    {
        match self {
            StepError::Host { error, text } => StepError::Host {
                error: *error,
                text: text.clone(),
            },
            StepError::Own(f) => StepError::Own(
                Fault { kind: f.kind, message: f.message.clone() },
            ),
        }
    }
}

impl Batch {
    /// Checks that another process can write what a step produces. A step that cannot
    /// be sent there fails under its own name, and the answer is no.
    pub fn check_handlers(
        &mut self,
        step: &ExecutionStep,
        mapped: bool,
        kinds: &NameMap<HandlerKind>,
        ts: i64,
    ) -> (r: bool)
        requires
            old(self).wf(),
        ensures
            final(self).wf(),
            match handlers_fault(
                kinds@,
                handler_names(*step, mapped),
                old(self)@.own_class,
            ) {
                None => r && final(self)@ == old(self)@,
                Some(e) => !r && final(self)@ == recorded_failure(
                    old(self)@,
                    step.name@,
                    e.0,
                    e.1,
                    ts,
                ),
            },
    {
        let mut names: Vec<String> = Vec::new();
        names.push(step.name.clone());
        if !mapped {
            let mut outputs = crate::text::copy_texts(&step.outputs);
            let ghost ov = outputs@;
            names.append(&mut outputs);
            proof {
                assert(texts(names@) =~= seq![step.name@] + texts(ov));
            }
        } else {
            proof {
                assert(texts(names@) =~= seq![step.name@]);
            }
        }
        let ghost t = texts(names@);
        let ghost own = self@.own_class;
        let ghost b0 = self@;
        let mut i: usize = 0;
        proof {
            assert(t.take(0) =~= Seq::empty());
        }
        while i < names.len()
            invariant
                self.wf(),
                self@ == b0,
                b0 == old(self)@,
                own == b0.own_class,
                t == texts(names@),
                t == handler_names(*step, mapped),
                i <= t.len(),
                handlers_fault(kinds@, t.take(i as int), own) is None,
            decreases t.len() - i,
        {
            proof {
                assert(t.take(i + 1).drop_last() =~= t.take(i as int));
                assert(t.take(i + 1).last() == names@[i as int]@);
                if handlers_fault(kinds@, t.take(i + 1), own) is Some {
                    lemma_handlers_prefix(kinds@, t, own, i + 1);
                }
            }
            match kinds.get(names[i].as_str()) {
                Some(HandlerKind::InMemory) => {
                    self.record_own_failure(
                        step.name.as_str(),
                        in_memory_text(names[i].as_str()),
                        ts,
                    );
                    return false;
                },
                Some(HandlerKind::Unknown(e, c)) => {
                    self.record_failure_no_hooks(step.name.as_str(), e.copy(), c, ts);
                    return false;
                },
                Some(HandlerKind::Shared) => {},
                None => {},
            }
            i += 1;
        }
        proof {
            assert(t.take(i as int) =~= t);
        }
        true
    }

    /// What a step that is sent to a worker reads: a map instance reads nothing that
    /// is tracked.
    pub fn worker_inputs(&self, step: &ExecutionStep, mapped: bool) -> (r: Vec<(String, String)>)
        ensures
            crate::executor::events::pairs_view(r@) == if mapped {
                Seq::empty()
            } else {
                versions_of(self@.versions, texts(step.graph_dependencies@))
            },
    {
        if mapped {
            let none: Vec<(String, String)> = Vec::new();
            proof {
                assert(crate::executor::events::pairs_view(none@) =~= Seq::empty());
            }
            none
        } else {
            collect_input_data_versions(&self.data_versions, &step.graph_dependencies)
        }
    }

    /// Fails each of a list of names with one error.
    pub fn fail_each(&mut self, names: &Vec<String>, error: &StepError, class: &Classified, ts: i64)
        requires
            old(self).wf(),
        ensures
            final(self).wf(),
            final(self)@ == each_failed(old(self)@, texts(names@), error@, class@, ts),
    {
        let ghost b0 = self@;
        let ghost t = texts(names@);
        let mut i: usize = 0;
        proof {
            assert(t.take(0) =~= Seq::empty());
        }
        while i < names.len()
            invariant
                self.wf(),
                t == texts(names@),
                i <= t.len(),
                self@ == each_failed(b0, t.take(i as int), error@, class@, ts),
            decreases t.len() - i,
        {
            proof {
                assert(t.take(i + 1).drop_last() =~= t.take(i as int));
                assert(t.take(i + 1).last() == names@[i as int]@);
            }
            self.record_failure_no_hooks(names[i].as_str(), error.copy(), class, ts);
            i += 1;
        }
        proof {
            assert(t.take(i as int) =~= t);
        }
    }
}

/// A run after each of a list of names failed with one error.
pub open spec fn each_failed(
    b: BatchView,
    names: Seq<Seq<char>>,
    e: ErrView,
    class: ClassView,
    ts: i64,
) -> BatchView
    decreases names.len(),
{
    if names.len() == 0 {
        b
    } else {
        recorded_failure(
            each_failed(b, names.drop_last(), e, class, ts),
            names.last(),
            e,
            class,
            ts,
        )
    }
}

/// The instances of a batch by how they run, each kind in the order of the batch.
#[derive(Debug)]
pub struct Split {
    /// On an event loop of this process.
    pub async_instances: Vec<StepInstance>,
    /// In worker processes.
    pub no_pool: Vec<StepInstance>,
    /// In worker processes, one life each: those that claim slots or may be tried
    /// again.
    pub pool: Vec<StepInstance>,
    /// Whether no instance that is not asynchronous is a map instance.
    pub all_non_mapped: bool,
}

/// The instances of a list that are asynchronous, or that are not.
pub open spec fn by_async(s: Seq<InstanceView>, is_async: bool) -> Seq<InstanceView>
    decreases s.len(),
{
    if s.len() == 0 {
        s
    } else if s.last().is_async == is_async {
        by_async(s.drop_last(), is_async).push(s.last())
    } else {
        by_async(s.drop_last(), is_async)
    }
}

/// Whether an instance lives its own life: it claims slots, or its step may be tried
/// again.
pub open spec fn own_life(i: InstanceView, retries: Seq<bool>) -> bool {
    i.pools.len() > 0 || (0 <= i.idx < retries.len() && retries[i.idx])
}

/// The instances of a list that live their own lives, or that do not.
pub open spec fn by_life(s: Seq<InstanceView>, retries: Seq<bool>, own: bool) -> Seq<InstanceView>
    decreases s.len(),
{
    if s.len() == 0 {
        s
    } else if own_life(s.last(), retries) == own {
        by_life(s.drop_last(), retries, own).push(s.last())
    } else {
        by_life(s.drop_last(), retries, own)
    }
}

/// Whether no instance of a list is a map instance.
pub open spec fn none_mapped(s: Seq<InstanceView>) -> bool {
    forall|i: int| 0 <= i < s.len() ==> (#[trigger] s[i]).fan_out is None
}

/// Every instance is of exactly one kind.
pub proof fn lemma_split_whole(s: Seq<InstanceView>, retries: Seq<bool>)
    ensures
        by_async(s, true).len() + by_life(by_async(s, false), retries, true).len() + by_life(
            by_async(s, false),
            retries,
            false,
        ).len() == s.len(),
    decreases s.len(),
{
    lemma_life_whole(by_async(s, false), retries);
    lemma_async_whole(s);
}

proof fn lemma_async_whole(s: Seq<InstanceView>)
    ensures
        by_async(s, true).len() + by_async(s, false).len() == s.len(),
    decreases s.len(),
{
    if s.len() > 0 {
        lemma_async_whole(s.drop_last());
    }
}

proof fn lemma_life_whole(s: Seq<InstanceView>, retries: Seq<bool>)
    ensures
        by_life(s, retries, true).len() + by_life(s, retries, false).len() == s.len(),
    decreases s.len(),
{
    if s.len() > 0 {
        lemma_life_whole(s.drop_last(), retries);
    }
}

/// Splits the instances of a batch. `retries` says, for each step of the plan, whether
/// it has a retry policy.
pub fn split_instances(instances: Vec<StepInstance>, retries: &Vec<bool>) -> (r: Split)
    ensures
        ({
            let s = instances_view(instances@);
            let sync = by_async(s, false);
            &&& instances_view(r.async_instances@) == by_async(s, true)
            &&& instances_view(r.pool@) == by_life(sync, retries@, true)
            &&& instances_view(r.no_pool@) == by_life(sync, retries@, false)
            &&& r.all_non_mapped == none_mapped(sync)
        }),
{
    let ghost s = instances_view(instances@);
    let ghost src = instances@;
    let mut rest = instances;
    let mut async_instances: Vec<StepInstance> = Vec::new();
    let mut pool: Vec<StepInstance> = Vec::new();
    let mut no_pool: Vec<StepInstance> = Vec::new();
    let mut all_non_mapped = true;
    let ghost mut n: int = 0;
    proof {
        assert(s.take(0) =~= Seq::empty());
        assert(src.skip(0) =~= src);
        assert(instances_view(async_instances@) =~= Seq::empty());
        assert(instances_view(pool@) =~= Seq::empty());
        assert(instances_view(no_pool@) =~= Seq::empty());
    }
    while rest.len() > 0
        invariant
            0 <= n <= s.len(),
            s == instances_view(src),
            rest@ == src.skip(n),
            instances_view(async_instances@) == by_async(s.take(n), true),
            instances_view(pool@) == by_life(by_async(s.take(n), false), retries@, true),
            instances_view(no_pool@) == by_life(by_async(s.take(n), false), retries@, false),
            all_non_mapped == none_mapped(by_async(s.take(n), false)),
        decreases rest@.len(),
    {
        let inst = rest.remove(0);
        let ghost iv = inst@;
        let ghost sync0 = by_async(s.take(n), false);
        proof {
            assert(src.skip(n)[0] == src[n]);
            assert(inst == src[n]);
            assert(rest@ =~= src.skip(n + 1));
            assert(s.take(n + 1).drop_last() =~= s.take(n));
            assert(s.take(n + 1).last() == iv);
            assert(crate::executor::classify::pools_view(inst.pools@).len() == inst.pools@.len());
        }
        if inst.is_async {
            let ghost prev = instances_view(async_instances@);
            async_instances.push(inst);
            proof {
                assert(instances_view(async_instances@) =~= prev.push(iv));
            }
        } else {
            let ghost sync1 = by_async(s.take(n + 1), false);
            proof {
                assert(sync1 == sync0.push(iv));
                assert(sync1.drop_last() =~= sync0);
                if none_mapped(sync1) {
                    assert forall|i: int| 0 <= i < sync0.len() implies (
                    #[trigger] sync0[i]).fan_out is None by {
                        assert(sync1[i].fan_out is None);
                    }
                    assert(sync1[sync0.len() as int].fan_out is None);
                }
            }
            if inst.fan_out.is_some() {
                all_non_mapped = false;
            }
            let again = inst.idx < retries.len() && retries[inst.idx];
            if inst.pools.len() > 0 || again {
                let ghost prev = instances_view(pool@);
                pool.push(inst);
                proof {
                    assert(instances_view(pool@) =~= prev.push(iv));
                }
            } else {
                let ghost prev = instances_view(no_pool@);
                no_pool.push(inst);
                proof {
                    assert(instances_view(no_pool@) =~= prev.push(iv));
                }
            }
        }
        proof {
            n = n + 1;
        }
    }
    proof {
        assert(s.take(n) =~= s);
    }
    Split { async_instances, no_pool, pool, all_non_mapped }
}

/// What is done with the instances of a batch, in order.
#[derive(Clone, Copy, PartialEq, Eq, Structural, Debug)]
pub enum Stage {
    /// Run those without slots in this process.
    InProcess,
    /// Run those that live their own lives in this process: the only instance there
    /// is.
    PoolInProcess,
    /// Fail those without slots: there are no worker processes.
    FailNoPool,
    /// Send those without slots through a window of this size.
    Windowed(usize),
    /// Submit those without slots all at once.
    SubmitAll,
    /// Run the asynchronous ones.
    RunAsync,
    /// Wait for those that were submitted all at once.
    Collect,
    /// Let the others live their lives, so many at once where there is a limit.
    Pool(Option<usize>),
}

/// The stages of a batch. `workers` says whether worker processes could be had.
pub open spec fn stages_of(
    n_async: nat,
    n_no_pool: nat,
    n_pool: nat,
    all_non_mapped: bool,
    workers: bool,
    limit: Option<usize>,
) -> Seq<Stage> {
    let run_async = if n_async > 0 {
        seq![Stage::RunAsync]
    } else {
        Seq::empty()
    };
    let run_pool = if n_pool > 0 {
        seq![Stage::Pool(limit)]
    } else {
        Seq::empty()
    };
    if all_non_mapped && n_no_pool + n_pool == 1 && n_async == 0 {
        if n_pool == 0 {
            seq![Stage::InProcess]
        } else {
            seq![Stage::PoolInProcess]
        }
    } else if n_no_pool == 0 {
        run_async + run_pool
    } else if !workers {
        seq![Stage::FailNoPool] + run_async
    } else if all_non_mapped && n_no_pool == 1 {
        seq![Stage::InProcess] + run_async + run_pool
    } else if limit is Some {
        seq![Stage::Windowed(limit->0)] + run_async + run_pool
    } else {
        seq![Stage::SubmitAll] + run_async + seq![Stage::Collect] + run_pool
    }
}

impl Split {
    /// Whether worker processes are needed: only then are they asked for.
    pub fn needs_workers(&self) -> (r: bool)
        ensures
            r == (self.no_pool@.len() > 0 && !(self.all_non_mapped && self.no_pool@.len()
                + self.pool@.len() == 1 && self.async_instances@.len() == 0)),
    {
        let only = self.all_non_mapped && self.async_instances.len() == 0 && ((
        self.no_pool.len() == 1 && self.pool.len() == 0) || (self.no_pool.len() == 0
            && self.pool.len() == 1));
        self.no_pool.len() > 0 && !only
    }

    /// What is done with the instances, in order. Submitting comes before the
    /// asynchronous instances, so that both overlap.
    pub fn stages(&self, workers: bool, limit: Option<usize>) -> (r: Vec<Stage>)
        ensures
            r@ == stages_of(
                self.async_instances@.len(),
                self.no_pool@.len(),
                self.pool@.len(),
                self.all_non_mapped,
                workers,
                limit,
            ),
    {
        let mut out: Vec<Stage> = Vec::new();
        let only = self.all_non_mapped && self.async_instances.len() == 0 && ((
        self.no_pool.len() == 1 && self.pool.len() == 0) || (self.no_pool.len() == 0
            && self.pool.len() == 1));
        let ghost want = stages_of(
            self.async_instances@.len(),
            self.no_pool@.len(),
            self.pool@.len(),
            self.all_non_mapped,
            workers,
            limit,
        );
        if only {
            if self.pool.len() == 0 {
                out.push(Stage::InProcess);
            } else {
                out.push(Stage::PoolInProcess);
            }
            proof {
                assert(out@ =~= want);
            }
            return out;
        }
        let mut collect = false;
        if self.no_pool.len() > 0 {
            if !workers {
                out.push(Stage::FailNoPool);
                if self.async_instances.len() > 0 {
                    out.push(Stage::RunAsync);
                }
                proof {
                    assert(out@ =~= want);
                }
                return out;
            }
            if self.all_non_mapped && self.no_pool.len() == 1 {
                out.push(Stage::InProcess);
            } else {
                match limit {
                    Some(n) => {
                        out.push(Stage::Windowed(n));
                    },
                    None => {
                        out.push(Stage::SubmitAll);
                        collect = true;
                    },
                }
            }
        }
        if self.async_instances.len() > 0 {
            out.push(Stage::RunAsync);
        }
        if collect {
            out.push(Stage::Collect);
        }
        if self.pool.len() > 0 {
            out.push(Stage::Pool(limit));
        }
        proof {
            assert(out@ =~= want);
        }
        out
    }
}

/// Without worker processes the instances without slots fail and the asynchronous
/// ones still run.
pub proof fn lemma_no_workers(n_async: nat, n_no_pool: nat, n_pool: nat, limit: Option<usize>)
    requires
        n_no_pool > 1,
    ensures
        stages_of(n_async, n_no_pool, n_pool, true, false, limit) == if n_async > 0 {
            seq![Stage::FailNoPool, Stage::RunAsync]
        } else {
            seq![Stage::FailNoPool]
        },
{
    assert(stages_of(n_async, n_no_pool, n_pool, true, false, limit) =~= if n_async > 0 {
        seq![Stage::FailNoPool, Stage::RunAsync]
    } else {
        seq![Stage::FailNoPool]
    });
}

} // verus!
