//! How a worker process runs a step: it loads the arguments, sets up resources, calls
//! the function, writes the outputs, and gives back what it took.
use vstd::prelude::*;
use vstd::string::*;
use crate::executor::events::CapturedLogs;
use crate::executor::outputs::{
    copy_opt, or_version, version_or, ItemView, OutputItem, ResultKind,
};
use crate::partitions::grid::opt_text;

verus! {

/// An argument as it reaches a worker.
#[derive(Clone, Copy, PartialEq, Eq, Structural, Debug)]
pub enum WorkerArg {
    /// It is what it is.
    Plain,
    /// It is loaded.
    Load,
    /// It is a list of so many loaded values.
    Collect(usize),
    /// It is loaded bit by bit, as it is read.
    Stream,
}

/// How many values are loaded for an argument before the function is called.
pub open spec fn loads_of(a: WorkerArg) -> int {
    match a {
        WorkerArg::Plain => 0,
        WorkerArg::Load => 1,
        WorkerArg::Collect(n) => n as int,
        WorkerArg::Stream => 0,
    }
}

/// What the worker does next.
#[derive(Clone, Copy, PartialEq, Eq, Structural, Debug)]
pub enum WorkerAction {
    /// Load a value of an argument.
    LoadArg(usize, usize),
    /// Make a resource and set it up.
    SetUp(usize),
    /// Make the context and put it first.
    MakeContext,
    /// Call the function and write its outputs.
    Body,
    /// Tear a resource down. That it fails is of no consequence.
    TearDown(usize),
    /// End the capture of the streams.
    FinishCapture,
    /// Return the outputs, or raise the error of the body with what was captured.
    Report,
    /// Raise the error that came before the function was called.
    Raise,
}

/// The run of a step in a worker.
#[derive(Debug)]
pub struct WorkerRun {
    pub args: Vec<WorkerArg>,
    pub resources: usize,
    pub has_context: bool,
    pub has_capture: bool,
    pub action: WorkerAction,
    /// Whether the body succeeded, once it has ended.
    pub body: Option<bool>,
    /// How many resources were torn down.
    pub torn_down: usize,
}

/// The first value to load from an argument on.
pub open spec fn next_load(args: Seq<WorkerArg>, i: int) -> Option<int>
    decreases args.len() - i,
{
    if i < 0 || i >= args.len() {
        None
    } else if loads_of(args[i]) > 0 {
        Some(i)
    } else {
        next_load(args, i + 1)
    }
}

/// What comes after all arguments.
pub open spec fn after_args(resources: int, has_context: bool) -> WorkerAction {
    if resources > 0 {
        WorkerAction::SetUp(0)
    } else if has_context {
        WorkerAction::MakeContext
    } else {
        WorkerAction::Body
    }
}

/// What comes after an argument.
pub open spec fn after_arg(
    args: Seq<WorkerArg>,
    i: int,
    resources: int,
    has_context: bool,
) -> WorkerAction {
    match next_load(args, i) {
        Some(j) => WorkerAction::LoadArg(j as usize, 0),
        None => after_args(resources, has_context),
    }
}

/// What comes after the body.
pub open spec fn after_body(torn: int, resources: int, has_capture: bool) -> WorkerAction {
    if torn < resources {
        WorkerAction::TearDown(torn as usize)
    } else if has_capture {
        WorkerAction::FinishCapture
    } else {
        WorkerAction::Report
    }
}

/// What follows when an action has ended, well or not.
pub open spec fn next_action(r: WorkerRun, ok: bool) -> WorkerAction {
    match r.action {
        WorkerAction::LoadArg(i, k) => if !ok {
            WorkerAction::Raise
        } else if k + 1 < loads_of(r.args@[i as int]) {
            WorkerAction::LoadArg(i, (k + 1) as usize)
        } else {
            after_arg(r.args@, i + 1, r.resources as int, r.has_context)
        },
        WorkerAction::SetUp(i) => if !ok {
            WorkerAction::Raise
        } else if i + 1 < r.resources {
            WorkerAction::SetUp((i + 1) as usize)
        } else if r.has_context {
            WorkerAction::MakeContext
        } else {
            WorkerAction::Body
        },
        WorkerAction::MakeContext => if ok {
            WorkerAction::Body
        } else {
            WorkerAction::Raise
        },
        WorkerAction::Body => after_body(0, r.resources as int, r.has_capture),
        WorkerAction::TearDown(i) => after_body(i + 1, r.resources as int, r.has_capture),
        WorkerAction::FinishCapture => WorkerAction::Report,
        WorkerAction::Report => WorkerAction::Report,
        WorkerAction::Raise => WorkerAction::Raise,
    }
}

/// Where a run stands fits what it has done: once the function has been called every
/// resource is torn down before anything is reported, and before that none is.
pub open spec fn worker_wf(r: WorkerRun) -> bool {
    &&& r.torn_down <= r.resources
    &&& match r.action {
        WorkerAction::LoadArg(i, k) => {
            &&& i < r.args@.len()
            &&& k < loads_of(r.args@[i as int])
            &&& r.body is None
            &&& r.torn_down == 0
        },
        WorkerAction::SetUp(i) => i < r.resources && r.body is None && r.torn_down == 0,
        WorkerAction::MakeContext => r.has_context && r.body is None && r.torn_down == 0,
        WorkerAction::Body => r.body is None && r.torn_down == 0,
        WorkerAction::TearDown(i) => i < r.resources && r.body is Some && r.torn_down == i,
        WorkerAction::FinishCapture => r.has_capture && r.body is Some && r.torn_down
            == r.resources,
        WorkerAction::Report => r.body is Some && r.torn_down == r.resources,
        WorkerAction::Raise => r.body is None && r.torn_down == 0,
    }
}

proof fn lemma_next_load(args: Seq<WorkerArg>, i: int)
    requires
        0 <= i,
    ensures
        match next_load(args, i) {
            Some(j) => i <= j < args.len() && loads_of(args[j]) > 0,
            None => true,
        },
    decreases args.len() - i,
{
    if i < args.len() && loads_of(args[i]) <= 0 {
        lemma_next_load(args, i + 1);
    }
}

/// Whenever a run reports, each resource has been torn down once; whenever it raises,
/// the function was never called.
pub proof fn lemma_worker_ends(r: WorkerRun)
    requires
        worker_wf(r),
    ensures
        r.action is Report ==> r.torn_down == r.resources && r.body is Some,
        r.action is Raise ==> r.torn_down == 0 && r.body is None,
{
}

impl WorkerRun {
    pub open spec fn wf(&self) -> bool {
        worker_wf(*self)
    }

    /// A run of a step: `resources` is how many resources it takes.
    pub fn new(
        args: Vec<WorkerArg>,
        resources: usize,
        has_context: bool,
        has_capture: bool,
    ) -> (r: Self)
        ensures
            r.wf(),
            r.args == args,
            r.resources == resources,
            r.has_context == has_context,
            r.has_capture == has_capture,
            r.body is None,
            r.torn_down == 0,
            r.action == after_arg(args@, 0, resources as int, has_context),
    {
        let count: usize = args.len();
        let first = WorkerRun::enter(&args, 0, resources, has_context);
        proof {
            lemma_next_load(args@, 0);
            assert(args@.len() == count);
        }
        WorkerRun {
            args,
            resources,
            has_context,
            has_capture,
            action: first,
            body: None,
            torn_down: 0,
        }
    }

    fn enter(args: &Vec<WorkerArg>, from: usize, resources: usize, has_context: bool) -> (r:
        WorkerAction)
        requires
            from <= args@.len(),
        ensures
            r == after_arg(args@, from as int, resources as int, has_context),
    {
        let mut i: usize = from;
        while i < args.len()
            invariant
                i <= args@.len(),
                next_load(args@, from as int) == next_load(args@, i as int),
            decreases args@.len() - i,
        {
            let loads = match args[i] {
                WorkerArg::Plain => false,
                WorkerArg::Load => true,
                WorkerArg::Collect(n) => n > 0,
                WorkerArg::Stream => false,
            };
            if loads {
                return WorkerAction::LoadArg(i, 0);
            }
            i += 1;
        }
        if resources > 0 {
            WorkerAction::SetUp(0)
        } else if has_context {
            WorkerAction::MakeContext
        } else {
            WorkerAction::Body
        }
    }

    fn leave(&self, torn: usize) -> (r: WorkerAction)
        ensures
            r == after_body(torn as int, self.resources as int, self.has_capture),
    {
        if torn < self.resources {
            WorkerAction::TearDown(torn)
        } else if self.has_capture {
            WorkerAction::FinishCapture
        } else {
            WorkerAction::Report
        }
    }

    /// The action has ended, well or not.
    pub fn advance(&mut self, ok: bool)
        requires
            old(self).wf(),
        ensures
            final(self).wf(),
            final(self).args == old(self).args,
            final(self).resources == old(self).resources,
            final(self).has_context == old(self).has_context,
            final(self).has_capture == old(self).has_capture,
            final(self).action == next_action(*old(self), ok),
            final(self).body == if old(self).action is Body {
                Some(ok)
            } else {
                old(self).body
            },
            final(self).torn_down == if old(self).action is TearDown {
                old(self).torn_down + 1
            } else {
                old(self).torn_down as int
            },
    {
        match self.action {
            WorkerAction::LoadArg(i, k) => {
                let count: usize = self.args.len();
                proof {
                    lemma_next_load(self.args@, i + 1);
                    assert(i < count);
                }
                if !ok {
                    self.action = WorkerAction::Raise;
                } else {
                    let more = match self.args[i] {
                        WorkerArg::Collect(n) => k + 1 < n,
                        _ => false,
                    };
                    if more {
                        self.action = WorkerAction::LoadArg(i, k + 1);
                    } else {
                        self.action = WorkerRun::enter(
                            &self.args,
                            i + 1,
                            self.resources,
                            self.has_context,
                        );
                    }
                }
            },
            WorkerAction::SetUp(i) => {
                if !ok {
                    self.action = WorkerAction::Raise;
                } else if i + 1 < self.resources {
                    self.action = WorkerAction::SetUp(i + 1);
                } else if self.has_context {
                    self.action = WorkerAction::MakeContext;
                } else {
                    self.action = WorkerAction::Body;
                }
            },
            WorkerAction::MakeContext => {
                self.action = if ok {
                    WorkerAction::Body
                } else {
                    WorkerAction::Raise
                };
            },
            WorkerAction::Body => {
                self.body = Some(ok);
                self.action = self.leave(0);
            },
            WorkerAction::TearDown(i) => {
                self.torn_down = self.torn_down + 1;
                self.action = self.leave(i + 1);
            },
            WorkerAction::FinishCapture => {
                self.action = WorkerAction::Report;
            },
            WorkerAction::Report => {},
            WorkerAction::Raise => {},
        }
    }
}

/// What was captured, unless every stream is empty.
pub fn captured(stdout: String, stderr: String, logs: String) -> (r: Option<CapturedLogs>)
    ensures
        match r {
            Some(c) => c@ == (stdout@, stderr@, logs@) && (stdout@.len() > 0 || stderr@.len() > 0
                || logs@.len() > 0),
            None => stdout@.len() == 0 && stderr@.len() == 0 && logs@.len() == 0,
        },
{
    if stdout.as_str().is_empty() && stderr.as_str().is_empty() && logs.as_str().is_empty() {
        None
    } else {
        Some(CapturedLogs { stdout, stderr, logs })
    }
}

/// What a worker does with an output.
#[derive(Clone, Copy, PartialEq, Eq, Structural, Debug)]
pub enum ItemAction {
    /// Leave it out.
    Skip,
    /// Write it, then report it.
    Write,
    /// Report it.
    Report,
}

/// What a worker does with an output. One of several outputs is written by its own
/// handler and left out where it has none; a single one is written where there is a
/// handler, and reported in any case.
pub open spec fn item_action(item: ItemView, multi: bool, has_handler: bool) -> ItemAction {
    if item.value is None {
        ItemAction::Report
    } else if has_handler {
        ItemAction::Write
    } else if multi {
        ItemAction::Skip
    } else {
        ItemAction::Report
    }
}

/// What a worker reports of an output: its name, its kind and its data version. What
/// writing gave counts above what the output declares.
#[derive(Debug)]
pub struct ReportedItem {
    pub name: String,
    pub kind: ResultKind,
    pub data_version: Option<String>,
}

/// The kind that is reported of an output.
pub open spec fn reported_kind(item: ItemView) -> ResultKind {
    if item.observation {
        ResultKind::Observation
    } else if item.value is Some {
        ResultKind::Output
    } else {
        ResultKind::Materialization
    }
}

/// What a worker does with an output.
pub fn worker_item_action(item: &OutputItem<'_>, multi: bool, has_handler: bool) -> (r: ItemAction)
    ensures
        r == item_action(item@, multi, has_handler),
{
    let valued = match item {
        OutputItem::Materialization { value, .. } => value.is_some(),
        OutputItem::Observation { .. } => false,
    };
    if !valued {
        ItemAction::Report
    } else if has_handler {
        ItemAction::Write
    } else if multi {
        ItemAction::Skip
    } else {
        ItemAction::Report
    }
}

/// What a worker reports of an output: `written` is what writing it gave, where it
/// was written.
pub fn append_output(item: &OutputItem<'_>, written: Option<String>) -> (r: ReportedItem)
    ensures
        r.name@ == item@.name,
        r.kind == reported_kind(item@),
        opt_text(r.data_version) == or_version(
            if item@.value is Some {
                opt_text(written)
            } else {
                None
            },
            item@.version,
        ),
{
    match item {
        OutputItem::Materialization { name, value, data_version, .. } => {
            let io = if value.is_some() {
                written
            } else {
                None
            };
            ReportedItem {
                name: name.clone(),
                kind: if value.is_some() {
                    ResultKind::Output
                } else {
                    ResultKind::Materialization
                },
                data_version: version_or(io, copy_opt(data_version)),
            }
        },
        OutputItem::Observation { name, data_version, .. } => ReportedItem {
            name: name.clone(),
            kind: ResultKind::Observation,
            data_version: copy_opt(data_version),
        },
    }
}

} // verus!
