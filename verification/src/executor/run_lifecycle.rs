//! How a run starts and ends.
use vstd::prelude::*;
use vstd::string::*;
use crate::errors::{Fault, FaultKind};
use crate::executor::batch::{failures_view, ErrView, StepError};
use crate::executor::events::pairs_view;


verus! {

/// The status of a run.
#[derive(Clone, Copy, PartialEq, Eq, Structural, Debug)]
pub enum RunStatus {
    Started,
    Success,
    Failure,
    Canceled,
}

/// The result of a run.
#[derive(Debug)]
pub struct RunResult {
    pub success: bool,
    pub run_id: String,
    pub materialized_assets: Vec<String>,
    /// The failed assets, each with its error.
    pub failed_assets: Vec<(String, String)>,
}

/// The final status of a run: a cancellation counts above everything else.
pub open spec fn final_status(cancelled: bool, success: bool) -> RunStatus {
    if cancelled {
        RunStatus::Canceled
    } else if success {
        RunStatus::Success
    } else {
        RunStatus::Failure
    }
}

/// The final status of a run, or why it is not known: `cancelled` is what the store
/// says. It stands once it is stored.
pub fn finalize_status(cancelled: Result<bool, String>, success: bool) -> (r: Result<
    RunStatus,
    Fault,
>)
    ensures
        match cancelled {
            Ok(c) => r == Ok::<RunStatus, Fault>(final_status(c, success)),
            Err(e) => r matches Err(f) && f@ == (
                FaultKind::Execution,
                "Failed to check cancellation: "@ + e@,
            ),
        },
{
    match cancelled {
        Ok(true) => Ok(RunStatus::Canceled),
        Ok(false) => Ok(
            if success {
                RunStatus::Success
            } else {
                RunStatus::Failure
            },
        ),
        Err(e) => {
            let mut s = "Failed to check cancellation: ".to_owned();
            s.append(e.as_str());
            Err(Fault::execution(s))
        },
    }
}

/// The status with which a run ends, or why it could not be stored: `stored` is what the
/// store says of the update.
pub fn status_stored(status: RunStatus, stored: Result<(), String>) -> (r: Result<RunStatus, Fault>)
    ensures
        match stored {
            Ok(()) => r == Ok::<RunStatus, Fault>(status),
            Err(e) => r matches Err(f) && f@ == (
                FaultKind::Execution,
                "Failed to update run status: "@ + e@,
            ),
        },
{
    match stored {
        Ok(()) => Ok(status),
        Err(e) => {
            let mut s = "Failed to update run status: ".to_owned();
            s.append(e.as_str());
            Err(Fault::execution(s))
        },
    }
}

/// Each failed name and the text of its error.
pub open spec fn failed_texts(v: Seq<(Seq<char>, ErrView)>) -> Seq<(Seq<char>, Seq<char>)> {
    v.map_values(|f: (Seq<char>, ErrView)| (f.0, f.1.1))
}

/// The result of a run: it succeeded exactly where its status says so.
pub fn build_run_result(
    run_id: String,
    status: RunStatus,
    node_names: Vec<String>,
    failures: &Vec<(String, StepError)>,
) -> (r: RunResult)
    ensures
        r.success == (status == RunStatus::Success),
        r.run_id == run_id,
        r.materialized_assets == node_names,
        pairs_view(r.failed_assets@) == failed_texts(failures_view(failures@)),
{
    let mut failed: Vec<(String, String)> = Vec::new();
    let mut i: usize = 0;
    while i < failures.len()
        invariant
            i <= failures@.len(),
            failed@.len() == i,
            forall|j: int|
                0 <= j < i ==> (#[trigger] failed@[j]).0@ == failures@[j].0@ && failed@[j].1@
                    == failures@[j].1@.1,
        decreases failures@.len() - i,
    {
        failed.push((failures[i].0.clone(), failures[i].1.text()));
        i += 1;
    }
    proof {
        assert(pairs_view(failed@) =~= failed_texts(failures_view(failures@)));
    }
    RunResult {
        success: status == RunStatus::Success,
        run_id,
        materialized_assets: node_names,
        failed_assets: failed,
    }
}

/// How a run is brought to its start.
#[derive(Debug)]
pub enum RunInit {
    /// A new record is made.
    Create,
    /// The record exists; the run may have been cancelled while it waited.
    Existing,
}

/// What follows from the start of a run.
#[derive(Debug)]
pub enum RunStart {
    /// Execute the plan.
    Go,
    /// The run was cancelled before it started; nothing is executed.
    Skipped,
}

/// What follows from the start of a run: `reply` says, for a record that existed,
/// whether the run was started.
pub fn started_run(init: RunInit, reply: Result<bool, String>) -> (r: Result<RunStart, Fault>)
    ensures
        match reply {
            Ok(started) => r == Ok::<RunStart, Fault>(
                if init is Create || started {
                    RunStart::Go
                } else {
                    RunStart::Skipped
                },
            ),
            Err(e) => r matches Err(f) && f@ == (
                FaultKind::Execution,
                (if init is Create {
                    "Failed to create run record: "@
                } else {
                    "Failed to transition run to Started: "@
                }) + e@,
            ),
        },
{
    match reply {
        Ok(started) => match init {
            RunInit::Create => Ok(RunStart::Go),
            RunInit::Existing => if started {
                Ok(RunStart::Go)
            } else {
                Ok(RunStart::Skipped)
            },
        },
        Err(e) => {
            let mut s = match init {
                RunInit::Create => "Failed to create run record: ".to_owned(),
                RunInit::Existing => "Failed to transition run to Started: ".to_owned(),
            };
            s.append(e.as_str());
            Err(Fault::execution(s))
        },
    }
}

/// What a run hands its caller: the first failure where errors are raised and there
/// is one, else the result.
#[derive(Debug)]
pub enum RunOutcome {
    Raise(StepError),
    Result(RunResult),
}

/// What a finished run hands its caller.
pub fn finish_run(
    run_id: String,
    status: RunStatus,
    node_names: Vec<String>,
    failures: Vec<(String, StepError)>,
    raise_on_error: bool,
) -> (r: RunOutcome)
    ensures
        match r {
            RunOutcome::Raise(e) => raise_on_error && failures@.len() > 0 && e == failures@[0].1,
            RunOutcome::Result(v) => {
                &&& !raise_on_error || failures@.len() == 0
                &&& v.success == (status == RunStatus::Success)
                &&& v.run_id == run_id
                &&& v.materialized_assets == node_names
                &&& pairs_view(v.failed_assets@) == failed_texts(failures_view(failures@))
            },
        },
{
    if raise_on_error && failures.len() > 0 {
        let mut rest = failures;
        let (_, e) = rest.remove(0);
        return RunOutcome::Raise(e);
    }
    RunOutcome::Result(build_run_result(run_id, status, node_names, &failures))
}

} // verus!
