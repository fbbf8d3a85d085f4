//! How the function of a step is called and what its result is worth.
use vstd::prelude::*;
use vstd::string::*;
use crate::errors::{Fault, FaultKind, FaultView};
use crate::executor::obj::{Obj, NONE_ID};
use crate::executor::outputs::{
    copy_opt, entry_refs, merge_metadata, merged, opt_ext, or_version, own_entries, vals,
    version_or, Entry, Extracted, ResultKind,
};
use crate::executor::plan::{ExecutionStep, NodeInfo, NodeMap};
use crate::partitions::grid::opt_text;
use crate::text::{say3, say7};

verus! {

/// One alternative of a union hint: whether it is the type of no value, and whether
/// the result is an instance of it.
#[derive(Debug)]
pub struct UnionArg {
    pub is_none_type: bool,
    pub instance: bool,
}

/// What is known of a declared return type and the result.
#[derive(Debug)]
pub enum Hint {
    /// There is none, or it is no value, an output wrapper or anything.
    Open,
    /// A union of alternatives.
    Union(Vec<UnionArg>),
    /// A generic container; whether the result is one.
    Generic(bool),
    /// A plain type: whether it is the type of no value, and whether the result is an
    /// instance of it.
    Plain { is_none_type: bool, instance: bool },
}

/// Whether a result matches its declared type.
pub open spec fn hint_matches(h: Hint, result_is_none: bool) -> bool {
    match h {
        Hint::Open => true,
        Hint::Union(args) => exists|i: int|
            0 <= i < args@.len() && ((result_is_none && (#[trigger] args@[i]).is_none_type)
                || args@[i].instance),
        Hint::Generic(instance) => instance,
        Hint::Plain { is_none_type, instance } => (result_is_none && is_none_type) || instance,
    }
}

/// The message of a result of another type.
pub open spec fn type_message(step: Seq<char>, found: Seq<char>, expected: Seq<char>) -> Seq<char> {
    "Asset '"@ + step + "' returned value of type '"@ + found + "' but expected '"@ + expected
        + "'"@
}

/// Validate that a return value matches the declared return type hint. `found` and
/// `expected` are the names of the types.
pub fn validate_return_type(
    hint: &Hint,
    result_is_none: bool,
    step_name: &str,
    found: &str,
    expected: &str,
) -> (r: Result<(), Fault>)
    ensures
        match r {
            Ok(_) => hint_matches(*hint, result_is_none),
            Err(e) => !hint_matches(*hint, result_is_none) && e@ == (
                FaultKind::OutputValidation,
                type_message(step_name@, found@, expected@),
            ),
        },
{
    let ok = match hint {
        Hint::Open => true,
        Hint::Union(args) => {
            let mut hit = false;
            let mut i: usize = 0;
            while i < args.len()
                invariant
                    i <= args@.len(),
                    hit == exists|j: int|
                        0 <= j < i && ((result_is_none && (#[trigger] args@[j]).is_none_type)
                            || args@[j].instance),
                decreases args@.len() - i,
            {
                if (result_is_none && args[i].is_none_type) || args[i].instance {
                    proof {
                        let a = args@[i as int];
                        assert((result_is_none && a.is_none_type) || a.instance);
                    }
                    hit = true;
                }
                i += 1;
            }
            hit
        },
        Hint::Generic(instance) => *instance,
        Hint::Plain { is_none_type, instance } => (result_is_none && *is_none_type) || *instance,
    };
    if ok {
        Ok(())
    } else {
        Err(
            Fault::new(
                FaultKind::OutputValidation,
                say7(
                    "Asset '",
                    step_name,
                    "' returned value of type '",
                    found,
                    "' but expected '",
                    expected,
                    "'",
                ),
            ),
        )
    }
}

/// How the function of a step is called.
#[derive(Clone, Copy, PartialEq, Eq, Structural, Debug)]
pub enum CallPlan {
    /// It yields its outputs; the flag holds for an asynchronous one.
    Generator(bool),
    /// It is called.
    Call,
    /// It is called and what it returns is awaited.
    Await,
    /// It is called without arguments.
    Shell,
}

/// How the function of a step is called, or why it is not. `generator` says whether
/// it yields, and whether it does so asynchronously; `event_loop` whether something can be
/// awaited.
pub open spec fn call_plan_of(
    nodes: Map<Seq<char>, NodeInfo>,
    step: ExecutionStep,
    generator: Option<bool>,
    event_loop: bool,
) -> Result<CallPlan, FaultView> {
    if !nodes.dom().contains(step.name@) {
        Err(
            (
                FaultKind::Execution,
                "Node '"@ + step.name@ + "' not found in execution plan"@,
            ),
        )
    } else {
        let node = nodes[step.name@];
        if node.has_annotations {
            if step.outputs@.len() > 0 && generator is Some {
                Ok(CallPlan::Generator(generator->0))
            } else if !node.is_async {
                Ok(CallPlan::Call)
            } else if event_loop {
                Ok(CallPlan::Await)
            } else {
                Err(
                    (
                        FaultKind::Execution,
                        "Async node '"@ + step.name@
                            + "' requires TaskLocals — this is an internal error"@,
                    ),
                )
            }
        } else if node.is_bash_task {
            Ok(CallPlan::Shell)
        } else {
            Err(
                (
                    FaultKind::Execution,
                    "Node '"@ + step.name@
                        + "' has no annotations and is not a BashTask — cannot execute"@,
                ),
            )
        }
    }
}

/// How the function of a step is called.
pub fn execute_step(
    nodes: &NodeMap,
    step: &ExecutionStep,
    generator: Option<bool>,
    event_loop: bool,
) -> (r: Result<CallPlan, Fault>)
    ensures
        match r {
            Ok(c) => call_plan_of(nodes@, *step, generator, event_loop) == Ok::<
                CallPlan,
                FaultView,
            >(c),
            Err(e) => call_plan_of(nodes@, *step, generator, event_loop) == Err::<
                CallPlan,
                FaultView,
            >(e@),
        },
{
    let node = match nodes.get(step.name.as_str()) {
        Some(n) => n,
        None => {
            return Err(
                Fault::execution(
                    say3("Node '", step.name.as_str(), "' not found in execution plan"),
                ),
            );
        },
    };
    if node.has_annotations {
        if step.outputs.len() > 0 {
            if let Some(asynchronous) = generator {
                return Ok(CallPlan::Generator(asynchronous));
            }
        }
        if !node.is_async {
            Ok(CallPlan::Call)
        } else if event_loop {
            Ok(CallPlan::Await)
        } else {
            Err(
                Fault::execution(
                    say3(
                        "Async node '",
                        step.name.as_str(),
                        "' requires TaskLocals — this is an internal error",
                    ),
                ),
            )
        }
    } else if node.is_bash_task {
        Ok(CallPlan::Shell)
    } else {
        Err(
            Fault::execution(
                say3(
                    "Node '",
                    step.name.as_str(),
                    "' has no annotations and is not a BashTask — cannot execute",
                ),
            ),
        )
    }
}

/// The result of a step with its wrappers taken off and its metadata merged.
#[derive(Debug)]
pub struct ProcessedResult<'a> {
    pub result: Obj,
    pub output_metadata: Vec<&'a Entry>,
    pub data_version: Option<String>,
    pub dynamic_keys: Option<Vec<String>>,
    pub kind: ResultKind,
}

/// The value of a result: that of its wrapper, where it has one.
pub open spec fn unwrapped(raw: Obj, ext: Option<Extracted>) -> Obj {
    match ext {
        Some(e) => match e.value {
            Some(v) => v,
            None => Obj(NONE_ID),
        },
        None => raw,
    }
}

/// The value of a result, as its type is checked.
pub fn unwrap_result(raw: Obj, ext: Option<&Extracted>) -> (r: Obj)
    ensures
        r == unwrapped(raw, opt_ext(ext)),
{
    match ext {
        Some(e) => match e.value {
            Some(v) => v,
            None => Obj(NONE_ID),
        },
        None => raw,
    }
}

/// Puts the result of a step together: `ctx_metadata` and `ctx_version` are what its
/// context holds, `dynamic` the values and keys of a list of dynamic outputs. What the
/// result's own wrapper says counts above the context.
pub fn process_raw_result<'a>(
    raw: Obj,
    ext: Option<&'a Extracted>,
    ctx_metadata: &'a Vec<Entry>,
    ctx_version: Option<String>,
    dynamic: Option<(Obj, Vec<String>)>,
) -> (r: ProcessedResult<'a>)
    ensures
        r.result == match dynamic {
            Some(d) => d.0,
            None => unwrapped(raw, opt_ext(ext)),
        },
        vals(r.output_metadata@) == merged(ctx_metadata@, own_entries(ext)),
        opt_text(r.data_version) == or_version(
            match ext {
                Some(e) => opt_text(e.data_version),
                None => None,
            },
            opt_text(ctx_version),
        ),
        r.kind == match ext {
            Some(e) => e.kind,
            None => ResultKind::Output,
        },
        match dynamic {
            Some(d) => r.dynamic_keys == Some(d.1),
            None => r.dynamic_keys is None,
        },
{
    let (own, version, kind) = match ext {
        Some(e) => (entry_refs(&e.metadata), copy_opt(&e.data_version), e.kind),
        None => (Vec::new(), None, ResultKind::Output),
    };
    proof {
        assert(vals(own@) =~= own_entries(ext));
    }
    let output_metadata = merge_metadata(entry_refs(ctx_metadata), &own);
    let data_version = version_or(version, ctx_version);
    let plain = unwrap_result(raw, ext);
    let (result, dynamic_keys) = match dynamic {
        Some((values, keys)) => (values, Some(keys)),
        None => (plain, None),
    };
    ProcessedResult { result, output_metadata, data_version, dynamic_keys, kind }
}

} // verus!
