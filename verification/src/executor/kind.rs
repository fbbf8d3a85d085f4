//! The executors that a plan can run on.
use vstd::prelude::*;
use vstd::string::*;
use crate::errors::{Fault, FaultKind, FaultView};
use crate::partitions::grid::opt_text;
use crate::text::{decimal, decimal_text, same_text, say3, say5};

verus! {

/// An executor.
#[derive(Debug)]
pub enum Executor {
    InProcess,
    Parallel { max_workers: usize, max_async_concurrent: Option<usize> },
    Kubernetes {
        worker_image: Option<String>,
        max_concurrent_steps: Option<usize>,
        namespace: Option<String>,
        service_account: String,
        worker_cpu: String,
        worker_memory: String,
    },
}

/// How an optional setting is shown.
pub open spec fn auto_form(s: Option<Seq<char>>) -> Seq<char> {
    match s {
        Some(v) => "'"@ + v + "'"@,
        None => "auto"@,
    }
}

fn auto_text(s: &Option<String>) -> (r: String)
    ensures
        r@ == auto_form(opt_text(*s)),
{
    match s {
        Some(v) => say3("'", v.as_str(), "'"),
        None => "auto".to_owned(),
    }
}

/// The printed form of an executor.
pub open spec fn executor_repr(e: Executor) -> Seq<char> {
    match e {
        Executor::InProcess => "Executor.InProcess()"@,
        Executor::Parallel { max_workers, max_async_concurrent } => match max_async_concurrent {
            Some(n) => "Executor.Parallel(max_workers="@ + decimal(max_workers as nat)
                + ", max_async_concurrent="@ + decimal(n as nat) + ")"@,
            None => "Executor.Parallel(max_workers="@ + decimal(max_workers as nat) + ")"@,
        },
        Executor::Kubernetes { worker_image, namespace, .. } =>
            "Executor.Kubernetes(worker_image="@ + auto_form(opt_text(worker_image))
            + ", namespace="@ + auto_form(opt_text(namespace)) + ")"@,
    }
}

/// The executor that a metadata value names, or why it names none.
pub open spec fn named_executor(value: Seq<char>, workers: usize) -> Result<Executor, FaultView> {
    if value == "in_process"@ {
        Ok(Executor::InProcess)
    } else if value == "parallel"@ {
        Ok(Executor::Parallel { max_workers: workers, max_async_concurrent: None })
    } else {
        Err(
            (
                FaultKind::Configuration,
                "Unknown executor in rivers/executor metadata: '"@ + value
                    + "'. Valid values: 'in_process', 'parallel'"@,
            ),
        )
    }
}

impl Executor {
    pub fn in_process() -> (r: Self)
        ensures
            r == Executor::InProcess,
    {
        Executor::InProcess
    }

    /// An executor of worker processes; `available` is how many there are unless the
    /// caller says otherwise.
    pub fn parallel(
        max_workers: Option<usize>,
        max_async_concurrent: Option<usize>,
        available: usize,
    ) -> (r: Self)
        ensures
            r == (Executor::Parallel {
                max_workers: match max_workers {
                    Some(n) => n,
                    None => available,
                },
                max_async_concurrent,
            }),
    {
        Executor::Parallel {
            max_workers: match max_workers {
                Some(n) => n,
                None => available,
            },
            max_async_concurrent,
        }
    }

    /// Each step in a pod of its own.
    pub fn kubernetes(
        worker_image: Option<String>,
        max_concurrent_steps: Option<usize>,
        namespace: Option<String>,
        service_account: String,
        worker_cpu: String,
        worker_memory: String,
    ) -> (r: Self)
        ensures
            r == (Executor::Kubernetes {
                worker_image,
                max_concurrent_steps,
                namespace,
                service_account,
                worker_cpu,
                worker_memory,
            }),
    {
        Executor::Kubernetes {
            worker_image,
            max_concurrent_steps,
            namespace,
            service_account,
            worker_cpu,
            worker_memory,
        }
    }

    /// The printed form of the executor.
    pub fn repr(&self) -> (r: String)
        ensures
            r@ == executor_repr(*self),
    {
        match self {
            Executor::InProcess => "Executor.InProcess()".to_owned(),
            Executor::Parallel { max_workers, max_async_concurrent } => match max_async_concurrent {
                Some(n) => say5(
                    "Executor.Parallel(max_workers=",
                    decimal_text(*max_workers as u64).as_str(),
                    ", max_async_concurrent=",
                    decimal_text(*n as u64).as_str(),
                    ")",
                ),
                None => say3(
                    "Executor.Parallel(max_workers=",
                    decimal_text(*max_workers as u64).as_str(),
                    ")",
                ),
            },
            Executor::Kubernetes { worker_image, namespace, .. } => say5(
                "Executor.Kubernetes(worker_image=",
                auto_text(worker_image).as_str(),
                ", namespace=",
                auto_text(namespace).as_str(),
                ")",
            ),
        }
    }

    /// The executor that a metadata value names.
    pub fn from_metadata(value: &str, available: usize) -> (r: Result<Self, Fault>)
        ensures
            match r {
                Ok(e) => named_executor(value@, available) == Ok::<Executor, FaultView>(e),
                Err(f) => named_executor(value@, available) == Err::<Executor, FaultView>(f@),
            },
    {
        if same_text(value, "in_process") {
            Ok(Executor::InProcess)
        } else if same_text(value, "parallel") {
            Ok(Executor::Parallel { max_workers: available, max_async_concurrent: None })
        } else {
            Err(
                Fault::new(
                    FaultKind::Configuration,
                    say3(
                        "Unknown executor in rivers/executor metadata: '",
                        value,
                        "'. Valid values: 'in_process', 'parallel'",
                    ),
                ),
            )
        }
    }
}

} // verus!
