//! How the instances of a batch run in this process: first those that are not
//! asynchronous, one after the other, then the others.
use vstd::prelude::*;
use vstd::string::*;
use crate::executor::batch::{execution_error, recorded_failure, Batch};
use crate::executor::events::CapturedLogs;
use crate::executor::obj::Obj;
use crate::executor::orchestrate::{collect_fault, instances_view, StepInstance};
use crate::executor::parallel::by_async;
use crate::names::NameMap;


verus! {

/// How many asynchronous instances run at once in this process.
pub const ASYNC_MAX_CONCURRENT: usize = 4;

/// Splits the instances of a batch by whether they are asynchronous: those that are
/// not come first.
pub fn split_async(instances: Vec<StepInstance>) -> (r: (Vec<StepInstance>, Vec<StepInstance>))
    ensures
        instances_view(r.0@) == by_async(instances_view(instances@), false),
        instances_view(r.1@) == by_async(instances_view(instances@), true),
{
    let ghost src = instances@;
    let ghost s = instances_view(src);
    let mut rest = instances;
    let mut plain: Vec<StepInstance> = Vec::new();
    let mut asynchronous: Vec<StepInstance> = Vec::new();
    let ghost mut n: int = 0;
    proof {
        assert(s.take(0) =~= Seq::empty());
        assert(src.skip(0) =~= src);
        assert(instances_view(plain@) =~= Seq::empty());
        assert(instances_view(asynchronous@) =~= Seq::empty());
    }
    while rest.len() > 0
        invariant
            0 <= n <= s.len(),
            s == instances_view(src),
            rest@ == src.skip(n),
            instances_view(plain@) == by_async(s.take(n), false),
            instances_view(asynchronous@) == by_async(s.take(n), true),
        decreases rest@.len(),
    {
        let inst = rest.remove(0);
        let ghost iv = inst@;
        proof {
            assert(src.skip(n)[0] == src[n]);
            assert(rest@ =~= src.skip(n + 1));
            assert(s.take(n + 1).drop_last() =~= s.take(n));
            assert(s.take(n + 1).last() == iv);
        }
        if inst.is_async {
            let ghost prev = instances_view(asynchronous@);
            asynchronous.push(inst);
            proof {
                assert(instances_view(asynchronous@) =~= prev.push(iv));
            }
        } else {
            let ghost prev = instances_view(plain@);
            plain.push(inst);
            proof {
                assert(instances_view(plain@) =~= prev.push(iv));
            }
        }
        proof {
            n = n + 1;
        }
    }
    proof {
        assert(s.take(n) =~= s);
    }
    (plain, asynchronous)
}

/// The inputs that a step is given: the collected ones and, for a map instance, its
/// item under the name of the source.
pub fn given_inputs(collected: NameMap<Obj>, fan_out: Option<(String, Obj)>) -> (r: NameMap<Obj>)
    requires
        collected.wf(),
    ensures
        r.wf(),
        r@ == match fan_out {
            Some((source, item)) => collected@.insert(source@, item),
            None => collected@,
        },
{
    let mut out = collected;
    if let Some((source, item)) = fan_out {
        out.insert(source, item);
    }
    out
}

/// How many permits a limit on asynchronous instances stands for: at least one.
pub fn async_permits(limit: Option<usize>) -> (r: Option<usize>)
    ensures
        match limit {
            Some(n) => r == Some(
                if n == 0 {
                    1usize
                } else {
                    n
                },
            ),
            None => r is None,
        },
{
    match limit {
        Some(n) => Some(
            if n == 0 {
                1
            } else {
                n
            },
        ),
        None => None,
    }
}

/// What was captured of a step: nothing where the capture could not be ended.
pub fn captured_streams(finished: Option<(String, String)>, logs: String) -> (r: Option<
    CapturedLogs,
>)
    ensures
        match finished {
            Some((out, err)) => r is Some && r->0@ == (out@, err@, logs@),
            None => r is None,
        },
{
    match finished {
        Some((stdout, stderr)) => Some(CapturedLogs { stdout, stderr, logs }),
        None => None,
    }
}

impl Batch {
    /// A collected input of a step could not be loaded: the step fails and is not
    /// run.
    pub fn collect_failed(&mut self, step_name: &str, input: &str, error: &str, ts: i64)
        requires
            old(self).wf(),
        ensures
            final(self).wf(),
            final(self)@ == recorded_failure(
                old(self)@,
                step_name@,
                execution_error(
                    "Failed to resolve collect input '"@ + input@ + "': "@ + error@,
                ),
                old(self)@.own_class,
                ts,
            ),
    {
        self.record_own_failure(step_name, collect_fault(input, error), ts);
    }
}

} // verus!
