//! What the result of a step amounts to: its items, their versions and metadata, why it
//! failed, how it is called and what it loads.
use vstd::prelude::*;
use crate::errors::{FaultKind, FaultView};
use crate::executor::events::EventView;
use crate::executor::failure::{backoff_at, reason_of, retries_in, Backoff, ExceptionFacts};
use crate::executor::invoke::{call_plan_of, hint_matches, unwrapped, CallPlan, Hint};
use crate::executor::io::{context_of, mapping_for, node_def, upstream_load_of};
use crate::executor::kind::{named_executor, Executor};
use crate::executor::obj::{Obj, NONE_ID};
use crate::executor::outputs::{
    dict_item_view, item_of, layered_item, merged, plain_entries, version_among, walk_request,
    without, yield_target_of, Entry, Extracted, OutputRequest, OutputWalk, ResultKind,
};
use crate::executor::plan::{ExecutionStep, NodeInfo};
use crate::executor::worker::{item_action, reported_kind};
use crate::executor::outputs::ItemView;
use crate::partitions::definition::DefView;
use crate::partitions::facts::KeyFacts;
use crate::partitions::grid::opt_text;
use crate::partitions::key::KeyView;
use crate::partitions::mapping::{resolution, resolution_message, ResolutionView};
use crate::partitions::rules::key_valid;

verus! {

/// Leaving out a name keeps every entry of another name, in order.
pub proof fn lemma_without_keeps(s: Seq<Entry>, name: Seq<char>)
    ensures
        without(s, name) == s.filter(|e: Entry| e.0@ != name),
    decreases s.len(),
{
    reveal(Seq::filter);
    if s.len() > 0 {
        lemma_without_keeps(s.drop_last(), name);
    }
}

/// The metadata of an item is what is no data version, in order.
pub proof fn lemma_plain_keeps(s: Seq<Entry>)
    ensures
        plain_entries(s) == s.filter(|e: Entry| !(e.1 is DataVersion)),
    decreases s.len(),
{
    reveal(Seq::filter);
    if s.len() > 0 {
        lemma_plain_keeps(s.drop_last());
    }
}

/// An overlay entry stands at the end, in place of earlier entries of its name.
pub proof fn lemma_merged_goes_on(target: Seq<Entry>, overlay: Seq<Entry>, e: Entry)
    ensures
        merged(target, Seq::empty()) == target,
        merged(target, overlay.push(e)) == without(merged(target, overlay), e.0@).push(e),
{
    assert(overlay.push(e).drop_last() =~= overlay);
}

/// The last data version among the metadata counts.
pub proof fn lemma_version_among(s: Seq<Entry>)
    ensures
        match version_among(s) {
            Some(v) => exists|i: int|
                0 <= i < s.len() && (#[trigger] s[i]).1 is DataVersion && s[i].1->DataVersion_value@
                    == v && forall|j: int| i < j < s.len() ==> !((#[trigger] s[j]).1 is DataVersion),
            None => forall|i: int| 0 <= i < s.len() ==> !((#[trigger] s[i]).1 is DataVersion),
        },
    decreases s.len(),
{
    if s.len() > 0 {
        let w = s.drop_last();
        if s.last().1 is DataVersion {
            assert(s[s.len() - 1].1 is DataVersion);
        } else {
            lemma_version_among(w);
            match version_among(w) {
                Some(v) => {
                    let i = choose|i: int|
                        0 <= i < w.len() && (#[trigger] w[i]).1 is DataVersion
                            && w[i].1->DataVersion_value@ == v && forall|j: int|
                            i < j < w.len() ==> !((#[trigger] w[j]).1 is DataVersion);
                    assert(s[i] == w[i]);
                    assert forall|j: int| i < j < s.len() implies !((
                    #[trigger] s[j]).1 is DataVersion) by {
                        if j < w.len() {
                            assert(w[j] == s[j]);
                        }
                    }
                },
                None => {
                    assert forall|j: int| 0 <= j < s.len() implies !((
                    #[trigger] s[j]).1 is DataVersion) by {
                        if j < w.len() {
                            assert(w[j] == s[j]);
                        }
                    }
                },
            }
        }
    }
}

/// An item has a value exactly where it is an output; an output without one has the empty
/// value. Only an observation counts as one. Name, metadata and version are as given.
pub proof fn lemma_item(
    kind: ResultKind,
    name: Seq<char>,
    value: Option<Obj>,
    metadata: Seq<Entry>,
    version: Option<Seq<char>>,
)
    ensures
        ({
            let r = item_of(kind, name, value, metadata, version);
            &&& r.name == name && r.metadata == metadata && r.version == version
            &&& r.observation <==> kind is Observation
            &&& r.value is Some <==> kind is Output
            &&& kind is Output && value is Some ==> r.value == value
            &&& kind is Output && value is None ==> r.value == Some(Obj(NONE_ID))
        }),
{
}

/// The version of an item is the one declared for it, else the one declared for all, else
/// the last among its metadata.
pub proof fn lemma_layered_item(
    kind: ResultKind,
    name: Seq<char>,
    value: Option<Obj>,
    under: Seq<Entry>,
    over: Seq<Entry>,
    over_version: Option<Seq<char>>,
    under_version: Option<Seq<char>>,
)
    ensures
        ({
            let r = layered_item(kind, name, value, under, over, over_version, under_version);
            &&& over_version is Some ==> r.version == over_version
            &&& over_version is None && under_version is Some ==> r.version == under_version
            &&& over_version is None && under_version is None ==> r.version == version_among(
                merged(under, over),
            )
            &&& r.name == name
            &&& r.observation <==> kind is Observation
            &&& r.value is Some <==> kind is Output
            &&& kind is Output && value is Some ==> r.value == value
            &&& r.metadata == merged(under, over).filter(|e: Entry| !(e.1 is DataVersion))
        }),
{
    lemma_plain_keeps(merged(under, over));
}

/// An entry of a dictionary of outputs is what it says itself: a plain value is an output
/// with the shared metadata and version, a wrapped one has its own above these.
pub proof fn lemma_dict_item(
    name: Seq<char>,
    slice: Obj,
    ext: Option<Extracted>,
    shared: Seq<Entry>,
    own: Seq<Entry>,
    shared_version: Option<Seq<char>>,
)
    ensures
        ({
            let r = dict_item_view(name, slice, ext, shared, own, shared_version);
            &&& r.name == name
            &&& ext is None ==> {
                &&& r.value == Some(slice) && !r.observation
                &&& r.metadata == shared.filter(|e: Entry| !(e.1 is DataVersion))
                &&& shared_version is Some ==> r.version == shared_version
                &&& shared_version is None ==> r.version == version_among(shared)
            }
            &&& ext matches Some(e) ==> r == layered_item(
                e.kind,
                name,
                e.value,
                shared,
                own,
                opt_text(e.data_version),
                shared_version,
            )
        }),
{
    assert(merged(shared, Seq::empty()) == shared);
    lemma_plain_keeps(shared);
}

/// What is yielded counts where it is wrapped and names an output; one that names an
/// output that was not asked for is left out without a fault.
pub proof fn lemma_yield_target(ext: Option<Extracted>, selected: Seq<Seq<char>>)
    ensures
        ({
            let r = yield_target_of(ext, selected);
            &&& r is Err <==> ext is None || ext->0.output_name is None
            &&& r is Err ==> r->Err_0.0 == FaultKind::Execution
            &&& ext is Some && ext->0.output_name is Some ==> {
                let name = ext->0.output_name->0@;
                &&& selected.contains(name) ==> r->Ok_0 == Some(name)
                &&& !selected.contains(name) ==> r->Ok_0 is None
            }
        }),
{
}

/// What is asked of a result: a single output once, a dictionary for each output that was
/// asked for, a generator until it ends.
pub proof fn lemma_walk_asks(w: OutputWalk)
    ensures
        w.shape is Single ==> (walk_request(w) is Whole <==> w.met == 0) && (walk_request(
            w,
        ) is Done <==> w.met > 0),
        w.shape is Dict && w.met < w.selected ==> walk_request(w) == OutputRequest::Slice(w.met),
        w.shape is Dict && w.met >= w.selected ==> walk_request(w) is Done,
        w.shape is Generator ==> (walk_request(w) is Done <==> w.ended) && (walk_request(
            w,
        ) is Next <==> !w.ended),
{
}

/// An item without a value is reported; one with a value is written where there is a
/// handler. Without a handler one of several outputs is passed over, and a single one is
/// reported.
pub proof fn lemma_item_action(item: ItemView, multi: bool, has_handler: bool)
    ensures
        item_action(item, multi, has_handler) is Write <==> item.value is Some && has_handler,
        item_action(item, multi, has_handler) is Skip <==> item.value is Some && !has_handler
            && multi,
        item_action(item, multi, has_handler) is Report <==> item.value is None || (!has_handler
            && !multi),
{
}

/// A worker reports an item as what it was made from.
pub proof fn lemma_reported_kind(
    kind: ResultKind,
    name: Seq<char>,
    value: Option<Obj>,
    metadata: Seq<Entry>,
    version: Option<Seq<char>>,
)
    ensures
        reported_kind(item_of(kind, name, value, metadata, version)) == kind,
{
}

/// Whether an exception is of a class.
pub open spec fn is_of_class(f: ExceptionFacts, class: Seq<char>) -> bool {
    exists|i: int| 0 <= i < f.mro@.len() && (#[trigger] f.mro@[i])@ == class
}

/// The reason of a failure. Running out of memory comes before a timeout, that before a
/// cancellation, and that before the death of a worker process; anything else is an error
/// of the step.
pub proof fn lemma_reason(f: ExceptionFacts)
    ensures
        ({
            let r = reason_of(f);
            let cancelled = f.interrupt || is_of_class(f, "asyncio.exceptions.CancelledError"@);
            let died = is_of_class(f, "loky.process_executor.TerminatedWorkerError"@)
                || is_of_class(f, "concurrent.futures.process.BrokenProcessPool"@) || is_of_class(
                f,
                "concurrent.futures._base.BrokenExecutor"@,
            );
            &&& r is OutOfMemory <==> f.memory
            &&& r is Timeout <==> !f.memory && f.timeout
            &&& r is Cancelled <==> !f.memory && !f.timeout && cancelled
            &&& r is Infrastructure <==> !f.memory && !f.timeout && !cancelled && died
            &&& r is Error <==> !f.memory && !f.timeout && !cancelled && !died
        }),
{
    let t = crate::text::texts(f.mro@);
    let c = "asyncio.exceptions.CancelledError"@;
    let infra = crate::executor::failure::infra_types();
    if t.contains(c) {
        let i = choose|i: int| 0 <= i < t.len() && t[i] == c;
        assert(f.mro@[i]@ == c);
    }
    if is_of_class(f, c) {
        let i = choose|i: int| 0 <= i < f.mro@.len() && (#[trigger] f.mro@[i])@ == c;
        assert(t[i] == c);
    }
    assert(infra[0] == "loky.process_executor.TerminatedWorkerError"@);
    assert(infra[1] == "concurrent.futures.process.BrokenProcessPool"@);
    assert(infra[2] == "concurrent.futures._base.BrokenExecutor"@);
    if exists|i: int| 0 <= i < f.mro@.len() && infra.contains((#[trigger] f.mro@[i])@) {
        let i = choose|i: int| 0 <= i < f.mro@.len() && infra.contains((#[trigger] f.mro@[i])@);
        let j = choose|j: int| 0 <= j < infra.len() && infra[j] == f.mro@[i]@;
        assert(j == 0 || j == 1 || j == 2);
    }
}

/// A backoff is slept in slices of a second, of which only the last may be shorter.
pub proof fn lemma_backoff_slices(remaining: u64)
    ensures
        backoff_at(remaining) is Over <==> remaining == 0,
        backoff_at(remaining) matches Backoff::Slice(n) ==> n == 1_000_000_000 && n < remaining,
        backoff_at(remaining) matches Backoff::Last(n) ==> n == remaining && 0 < n
            <= 1_000_000_000,
{
}

/// Every record of a retry counts, and no other.
pub proof fn lemma_retries_counted(s: Seq<EventView>)
    ensures
        retries_in(s) == s.filter(|e: EventView| e.kind is StepRetry).len(),
    decreases s.len(),
{
    reveal(Seq::filter);
    if s.len() > 0 {
        lemma_retries_counted(s.drop_last());
    }
}

/// A result is of the declared type where nothing is declared, where it is an instance, or
/// where it is none and none is allowed; of a union one member is enough.
pub proof fn lemma_hint(h: Hint, result_is_none: bool)
    ensures
        h is Open ==> hint_matches(h, result_is_none),
        h matches Hint::Generic(instance) ==> hint_matches(h, result_is_none) == instance,
        h matches Hint::Plain { is_none_type, instance } ==> (hint_matches(h, result_is_none)
            <==> instance || (result_is_none && is_none_type)),
        h matches Hint::Union(args) ==> (hint_matches(h, result_is_none) <==> exists|i: int|
            0 <= i < args@.len() && ((#[trigger] args@[i]).instance || (result_is_none
                && args@[i].is_none_type))),
{
    if let Hint::Union(args) = h {
        if hint_matches(h, result_is_none) {
            let i = choose|i: int|
                0 <= i < args@.len() && ((result_is_none && (#[trigger] args@[i]).is_none_type)
                    || args@[i].instance);
            assert(args@[i].instance || (result_is_none && args@[i].is_none_type));
        }
        if exists|i: int|
            0 <= i < args@.len() && ((#[trigger] args@[i]).instance || (result_is_none
                && args@[i].is_none_type)) {
            let i = choose|i: int|
                0 <= i < args@.len() && ((#[trigger] args@[i]).instance || (result_is_none
                    && args@[i].is_none_type));
            assert((result_is_none && args@[i].is_none_type) || args@[i].instance);
        }
    }
}

/// How a step is called. A generator counts only for several outputs; an asynchronous step
/// is awaited and needs an event loop; a shell task has no annotations.
pub proof fn lemma_call_plan(
    nodes: Map<Seq<char>, NodeInfo>,
    step: ExecutionStep,
    generator: Option<bool>,
    event_loop: bool,
)
    ensures
        ({
            let r = call_plan_of(nodes, step, generator, event_loop);
            let known = nodes.dom().contains(step.name@);
            let node = nodes[step.name@];
            let yields = step.outputs@.len() > 0 && generator is Some;
            &&& r is Err ==> r->Err_0.0 == FaultKind::Execution
            &&& r is Err <==> !known || (node.has_annotations && !yields && node.is_async
                && !event_loop) || (!node.has_annotations && !node.is_bash_task)
            &&& known && node.has_annotations && yields ==> r == Ok::<CallPlan, FaultView>(
                CallPlan::Generator(generator->0),
            )
            &&& known && node.has_annotations && !yields && !node.is_async ==> r == Ok::<
                CallPlan,
                FaultView,
            >(CallPlan::Call)
            &&& known && node.has_annotations && !yields && node.is_async && event_loop ==> r
                == Ok::<CallPlan, FaultView>(CallPlan::Await)
            &&& known && !node.has_annotations && node.is_bash_task ==> r == Ok::<
                CallPlan,
                FaultView,
            >(CallPlan::Shell)
        }),
{
}

/// A wrapped result stands for its value, or for none where it has no value; any other for
/// itself.
pub proof fn lemma_unwrapped(raw: Obj, ext: Option<Extracted>)
    ensures
        ext is None ==> unwrapped(raw, ext) == raw,
        ext is Some && ext->0.value is Some ==> unwrapped(raw, ext) == ext->0.value->0,
        ext is Some && ext->0.value is None ==> unwrapped(raw, ext) == Obj(NONE_ID),
{
}

/// Metadata can name two executors; any other name is a fault of the configuration.
pub proof fn lemma_named_executor(value: Seq<char>, workers: usize)
    ensures
        named_executor(value, workers) is Ok <==> value == "in_process"@ || value == "parallel"@,
        named_executor(value, workers) is Err ==> named_executor(value, workers)->Err_0.0
            == FaultKind::Configuration,
        value == "in_process"@ ==> named_executor(value, workers)->Ok_0 is InProcess,
        value == "parallel"@ ==> named_executor(value, workers)->Ok_0 == (Executor::Parallel {
            max_workers: workers,
            max_async_concurrent: None,
        }),
{
    reveal_strlit("in_process");
    reveal_strlit("parallel");
    assert("in_process"@.len() != "parallel"@.len());
}

/// Without a key there is no partition to speak of, and a key needs a partitioned node.
/// Where the key is looked at, it is one of the definition's; the fault of a definition
/// that cannot be read is passed on.
pub proof fn lemma_context(
    name: Seq<char>,
    def: Option<DefView>,
    key: Option<KeyView>,
    checked: bool,
    facts: KeyFacts,
)
    ensures
        ({
            let r = context_of(name, def, key, checked, facts);
            &&& key is None ==> r == Ok::<Option<(KeyView, DefView)>, FaultView>(None)
            &&& key is Some && def is None ==> r is Err && r->Err_0.0 == FaultKind::Validation
            &&& key is Some && def is Some && !checked ==> r == Ok::<
                Option<(KeyView, DefView)>,
                FaultView,
            >(Some((key->0, def->0)))
            &&& key is Some && def is Some && checked ==> {
                let valid = key_valid(def->0, facts.now.at(), key->0, facts.readings);
                &&& valid is Err ==> r is Err && r->Err_0 == valid->Err_0
                &&& valid is Ok && valid->Ok_0 ==> r == Ok::<
                    Option<(KeyView, DefView)>,
                    FaultView,
                >(Some((key->0, def->0)))
                &&& valid is Ok && !valid->Ok_0 ==> r is Err && r->Err_0.0
                    == FaultKind::Validation
            }
        }),
{
}

/// An upstream is mapped as the node declares for it, and by the identity where it
/// declares nothing.
pub proof fn lemma_mapping_for(down: NodeInfo, upstream: Seq<char>)
    ensures
        down.partition_mapping@.dom().contains(upstream) ==> mapping_for(down, upstream)
            == down.partition_mapping@[upstream],
        !down.partition_mapping@.dom().contains(upstream) ==> mapping_for(down, upstream)
            is Identity,
{
}

/// An upstream is loaded with the key that its mapping gives, and is left out where the
/// mapping says so. A key that came from a declared mapping is taken as it is; one that was
/// passed on unmapped has to be valid for the upstream.
pub proof fn lemma_upstream_load(
    param: Seq<char>,
    up_name: Seq<char>,
    down: NodeInfo,
    up: NodeInfo,
    key: Option<KeyView>,
    facts: KeyFacts,
)
    ensures
        ({
            let r = upstream_load_of(param, up_name, down, up, key, facts);
            let resolved = resolution(
                mapping_for(down, param),
                key,
                node_def(down),
                node_def(up),
                facts,
            );
            let declared = down.partition_mapping@.dom().contains(param);
            &&& resolved is Err ==> r is Err && r->Err_0 == (
                FaultKind::Validation,
                resolution_message(resolved->Err_0),
            )
            &&& resolved is Ok && resolved->Ok_0 is Skip ==> r is Ok && r->Ok_0 is None
            &&& resolved matches Ok(ResolutionView::Load(k)) ==> {
                let c = context_of(up_name, node_def(up), k, !declared, facts);
                &&& c is Ok ==> r is Ok && r->Ok_0 == Some(c->Ok_0)
                &&& c is Err ==> r is Err && r->Err_0 == c->Err_0
            }
        }),
{
}

} // verus!
