//! Which partitions a step writes and reads, and how values cross processes.
use vstd::prelude::*;
use vstd::string::*;
use crate::errors::{Fault, FaultKind, FaultView};
use crate::executor::events::key_or_none;
use crate::executor::plan::NodeInfo;
use crate::partitions::context::PartitionContext;
use crate::partitions::debug::key_form;
use crate::partitions::definition::DefView;
use crate::partitions::facts::KeyFacts;
use crate::partitions::key::{lemma_keys_view, KeyView, PyPartitionKey};
use crate::partitions::key_range::opt_def;
use crate::partitions::mapping::{
    opt_key, resolution, resolution_message, PartitionMapping, ResolutionView,
    UpstreamKeyResolution,
};
use crate::partitions::rules::key_valid;
use crate::text::{contains_text, occurs_in, say3, say5};

verus! {

/// What the definition of a node is, where it has one.
pub open spec fn node_def(n: NodeInfo) -> Option<DefView> {
    match n.partitions_def {
        Some(d) => Some(d@),
        None => None,
    }
}

/// The message for a key on a node without partitions.
pub open spec fn unpartitioned_message(name: Seq<char>) -> Seq<char> {
    "Node '"@ + name + "' is not partitioned, but a partition_key was provided"@
}

/// The context of a step: none without a key, else the key and the definition of the
/// node, which must have one and, where `checked` holds, must accept the key.
pub open spec fn context_of(
    name: Seq<char>,
    def: Option<DefView>,
    key: Option<KeyView>,
    checked: bool,
    facts: KeyFacts,
) -> Result<Option<(KeyView, DefView)>, FaultView> {
    match key {
        None => Ok(None),
        Some(k) => match def {
            None => Err((FaultKind::Validation, unpartitioned_message(name))),
            Some(d) => if checked {
                match key_valid(d, facts.now.at(), k, facts.readings) {
                    Err(e) => Err(e),
                    Ok(true) => Ok(Some((k, d))),
                    Ok(false) => Err(
                        (
                            FaultKind::Validation,
                            "Partition key "@ + key_form(k) + " is not valid for node '"@ + name
                                + "'"@,
                        ),
                    ),
                }
            } else {
                Ok(Some((k, d)))
            },
        },
    }
}

/// Whether a context is what the specification gives.
pub open spec fn says_context(
    r: Result<Option<PartitionContext>, Fault>,
    spec: Result<Option<(KeyView, DefView)>, FaultView>,
) -> bool {
    match r {
        Ok(None) => spec == Ok::<Option<(KeyView, DefView)>, FaultView>(None),
        Ok(Some(c)) => {
            &&& c.wf()
            &&& c.keys@.len() == 1
            &&& spec == Ok::<Option<(KeyView, DefView)>, FaultView>(
                Some((c.keys@[0]@, c.definition@)),
            )
        },
        Err(e) => spec == Err::<Option<(KeyView, DefView)>, FaultView>(e@),
    }
}

fn context_for(
    name: &str,
    node: &NodeInfo,
    key: &Option<PyPartitionKey>,
    checked: bool,
    facts: &KeyFacts,
) -> (r: Result<Option<PartitionContext>, Fault>)
    requires
        node.wf(),
        key matches Some(k) ==> k.wf(),
        facts.wf(),
    ensures
        says_context(
            r,
            context_of(name@, node_def(*node), key_or_none(*key), checked, *facts),
        ),
{
    let k = match key {
        Some(k) => k,
        None => {
            return Ok(None);
        },
    };
    let def = match &node.partitions_def {
        Some(d) => d,
        None => {
            return Err(
                Fault::new(
                    FaultKind::Validation,
                    say3(
                        "Node '",
                        name,
                        "' is not partitioned, but a partition_key was provided",
                    ),
                ),
            );
        },
    };
    if checked {
        match def.validate_partition_key_at(k, facts.now, &facts.readings) {
            Ok(true) => {},
            Ok(false) => {
                return Err(
                    Fault::new(
                        FaultKind::Validation,
                        say5(
                            "Partition key ",
                            k.debug_text().as_str(),
                            " is not valid for node '",
                            name,
                            "'",
                        ),
                    ),
                );
            },
            Err(e) => {
                return Err(e);
            },
        }
    }
    let c = PartitionContext::new(k.copy(), def.copy());
    proof {
        lemma_keys_view(c.keys@);
        assert(c.keys@[0].wf());
    }
    Ok(Some(c))
}

/// The context of a step, for a key that the node must accept.
pub fn build_partition_context(
    name: &str,
    node: &NodeInfo,
    partition_key: &Option<PyPartitionKey>,
    facts: &KeyFacts,
) -> (r: Result<Option<PartitionContext>, Fault>)
    requires
        node.wf(),
        partition_key matches Some(k) ==> k.wf(),
        facts.wf(),
    ensures
        says_context(
            r,
            context_of(name@, node_def(*node), key_or_none(*partition_key), true, *facts),
        ),
{
    context_for(name, node, partition_key, true, facts)
}

/// The context for a mapped upstream key, which need not be one of the upstream's
/// own: a mapping may give a key of one dimension for several.
pub fn build_mapped_partition_context(
    name: &str,
    node: &NodeInfo,
    partition_key: &Option<PyPartitionKey>,
    facts: &KeyFacts,
) -> (r: Result<Option<PartitionContext>, Fault>)
    requires
        node.wf(),
        partition_key matches Some(k) ==> k.wf(),
        facts.wf(),
    ensures
        says_context(
            r,
            context_of(name@, node_def(*node), key_or_none(*partition_key), false, *facts),
        ),
{
    context_for(name, node, partition_key, false, facts)
}

/// The mapping that applies to an upstream: the one that the node names, else each key
/// maps to itself.
pub open spec fn mapping_for(down: NodeInfo, upstream: Seq<char>) -> PartitionMapping {
    if down.partition_mapping@.dom().contains(upstream) {
        down.partition_mapping@[upstream]
    } else {
        PartitionMapping::Identity
    }
}

/// How an upstream is loaded for a key.
pub open spec fn upstream_resolution(
    upstream: Seq<char>,
    down: NodeInfo,
    up: NodeInfo,
    key: Option<KeyView>,
    facts: KeyFacts,
) -> Result<ResolutionView, FaultView> {
    match resolution(mapping_for(down, upstream), key, node_def(down), node_def(up), facts) {
        Ok(v) => Ok(v),
        Err(e) => Err((FaultKind::Validation, resolution_message(e))),
    }
}

/// Apply the downstream node's mapping to decide how to load the upstream.
pub fn map_partition_key_for_upstream(
    upstream_name: &str,
    downstream: &NodeInfo,
    upstream: &NodeInfo,
    partition_key: &Option<PyPartitionKey>,
    facts: &KeyFacts,
) -> (r: Result<UpstreamKeyResolution, Fault>)
    requires
        downstream.wf(),
        upstream.wf(),
        partition_key matches Some(k) ==> k.wf(),
        facts.wf(),
    ensures
        match r {
            Ok(v) => {
                &&& upstream_resolution(
                    upstream_name@,
                    *downstream,
                    *upstream,
                    key_or_none(*partition_key),
                    *facts,
                ) == Ok::<ResolutionView, FaultView>(v@)
                &&& v matches UpstreamKeyResolution::Load(Some(k)) ==> k.wf()
            },
            Err(e) => upstream_resolution(
                upstream_name@,
                *downstream,
                *upstream,
                key_or_none(*partition_key),
                *facts,
            ) == Err::<ResolutionView, FaultView>(e@),
        },
{
    let key = match partition_key {
        Some(k) => Some(k),
        None => None,
    };
    let down_def = match &downstream.partitions_def {
        Some(d) => Some(d),
        None => None,
    };
    let up_def = match &upstream.partitions_def {
        Some(d) => Some(d),
        None => None,
    };
    proof {
        assert(opt_key(key) == key_or_none(*partition_key));
        assert(opt_def(down_def) == node_def(*downstream));
        assert(opt_def(up_def) == node_def(*upstream));
        assert(PartitionMapping::Identity.wf());
    }
    let result = match downstream.partition_mapping.get(upstream_name) {
        Some(m) => m.resolve_upstream_key(key, down_def, up_def, facts),
        None => PartitionMapping::Identity.resolve_upstream_key(key, down_def, up_def, facts),
    };
    match result {
        Ok(v) => Ok(v),
        Err(e) => Err(Fault::new(FaultKind::Validation, e.message())),
    }
}

/// How an upstream input is loaded.
#[derive(Debug)]
pub enum UpstreamLoad {
    /// It is not: the parameter receives nothing.
    Skip,
    /// It is loaded with this context.
    Load(Option<PartitionContext>),
}

/// How an upstream input is loaded: nothing for a skipped one, else the context of the
/// mapped key. Only where no mapping applies must the upstream accept the key.
pub open spec fn upstream_load_of(
    param: Seq<char>,
    up_name: Seq<char>,
    down: NodeInfo,
    up: NodeInfo,
    key: Option<KeyView>,
    facts: KeyFacts,
) -> Result<Option<Option<(KeyView, DefView)>>, FaultView> {
    match upstream_resolution(param, down, up, key, facts) {
        Err(e) => Err(e),
        Ok(ResolutionView::Skip) => Ok(None),
        Ok(ResolutionView::Load(k)) => match context_of(
            up_name,
            node_def(up),
            k,
            !down.partition_mapping@.dom().contains(param),
            facts,
        ) {
            Ok(c) => Ok(Some(c)),
            Err(e) => Err(e),
        },
    }
}

/// How an upstream input is loaded. `up_name` is the name of the upstream node.
pub fn load_upstream_input(
    param_name: &str,
    up_name: &str,
    downstream: &NodeInfo,
    upstream: &NodeInfo,
    partition_key: &Option<PyPartitionKey>,
    facts: &KeyFacts,
) -> (r: Result<UpstreamLoad, Fault>)
    requires
        downstream.wf(),
        upstream.wf(),
        partition_key matches Some(k) ==> k.wf(),
        facts.wf(),
    ensures
        match r {
            Ok(UpstreamLoad::Skip) => upstream_load_of(
                param_name@,
                up_name@,
                *downstream,
                *upstream,
                key_or_none(*partition_key),
                *facts,
            ) == Ok::<Option<Option<(KeyView, DefView)>>, FaultView>(None),
            Ok(UpstreamLoad::Load(c)) => upstream_load_of(
                param_name@,
                up_name@,
                *downstream,
                *upstream,
                key_or_none(*partition_key),
                *facts,
            ) matches Ok(Some(spec)) && says_context(
                Ok(c),
                Ok::<Option<(KeyView, DefView)>, FaultView>(spec),
            ),
            Err(e) => upstream_load_of(
                param_name@,
                up_name@,
                *downstream,
                *upstream,
                key_or_none(*partition_key),
                *facts,
            ) == Err::<Option<Option<(KeyView, DefView)>>, FaultView>(e@),
        },
{
    let key = match map_partition_key_for_upstream(
        param_name,
        downstream,
        upstream,
        partition_key,
        facts,
    ) {
        Ok(UpstreamKeyResolution::Skip) => {
            return Ok(UpstreamLoad::Skip);
        },
        Ok(UpstreamKeyResolution::Load(k)) => k,
        Err(e) => {
            return Err(e);
        },
    };
    let checked = !downstream.partition_mapping.contains(param_name);
    match context_for(up_name, upstream, &key, checked, facts) {
        Ok(c) => Ok(UpstreamLoad::Load(c)),
        Err(e) => Err(e),
    }
}

/// How a metadata value crosses to another process.
#[derive(Clone, Copy, PartialEq, Eq, Structural, Debug)]
pub enum Transport {
    /// As it is.
    AsIs,
    /// Unwrapped to its plain value.
    Raw,
    /// As the printed form of its plain value.
    Repr,
}

/// How a metadata value crosses to another process: one that has a plain value is
/// unwrapped, and printed where that cannot be pickled.
pub fn pickle_transport(has_raw: bool, pickles: bool) -> (r: Transport)
    ensures
        r == if !has_raw {
            Transport::AsIs
        } else if pickles {
            Transport::Raw
        } else {
            Transport::Repr
        },
{
    if !has_raw {
        Transport::AsIs
    } else if pickles {
        Transport::Raw
    } else {
        Transport::Repr
    }
}

/// Where an IO handler comes from.
#[derive(Clone, Copy, PartialEq, Eq, Structural, Debug)]
pub enum HandlerSource {
    /// The definition of the asset.
    Definition,
    /// The graph asset of an inner task.
    GraphOverride,
    /// The input of a downstream asset.
    InputOverride,
    Default,
}

/// How an IO handler reaches a worker.
#[derive(Clone, Copy, PartialEq, Eq, Structural, Debug)]
pub enum HandlerTransport {
    /// By the import path of the asset's own function.
    OwnPath,
    /// By the import path of the function of its graph asset.
    GraphPath,
    /// The handler itself.
    Raw,
}

/// How the handler of an output reaches a worker: by an import path where there is a
/// stable one, else as it is. `own_path` and `graph_path` say which paths there are.
pub fn resolve_io_handler_ref(source: HandlerSource, own_path: bool, graph_path: bool) -> (r:
    HandlerTransport)
    ensures
        r == match source {
            HandlerSource::Definition => if own_path {
                HandlerTransport::OwnPath
            } else {
                HandlerTransport::Raw
            },
            HandlerSource::GraphOverride => if graph_path {
                HandlerTransport::GraphPath
            } else {
                HandlerTransport::Raw
            },
            _ => HandlerTransport::Raw,
        },
{
    match source {
        HandlerSource::Definition => if own_path {
            HandlerTransport::OwnPath
        } else {
            HandlerTransport::Raw
        },
        HandlerSource::GraphOverride => if graph_path {
            HandlerTransport::GraphPath
        } else {
            HandlerTransport::Raw
        },
        HandlerSource::InputOverride => HandlerTransport::Raw,
        HandlerSource::Default => HandlerTransport::Raw,
    }
}

/// How the handler of an input reaches a worker: both the definition and the graph
/// asset of the upstream are found by the path of its function.
pub fn input_handler_ref(source: HandlerSource, upstream_path: bool) -> (r: HandlerTransport)
    ensures
        r == if upstream_path && (source == HandlerSource::Definition || source
            == HandlerSource::GraphOverride) {
            HandlerTransport::OwnPath
        } else {
            HandlerTransport::Raw
        },
{
    match source {
        HandlerSource::Definition | HandlerSource::GraphOverride => if upstream_path {
            HandlerTransport::OwnPath
        } else {
            HandlerTransport::Raw
        },
        _ => HandlerTransport::Raw,
    }
}

/// The import path of a callable. One that is local to a function has none.
pub fn extract_module_qualname(module: String, qualname: String) -> (r: Result<
    (String, String),
    Fault,
>)
    ensures
        match r {
            Ok(p) => !occurs_in("<"@, qualname@) && p == (module, qualname),
            Err(e) => occurs_in("<"@, qualname@) && e@ == (
                FaultKind::Value,
                "qualname contains <locals>"@,
            ),
        },
{
    if contains_text(qualname.as_str(), "<") {
        Err(Fault::new(FaultKind::Value, "qualname contains <locals>".to_owned()))
    } else {
        Ok((module, qualname))
    }
}

} // verus!
