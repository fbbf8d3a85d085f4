//! Plans, their steps and the nodes that steps run.
use vstd::prelude::*;
use vstd::string::*;
use crate::names::NameMap;
use crate::partitions::definition::PartitionsDefinition;
use crate::partitions::mapping::PartitionMapping;
use crate::text::{copy_texts, texts};

verus! {

/// How a step runs.
#[derive(Debug)]
pub enum StepKind {
    /// Once.
    Normal,
    /// Once for each item of the output of a source.
    Mapped { fan_out_source: String, max_concurrency: Option<usize> },
    /// Not at all: it stands for the outputs of a mapped step as a list.
    Collect { mapped_step: String },
    /// Not at all: it stands for the outputs of a mapped step one by one.
    CollectStream { mapped_step: String, ordered: bool },
}

/// A step of a plan.
#[derive(Debug)]
pub struct ExecutionStep {
    pub name: String,
    /// The outputs of a multi-asset step; a single-output step has none.
    pub outputs: Vec<String>,
    pub kind: StepKind,
    /// The steps of the plan that come before.
    pub plan_dependencies: Vec<String>,
    /// The nodes of the graph that the step reads.
    pub graph_dependencies: Vec<String>,
}

/// The names under which a step reports: its outputs, or its own name.
pub open spec fn event_names_of(step: ExecutionStep) -> Seq<Seq<char>> {
    if step.outputs@.len() == 0 {
        seq![step.name@]
    } else {
        texts(step.outputs@)
    }
}

impl ExecutionStep {
    /// The names under which the step reports.
    pub fn event_names(&self) -> (r: Vec<String>)
        ensures
            texts(r@) == event_names_of(*self),
    {
        if self.outputs.len() == 0 {
            let mut out: Vec<String> = Vec::new();
            out.push(self.name.clone());
            proof {
                assert(texts(out@) =~= seq![self.name@]);
            }
            out
        } else {
            copy_texts(&self.outputs)
        }
    }
}

/// A plan: its steps, and the action that it performs, where it is one.
#[derive(Debug)]
pub struct ExecutionPlan {
    pub steps: Vec<ExecutionStep>,
    pub verb: Option<String>,
}

/// Where a retry policy comes from.
#[derive(Debug)]
pub enum RetryRef {
    /// The policy of this number.
    Inline(u64),
    /// The policy that the repository has under this key.
    Named(String),
}

/// An action that an asset offers.
#[derive(Debug)]
pub struct ActionInfo {
    pub verb: String,
    pub exclusive: bool,
    pub retry: Option<RetryRef>,
}

/// What the executor reads of a node.
#[derive(Debug)]
pub struct NodeInfo {
    /// The node's own name, where it has one.
    pub name: Option<String>,
    pub is_external: bool,
    pub is_graph_asset: bool,
    pub is_bash_task: bool,
    pub is_async: bool,
    pub has_annotations: bool,
    pub has_success_hooks: bool,
    pub has_failure_hooks: bool,
    /// The pools that it claims, with the slots of each.
    pub pools: Vec<(String, u32)>,
    pub actions: Vec<ActionInfo>,
    /// The number of its retry policy.
    pub retry: Option<u64>,
    /// The number of its compute description.
    pub compute: Option<u64>,
    /// Its metadata, where it has any.
    pub metadata: Option<NameMap<String>>,
    /// The last task of a graph asset.
    pub final_node: Option<String>,
    pub partitions_def: Option<PartitionsDefinition>,
    pub partition_mapping: NameMap<PartitionMapping>,
    /// The names of its parameters that go by another name upstream.
    pub param_remap: NameMap<String>,
}

impl NodeInfo {
    pub open spec fn wf(&self) -> bool {
        &&& self.partitions_def matches Some(d) ==> d.wf()
        &&& forall|k: Seq<char>| #[trigger]
            self.partition_mapping@.dom().contains(k) ==> self.partition_mapping@[k].wf()
    }
}

/// The nodes of a run by their names.
pub type NodeMap = NameMap<NodeInfo>;

/// Every node is well formed.
pub open spec fn nodes_wf(m: Map<Seq<char>, NodeInfo>) -> bool {
    forall|k: Seq<char>| #[trigger] m.dom().contains(k) ==> m[k].wf()
}

/// The action of a verb among a list.
pub open spec fn action_in(s: Seq<ActionInfo>, verb: Seq<char>) -> Option<ActionInfo>
    decreases s.len(),
{
    if s.len() == 0 {
        None
    } else if s[0].verb@ == verb {
        Some(s[0])
    } else {
        action_in(s.drop_first(), verb)
    }
}

proof fn lemma_action_in(s: Seq<ActionInfo>, verb: Seq<char>, n: int)
    requires
        0 <= n <= s.len(),
        forall|i: int| 0 <= i < n ==> (#[trigger] s[i]).verb@ != verb,
        n < s.len() ==> s[n].verb@ == verb,
    ensures
        action_in(s, verb) == if n < s.len() {
            Some(s[n])
        } else {
            None::<ActionInfo>
        },
    decreases n,
{
    if n > 0 {
        assert(s[0].verb@ != verb);
        assert forall|i: int| 0 <= i < n - 1 implies (#[trigger] s.drop_first()[i]).verb@
            != verb by {
            assert(s[i + 1].verb@ != verb);
        }
        lemma_action_in(s.drop_first(), verb, n - 1);
    }
}

/// Whether some action of a list is exclusive.
pub open spec fn some_exclusive(s: Seq<ActionInfo>) -> bool {
    exists|i: int| 0 <= i < s.len() && (#[trigger] s[i]).exclusive
}

impl NodeInfo {
    /// The node's action of a verb.
    pub fn find_action(&self, verb: &str) -> (r: Option<&ActionInfo>)
        ensures
            match r {
                Some(a) => action_in(self.actions@, verb@) == Some(*a),
                None => action_in(self.actions@, verb@) is None,
            },
    {
        let mut i: usize = 0;
        while i < self.actions.len()
            invariant
                i <= self.actions@.len(),
                forall|j: int| 0 <= j < i ==> (#[trigger] self.actions@[j]).verb@ != verb@,
            decreases self.actions@.len() - i,
        {
            if crate::text::same_text(self.actions[i].verb.as_str(), verb) {
                proof {
                    lemma_action_in(self.actions@, verb@, i as int);
                }
                return Some(&self.actions[i]);
            }
            i += 1;
        }
        proof {
            lemma_action_in(self.actions@, verb@, i as int);
        }
        None
    }

    /// Whether some action of the node is exclusive.
    pub fn has_exclusive_action(&self) -> (r: bool)
        ensures
            r == some_exclusive(self.actions@),
    {
        let mut i: usize = 0;
        while i < self.actions.len()
            invariant
                i <= self.actions@.len(),
                forall|j: int| 0 <= j < i ==> !(#[trigger] self.actions@[j]).exclusive,
            decreases self.actions@.len() - i,
        {
            if self.actions[i].exclusive {
                return true;
            }
            i += 1;
        }
        false
    }
}

} // verus!
