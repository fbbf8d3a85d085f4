//! Jobs: a named choice of nodes, what belongs to it, and what it needs to run.
use vstd::prelude::*;
use vstd::string::*;
use crate::errors::{Fault, FaultKind, FaultView};
use crate::executor::kind::Executor;
use crate::executor::plan::{RetryRef, StepKind};
use crate::names::{pair_names, NameMap};
use crate::partitions::grid::opt_text;
use crate::text::{copy_texts, has_text, quoted_list, quoted_list_text, say5, say7, texts};

verus! {

/// What a job reads of a node of the repository.
#[derive(Debug)]
pub struct JobNode {
    pub is_external: bool,
    pub has_io_handler: bool,
    /// The inner tasks of a graph asset.
    pub graph_task_names: Vec<String>,
    /// The nodes that it depends on, in the order of the graph.
    pub dependencies: Vec<String>,
}

/// What a job is made of.
#[derive(Debug)]
pub enum JobItem {
    /// An asset with several outputs, each with its name, where it has one.
    MultiAsset(Vec<Option<String>>),
    Asset(Option<String>),
    Task(Option<String>),
    BashTask(String),
    /// Something else.
    Other,
}

/// The names of the first outputs of a list, or the fault of one without a name.
pub open spec fn output_names(s: Seq<Option<String>>) -> Result<Seq<Seq<char>>, FaultView>
    decreases s.len(),
{
    if s.len() == 0 {
        Ok(Seq::empty())
    } else {
        match output_names(s.drop_last()) {
            Err(e) => Err(e),
            Ok(v) => match s.last() {
                Some(n) => Ok(v.push(n@)),
                None => Err((FaultKind::GraphValidation, "Multi-asset output has no name"@)),
            },
        }
    }
}

/// The names of an item of a job.
pub open spec fn item_names(it: JobItem) -> Result<Seq<Seq<char>>, FaultView> {
    match it {
        JobItem::MultiAsset(v) => output_names(v@),
        JobItem::Asset(n) => match n {
            Some(s) => Ok(seq![s@]),
            None => Err((FaultKind::GraphValidation, "Asset has no name"@)),
        },
        JobItem::Task(n) => match n {
            Some(s) => Ok(seq![s@]),
            None => Err((FaultKind::GraphValidation, "Task has no name"@)),
        },
        JobItem::BashTask(s) => Ok(seq![s@]),
        JobItem::Other => Err(
            (
                FaultKind::GraphValidation,
                "Job assets must be Asset, Task, or BashTask instances"@,
            ),
        ),
    }
}

/// The names of the items of a job, or the fault of the first that has none.
pub open spec fn all_names(s: Seq<JobItem>) -> Result<Seq<Seq<char>>, FaultView>
    decreases s.len(),
{
    if s.len() == 0 {
        Ok(Seq::empty())
    } else {
        match all_names(s.drop_last()) {
            Err(e) => Err(e),
            Ok(v) => match item_names(s.last()) {
                Ok(w) => Ok(v + w),
                Err(e) => Err(e),
            },
        }
    }
}

proof fn lemma_all_names_prefix(s: Seq<JobItem>, n: int)
    requires
        0 <= n <= s.len(),
        all_names(s.take(n)) is Err,
    ensures
        all_names(s) == all_names(s.take(n)),
    decreases s.len(),
{
    if n < s.len() {
        assert(s.drop_last().take(n) =~= s.take(n));
        lemma_all_names_prefix(s.drop_last(), n);
    } else {
        assert(s.take(n) =~= s);
    }
}

proof fn lemma_output_names_prefix(s: Seq<Option<String>>, n: int)
    requires
        0 <= n <= s.len(),
        output_names(s.take(n)) is Err,
    ensures
        output_names(s) == output_names(s.take(n)),
    decreases s.len(),
{
    if n < s.len() {
        assert(s.drop_last().take(n) =~= s.take(n));
        lemma_output_names_prefix(s.drop_last(), n);
    } else {
        assert(s.take(n) =~= s);
    }
}

fn names_of_item(it: &JobItem) -> (r: Result<Vec<String>, Fault>)
    ensures
        match r {
            Ok(v) => item_names(*it) == Ok::<Seq<Seq<char>>, FaultView>(texts(v@)),
            Err(e) => item_names(*it) == Err::<Seq<Seq<char>>, FaultView>(e@),
        },
{
    let mut out: Vec<String> = Vec::new();
    let single = match it {
        JobItem::MultiAsset(v) => {
            let ghost s = v@;
            let mut i: usize = 0;
            proof {
                assert(s.take(0) =~= Seq::empty());
                assert(texts(out@) =~= Seq::empty());
            }
            while i < v.len()
                invariant
                    s == v@,
                    it == (JobItem::MultiAsset(*v)),
                    i <= s.len(),
                    output_names(s.take(i as int)) == Ok::<Seq<Seq<char>>, FaultView>(
                        texts(out@),
                    ),
                decreases s.len() - i,
            {
                proof {
                    assert(s.take(i + 1).drop_last() =~= s.take(i as int));
                    assert(s.take(i + 1).last() == s[i as int]);
                }
                match &v[i] {
                    Some(n) => {
                        let ghost prev = texts(out@);
                        out.push(n.clone());
                        proof {
                            assert(texts(out@) =~= prev.push(n@));
                        }
                    },
                    None => {
                        proof {
                            lemma_output_names_prefix(s, i + 1);
                        }
                        return Err(
                            Fault::new(
                                FaultKind::GraphValidation,
                                "Multi-asset output has no name".to_owned(),
                            ),
                        );
                    },
                }
                i += 1;
            }
            proof {
                assert(s.take(i as int) =~= s);
            }
            return Ok(out);
        },
        JobItem::Asset(n) => match n {
            Some(s) => s,
            None => {
                return Err(
                    Fault::new(FaultKind::GraphValidation, "Asset has no name".to_owned()),
                );
            },
        },
        JobItem::Task(n) => match n {
            Some(s) => s,
            None => {
                return Err(
                    Fault::new(FaultKind::GraphValidation, "Task has no name".to_owned()),
                );
            },
        },
        JobItem::BashTask(s) => s,
        JobItem::Other => {
            return Err(
                Fault::new(
                    FaultKind::GraphValidation,
                    "Job assets must be Asset, Task, or BashTask instances".to_owned(),
                ),
            );
        },
    };
    out.push(single.clone());
    proof {
        assert(texts(out@) =~= seq![single@]);
    }
    Ok(out)
}

/// The names of the nodes of a job. An asset with several outputs stands for each of
/// them.
pub fn job_node_names(items: &Vec<JobItem>) -> (r: Result<Vec<String>, Fault>)
    ensures
        match r {
            Ok(v) => all_names(items@) == Ok::<Seq<Seq<char>>, FaultView>(texts(v@)),
            Err(e) => all_names(items@) == Err::<Seq<Seq<char>>, FaultView>(e@),
        },
{
    let ghost s = items@;
    let mut out: Vec<String> = Vec::new();
    let mut i: usize = 0;
    proof {
        assert(s.take(0) =~= Seq::empty());
        assert(texts(out@) =~= Seq::empty());
    }
    while i < items.len()
        invariant
            s == items@,
            i <= s.len(),
            all_names(s.take(i as int)) == Ok::<Seq<Seq<char>>, FaultView>(texts(out@)),
        decreases s.len() - i,
    {
        proof {
            assert(s.take(i + 1).drop_last() =~= s.take(i as int));
            assert(s.take(i + 1).last() == s[i as int]);
        }
        match names_of_item(&items[i]) {
            Ok(v) => {
                let mut more = v;
                let ghost a = texts(out@);
                let ghost b = texts(more@);
                out.append(&mut more);
                proof {
                    assert(texts(out@) =~= a + b);
                }
            },
            Err(e) => {
                proof {
                    lemma_all_names_prefix(s, i + 1);
                }
                return Err(e);
            },
        }
        i += 1;
    }
    proof {
        assert(s.take(i as int) =~= s);
    }
    Ok(out)
}

/// A list with a name added, unless it is there.
pub open spec fn with_name(all: Seq<Seq<char>>, name: Seq<char>) -> Seq<Seq<char>> {
    if all.contains(name) {
        all
    } else {
        all.push(name)
    }
}

/// A list with each of some names added, unless it is there.
pub open spec fn with_names(all: Seq<Seq<char>>, names: Seq<Seq<char>>) -> Seq<Seq<char>>
    decreases names.len(),
{
    if names.len() == 0 {
        all
    } else {
        with_name(with_names(all, names.drop_last()), names.last())
    }
}

/// A list with the inner tasks of each graph asset among some names added.
pub open spec fn with_tasks(
    all: Seq<Seq<char>>,
    names: Seq<Seq<char>>,
    repo: Map<Seq<char>, JobNode>,
) -> Seq<Seq<char>>
    decreases names.len(),
{
    if names.len() == 0 {
        all
    } else {
        let before = with_tasks(all, names.drop_last(), repo);
        if repo.dom().contains(names.last()) {
            with_names(before, texts(repo[names.last()].graph_task_names@))
        } else {
            before
        }
    }
}

/// A list with each collecting step added whose mapped step is there.
pub open spec fn with_collects(all: Seq<Seq<char>>, kinds: Seq<(String, StepKind)>) -> Seq<
    Seq<char>,
>
    decreases kinds.len(),
{
    if kinds.len() == 0 {
        all
    } else {
        let before = with_collects(all, kinds.drop_last());
        match collected_step(kinds.last().1) {
            Some(m) => if before.contains(m) {
                with_name(before, kinds.last().0@)
            } else {
                before
            },
            None => before,
        }
    }
}

/// The mapped step that a kind collects.
pub open spec fn collected_step(k: StepKind) -> Option<Seq<char>> {
    match k {
        StepKind::Collect { mapped_step } => Some(mapped_step@),
        StepKind::CollectStream { mapped_step, .. } => Some(mapped_step@),
        _ => None,
    }
}

/// The nodes of a job: those that it names, the inner tasks of its graph assets, and
/// the steps that collect its mapped ones.
pub open spec fn job_nodes(
    names: Seq<Seq<char>>,
    repo: Map<Seq<char>, JobNode>,
    kinds: Seq<(String, StepKind)>,
) -> Seq<Seq<char>> {
    with_collects(with_tasks(names, names, repo), kinds)
}

/// Adding names keeps those that are there, in their places.
pub proof fn lemma_job_nodes_keep(
    names: Seq<Seq<char>>,
    repo: Map<Seq<char>, JobNode>,
    kinds: Seq<(String, StepKind)>,
)
    ensures
        names.is_prefix_of(job_nodes(names, repo, kinds)),
{
    lemma_tasks_keep(names, names, repo);
    lemma_collects_keep(with_tasks(names, names, repo), kinds);
}

proof fn lemma_names_keep(all: Seq<Seq<char>>, names: Seq<Seq<char>>)
    ensures
        all.is_prefix_of(with_names(all, names)),
    decreases names.len(),
{
    if names.len() > 0 {
        lemma_names_keep(all, names.drop_last());
    }
}

proof fn lemma_tasks_keep(
    all: Seq<Seq<char>>,
    names: Seq<Seq<char>>,
    repo: Map<Seq<char>, JobNode>,
)
    ensures
        all.is_prefix_of(with_tasks(all, names, repo)),
    decreases names.len(),
{
    if names.len() > 0 {
        lemma_tasks_keep(all, names.drop_last(), repo);
        let before = with_tasks(all, names.drop_last(), repo);
        if repo.dom().contains(names.last()) {
            lemma_names_keep(before, texts(repo[names.last()].graph_task_names@));
        }
    }
}

proof fn lemma_collects_keep(all: Seq<Seq<char>>, kinds: Seq<(String, StepKind)>)
    ensures
        all.is_prefix_of(with_collects(all, kinds)),
    decreases kinds.len(),
{
    if kinds.len() > 0 {
        lemma_collects_keep(all, kinds.drop_last());
    }
}

fn push_new(all: &mut Vec<String>, name: &str)
    ensures
        texts(final(all)@) == with_name(texts(old(all)@), name@),
{
    if !has_text(all, name) {
        let ghost prev = texts(all@);
        all.push(name.to_owned());
        proof {
            assert(texts(all@) =~= prev.push(name@));
        }
    }
}

fn expand_nodes(
    names: &Vec<String>,
    repo: &NameMap<JobNode>,
    kinds: &NameMap<StepKind>,
) -> (r: Vec<String>)
    ensures
        texts(r@) == job_nodes(texts(names@), repo@, kinds.entries@),
{
    let ghost t = texts(names@);
    let mut all = copy_texts(names);
    let mut i: usize = 0;
    proof {
        assert(t.take(0) =~= Seq::empty());
    }
    while i < names.len()
        invariant
            t == texts(names@),
            i <= t.len(),
            texts(all@) == with_tasks(t, t.take(i as int), repo@),
        decreases t.len() - i,
    {
        proof {
            assert(t.take(i + 1).drop_last() =~= t.take(i as int));
            assert(t.take(i + 1).last() == names@[i as int]@);
        }
        if let Some(node) = repo.get(names[i].as_str()) {
            let ghost before = texts(all@);
            let ghost tasks = texts(node.graph_task_names@);
            let mut j: usize = 0;
            proof {
                assert(tasks.take(0) =~= Seq::empty());
            }
            while j < node.graph_task_names.len()
                invariant
                    tasks == texts(node.graph_task_names@),
                    j <= tasks.len(),
                    texts(all@) == with_names(before, tasks.take(j as int)),
                decreases tasks.len() - j,
            {
                proof {
                    assert(tasks.take(j + 1).drop_last() =~= tasks.take(j as int));
                    assert(tasks.take(j + 1).last() == node.graph_task_names@[j as int]@);
                }
                push_new(&mut all, node.graph_task_names[j].as_str());
                j += 1;
            }
            proof {
                assert(tasks.take(j as int) =~= tasks);
            }
        }
        i += 1;
    }
    proof {
        assert(t.take(i as int) =~= t);
    }
    let ghost base = texts(all@);
    let ghost ks = kinds.entries@;
    let mut n: usize = 0;
    proof {
        assert(ks.take(0) =~= Seq::empty());
    }
    while n < kinds.entries.len()
        invariant
            ks == kinds.entries@,
            n <= ks.len(),
            texts(all@) == with_collects(base, ks.take(n as int)),
        decreases ks.len() - n,
    {
        proof {
            assert(ks.take(n + 1).drop_last() =~= ks.take(n as int));
            assert(ks.take(n + 1).last() == ks[n as int]);
        }
        let mapped: Option<&String> = match &kinds.entries[n].1 {
            StepKind::Collect { mapped_step } => Some(mapped_step),
            StepKind::CollectStream { mapped_step, .. } => Some(mapped_step),
            _ => None,
        };
        if let Some(m) = mapped {
            if has_text(&all, m.as_str()) {
                push_new(&mut all, kinds.entries[n].0.as_str());
            }
        }
        n += 1;
    }
    proof {
        assert(ks.take(n as int) =~= ks);
    }
    all
}

/// The first name of a list that neither the repository nor the plan knows.
pub open spec fn first_unknown(
    names: Seq<Seq<char>>,
    repo: Map<Seq<char>, JobNode>,
    kinds: Map<Seq<char>, StepKind>,
) -> Option<Seq<char>>
    decreases names.len(),
{
    if names.len() == 0 {
        None
    } else {
        match first_unknown(names.drop_last(), repo, kinds) {
            Some(n) => Some(n),
            None => if !repo.dom().contains(names.last()) && !kinds.dom().contains(names.last()) {
                Some(names.last())
            } else {
                None
            },
        }
    }
}

/// Why a job cannot do without a dependency that it does not hold.
pub open spec fn missing_fault(
    job: Seq<char>,
    node: Seq<char>,
    dep: Seq<char>,
    repo: Map<Seq<char>, JobNode>,
    allow: bool,
) -> Option<FaultView> {
    if !repo.dom().contains(dep) {
        Some(
            (
                FaultKind::NodeNotFound,
                "Job '"@ + job + "': dependency '"@ + dep + "' not found in repository"@,
            ),
        )
    } else if repo[dep].is_external {
        None
    } else if allow {
        if repo[dep].has_io_handler {
            None
        } else {
            Some(
                (
                    FaultKind::GraphValidation,
                    "Job '"@ + job + "': node '"@ + node + "' depends on '"@ + dep
                        + "' which is not in the job and has no io_handler"@,
                ),
            )
        }
    } else {
        Some(
            (
                FaultKind::GraphValidation,
                "Job '"@ + job + "': node '"@ + node + "' depends on '"@ + dep
                    + "' which is not in the job. Add it to the job or set allow_incomplete_deps=True"@,
            ),
        )
    }
}

/// The first fault among the dependencies that a job does not hold.
pub open spec fn first_missing_fault(
    job: Seq<char>,
    missing: Seq<(String, String)>,
    repo: Map<Seq<char>, JobNode>,
    allow: bool,
) -> Option<FaultView>
    decreases missing.len(),
{
    if missing.len() == 0 {
        None
    } else {
        match first_missing_fault(job, missing.drop_last(), repo, allow) {
            Some(f) => Some(f),
            None => missing_fault(job, missing.last().0@, missing.last().1@, repo, allow),
        }
    }
}

/// Whether a job takes a dependency along that it does not hold.
pub open spec fn takes_along(repo: Map<Seq<char>, JobNode>, dep: Seq<char>, allow: bool) -> bool {
    repo.dom().contains(dep) && (repo[dep].is_external || allow)
}

/// A list with the dependencies of a node added that the job takes along.
pub open spec fn with_deps(
    all: Seq<Seq<char>>,
    deps: Seq<Seq<char>>,
    repo: Map<Seq<char>, JobNode>,
    allow: bool,
) -> Seq<Seq<char>>
    decreases deps.len(),
{
    if deps.len() == 0 {
        all
    } else {
        let before = with_deps(all, deps.drop_last(), repo, allow);
        if takes_along(repo, deps.last(), allow) {
            with_name(before, deps.last())
        } else {
            before
        }
    }
}

/// The names of a list that the repository has.
pub open spec fn known_names(names: Seq<Seq<char>>, repo: Map<Seq<char>, JobNode>) -> Seq<Seq<char>>
    decreases names.len(),
{
    if names.len() == 0 {
        Seq::empty()
    } else if repo.dom().contains(names.last()) {
        with_name(known_names(names.drop_last(), repo), names.last())
    } else {
        known_names(names.drop_last(), repo)
    }
}

/// The nodes that a job loads from: its own, then the dependencies that it takes
/// along.
pub open spec fn with_all_deps(
    all: Seq<Seq<char>>,
    names: Seq<Seq<char>>,
    repo: Map<Seq<char>, JobNode>,
    allow: bool,
) -> Seq<Seq<char>>
    decreases names.len(),
{
    if names.len() == 0 {
        all
    } else {
        let before = with_all_deps(all, names.drop_last(), repo, allow);
        if repo.dom().contains(names.last()) {
            with_deps(before, texts(repo[names.last()].dependencies@), repo, allow)
        } else {
            before
        }
    }
}

/// What a job holds once it is validated.
#[derive(Debug)]
pub struct JobPlan {
    /// The nodes that it runs.
    pub node_names: Vec<String>,
    /// The nodes that it runs or loads from.
    pub subset: Vec<String>,
}

/// Why a job cannot run.
pub open spec fn job_fault(
    job: Seq<char>,
    names: Seq<Seq<char>>,
    repo: Map<Seq<char>, JobNode>,
    kinds: Map<Seq<char>, StepKind>,
    missing: Seq<(String, String)>,
    allow: bool,
) -> Option<FaultView> {
    match first_unknown(names, repo, kinds) {
        Some(n) => Some(
            (
                FaultKind::NodeNotFound,
                "Job '"@ + job + "': node '"@ + n + "' not found in repository"@,
            ),
        ),
        None => first_missing_fault(job, missing, repo, allow),
    }
}

proof fn lemma_unknown_prefix(
    names: Seq<Seq<char>>,
    repo: Map<Seq<char>, JobNode>,
    kinds: Map<Seq<char>, StepKind>,
    n: int,
)
    requires
        0 <= n <= names.len(),
        first_unknown(names.take(n), repo, kinds) is Some,
    ensures
        first_unknown(names, repo, kinds) == first_unknown(names.take(n), repo, kinds),
    decreases names.len(),
{
    if n < names.len() {
        assert(names.drop_last().take(n) =~= names.take(n));
        lemma_unknown_prefix(names.drop_last(), repo, kinds, n);
    } else {
        assert(names.take(n) =~= names);
    }
}

proof fn lemma_missing_prefix(
    job: Seq<char>,
    missing: Seq<(String, String)>,
    repo: Map<Seq<char>, JobNode>,
    allow: bool,
    n: int,
)
    requires
        0 <= n <= missing.len(),
        first_missing_fault(job, missing.take(n), repo, allow) is Some,
    ensures
        first_missing_fault(job, missing, repo, allow) == first_missing_fault(
            job,
            missing.take(n),
            repo,
            allow,
        ),
    decreases missing.len(),
{
    if n < missing.len() {
        assert(missing.drop_last().take(n) =~= missing.take(n));
        lemma_missing_prefix(job, missing.drop_last(), repo, allow, n);
    } else {
        assert(missing.take(n) =~= missing);
    }
}

fn check_missing(
    job: &str,
    node: &str,
    dep: &str,
    repo: &NameMap<JobNode>,
    allow: bool,
) -> (r: Option<Fault>)
    ensures
        match r {
            Some(f) => missing_fault(job@, node@, dep@, repo@, allow) == Some(f@),
            None => missing_fault(job@, node@, dep@, repo@, allow) is None,
        },
{
    match repo.get(dep) {
        None => Some(
            Fault::new(
                FaultKind::NodeNotFound,
                say5("Job '", job, "': dependency '", dep, "' not found in repository"),
            ),
        ),
        Some(d) => {
            if d.is_external {
                None
            } else if allow {
                if d.has_io_handler {
                    None
                } else {
                    Some(
                        Fault::new(
                            FaultKind::GraphValidation,
                            say7(
                                "Job '",
                                job,
                                "': node '",
                                node,
                                "' depends on '",
                                dep,
                                "' which is not in the job and has no io_handler",
                            ),
                        ),
                    )
                }
            } else {
                Some(
                    Fault::new(
                        FaultKind::GraphValidation,
                        say7(
                            "Job '",
                            job,
                            "': node '",
                            node,
                            "' depends on '",
                            dep,
                            "' which is not in the job. Add it to the job or set allow_incomplete_deps=True",
                        ),
                    ),
                )
            }
        },
    }
}

fn build_subset(names: &Vec<String>, repo: &NameMap<JobNode>, allow: bool) -> (r: Vec<String>)
    ensures
        texts(r@) == with_all_deps(
            known_names(texts(names@), repo@),
            texts(names@),
            repo@,
            allow,
        ),
{
    let ghost t = texts(names@);
    let mut all: Vec<String> = Vec::new();
    let mut i: usize = 0;
    proof {
        assert(t.take(0) =~= Seq::empty());
        assert(texts(all@) =~= Seq::empty());
    }
    while i < names.len()
        invariant
            t == texts(names@),
            i <= t.len(),
            texts(all@) == known_names(t.take(i as int), repo@),
        decreases t.len() - i,
    {
        proof {
            assert(t.take(i + 1).drop_last() =~= t.take(i as int));
            assert(t.take(i + 1).last() == names@[i as int]@);
        }
        if repo.contains(names[i].as_str()) {
            push_new(&mut all, names[i].as_str());
        }
        i += 1;
    }
    proof {
        assert(t.take(i as int) =~= t);
    }
    let ghost base = texts(all@);
    let mut n: usize = 0;
    while n < names.len()
        invariant
            t == texts(names@),
            n <= t.len(),
            texts(all@) == with_all_deps(base, t.take(n as int), repo@, allow),
        decreases t.len() - n,
    {
        proof {
            assert(t.take(n + 1).drop_last() =~= t.take(n as int));
            assert(t.take(n + 1).last() == names@[n as int]@);
        }
        if let Some(node) = repo.get(names[n].as_str()) {
            let ghost before = texts(all@);
            let ghost deps = texts(node.dependencies@);
            let mut j: usize = 0;
            proof {
                assert(deps.take(0) =~= Seq::empty());
            }
            while j < node.dependencies.len()
                invariant
                    deps == texts(node.dependencies@),
                    j <= deps.len(),
                    texts(all@) == with_deps(before, deps.take(j as int), repo@, allow),
                decreases deps.len() - j,
            {
                proof {
                    assert(deps.take(j + 1).drop_last() =~= deps.take(j as int));
                    assert(deps.take(j + 1).last() == node.dependencies@[j as int]@);
                }
                let along = match repo.get(node.dependencies[j].as_str()) {
                    Some(d) => d.is_external || allow,
                    None => false,
                };
                if along {
                    push_new(&mut all, node.dependencies[j].as_str());
                }
                j += 1;
            }
            proof {
                assert(deps.take(j as int) =~= deps);
            }
        }
        n += 1;
    }
    proof {
        assert(t.take(n as int) =~= t);
    }
    all
}

/// Adds to a job what belongs to it: the inner tasks of its graph assets and the steps
/// that collect its mapped ones.
pub fn complete_job(
    node_names: &Vec<String>,
    repo: &NameMap<JobNode>,
    step_kinds: &NameMap<StepKind>,
) -> (r: Vec<String>)
    ensures
        texts(r@) == job_nodes(texts(node_names@), repo@, step_kinds.entries@),
{
    expand_nodes(node_names, repo, step_kinds)
}

/// Validates the nodes of a completed job against the repository. `missing` lists, node
/// by node, the dependencies that the job does not hold: an external one is always
/// there to be loaded, any other only where incomplete dependencies are allowed and it
/// can be loaded.
pub fn validate_and_build_plan(
    job: &str,
    node_names: Vec<String>,
    repo: &NameMap<JobNode>,
    step_kinds: &NameMap<StepKind>,
    missing: &Vec<(String, String)>,
    allow_incomplete_deps: bool,
) -> (r: Result<JobPlan, Fault>)
    ensures
        match r {
            Ok(p) => {
                &&& job_fault(
                    job@,
                    texts(node_names@),
                    repo@,
                    step_kinds@,
                    missing@,
                    allow_incomplete_deps,
                ) is None
                &&& p.node_names == node_names
                &&& texts(p.subset@) == with_all_deps(
                    known_names(texts(node_names@), repo@),
                    texts(node_names@),
                    repo@,
                    allow_incomplete_deps,
                )
            },
            Err(e) => job_fault(
                job@,
                texts(node_names@),
                repo@,
                step_kinds@,
                missing@,
                allow_incomplete_deps,
            ) == Some(e@),
        },
{
    let ghost t = texts(node_names@);
    let mut i: usize = 0;
    proof {
        assert(t.take(0) =~= Seq::empty());
    }
    while i < node_names.len()
        invariant
            t == texts(node_names@),
            i <= t.len(),
            first_unknown(t.take(i as int), repo@, step_kinds@) is None,
        decreases t.len() - i,
    {
        proof {
            assert(t.take(i + 1).drop_last() =~= t.take(i as int));
            assert(t.take(i + 1).last() == node_names@[i as int]@);
        }
        let name = node_names[i].as_str();
        if !repo.contains(name) && !step_kinds.contains(name) {
            proof {
                lemma_unknown_prefix(t, repo@, step_kinds@, i + 1);
            }
            return Err(
                Fault::new(
                    FaultKind::NodeNotFound,
                    say5("Job '", job, "': node '", name, "' not found in repository"),
                ),
            );
        }
        i += 1;
    }
    proof {
        assert(t.take(i as int) =~= t);
    }
    let ghost ms = missing@;
    let mut n: usize = 0;
    proof {
        assert(ms.take(0) =~= Seq::empty());
    }
    while n < missing.len()
        invariant
            t == texts(node_names@),
            first_unknown(t, repo@, step_kinds@) is None,
            ms == missing@,
            n <= ms.len(),
            first_missing_fault(job@, ms.take(n as int), repo@, allow_incomplete_deps) is None,
        decreases ms.len() - n,
    {
        proof {
            assert(ms.take(n + 1).drop_last() =~= ms.take(n as int));
            assert(ms.take(n + 1).last() == ms[n as int]);
        }
        match check_missing(
            job,
            missing[n].0.as_str(),
            missing[n].1.as_str(),
            repo,
            allow_incomplete_deps,
        ) {
            Some(f) => {
                proof {
                    lemma_missing_prefix(job@, ms, repo@, allow_incomplete_deps, n + 1);
                }
                return Err(f);
            },
            None => {},
        }
        n += 1;
    }
    proof {
        assert(ms.take(n as int) =~= ms);
    }
    let subset = build_subset(&node_names, repo, allow_incomplete_deps);
    Ok(JobPlan { node_names, subset })
}

/// The policy of a reference of a job, or why there is none.
pub open spec fn job_policy(
    job: Seq<char>,
    retry: Option<RetryRef>,
    named: NameMap<u64>,
) -> Result<Option<u64>, FaultView> {
    match retry {
        None => Ok(None),
        Some(RetryRef::Inline(p)) => Ok(Some(p)),
        Some(RetryRef::Named(key)) => if named@.dom().contains(key@) {
            Ok(Some(named@[key@]))
        } else {
            Err(
                (
                    FaultKind::Configuration,
                    "unknown retry policy '"@ + key@ + "' referenced by job '"@ + job
                        + "'; registered: "@ + quoted_list(pair_names(named.entries@)),
                ),
            )
        },
    }
}

/// Resolves the retry reference of a job; errors on an unknown name.
pub fn resolve_retry_ref(job: &str, retry: &Option<RetryRef>, named: &NameMap<u64>) -> (r: Result<
    Option<u64>,
    Fault,
>)
    ensures
        match r {
            Ok(p) => job_policy(job@, *retry, *named) == Ok::<Option<u64>, FaultView>(p),
            Err(e) => job_policy(job@, *retry, *named) == Err::<Option<u64>, FaultView>(e@),
        },
{
    match retry {
        None => Ok(None),
        Some(RetryRef::Inline(p)) => Ok(Some(*p)),
        Some(RetryRef::Named(key)) => match named.get(key.as_str()) {
            Some(p) => Ok(Some(*p)),
            None => {
                let mut s = say5(
                    "unknown retry policy '",
                    key.as_str(),
                    "' referenced by job '",
                    job,
                    "'; registered: ",
                );
                s.append(quoted_list_text(&named.names()).as_str());
                Err(Fault::new(FaultKind::Configuration, s))
            },
        },
    }
}

/// The policy of a node of a job: its own, else that of the job, else that of the
/// repository.
pub open spec fn nearest_policy(own: Option<u64>, job: Option<u64>, repo: Option<u64>) -> Option<
    u64,
> {
    match own {
        Some(p) => Some(p),
        None => match job {
            Some(p) => Some(p),
            None => repo,
        },
    }
}

/// Gives each node of a job the nearest policy.
pub fn fill_retry_defaults(
    policies: Vec<(String, Option<u64>)>,
    job: Option<u64>,
    fallback: Option<u64>,
) -> (r: Vec<(String, Option<u64>)>)
    ensures
        r@.len() == policies@.len(),
        forall|i: int|
            0 <= i < r@.len() ==> (#[trigger] r@[i]).0 == policies@[i].0 && r@[i].1
                == nearest_policy(policies@[i].1, job, fallback),
{
    let mut out = policies;
    let default = match job {
        Some(p) => Some(p),
        None => fallback,
    };
    let ghost src = out@;
    let mut i: usize = 0;
    while i < out.len()
        invariant
            out@.len() == src.len(),
            i <= src.len(),
            default == nearest_policy(None, job, fallback),
            forall|j: int|
                0 <= j < i ==> (#[trigger] out@[j]).0 == src[j].0 && out@[j].1 == nearest_policy(
                    src[j].1,
                    job,
                    fallback,
                ),
            forall|j: int| i <= j < src.len() ==> #[trigger] out@[j] == src[j],
        decreases src.len() - i,
    {
        if out[i].1.is_none() {
            let name = out[i].0.clone();
            out.set(i, (name, default));
        }
        i += 1;
    }
    out
}

/// Why a job cannot be run: it was not validated, has no executor or no storage.
pub fn ready_to_run(validated: bool, has_executor: bool, has_storage: bool) -> (r: Result<(), Fault>)
    ensures
        match r {
            Ok(_) => validated && has_executor && has_storage,
            Err(e) => e@ == (
                FaultKind::Execution,
                if !validated {
                    "Job has not been validated."@
                } else if !has_executor {
                    "Job has no executor."@
                } else {
                    "Job has no storage configured."@
                },
            ) && !(validated && has_executor && has_storage),
        },
{
    if !validated {
        Err(Fault::execution("Job has not been validated.".to_owned()))
    } else if !has_executor {
        Err(Fault::execution("Job has no executor.".to_owned()))
    } else if !has_storage {
        Err(Fault::execution("Job has no storage configured.".to_owned()))
    } else {
        Ok(())
    }
}

/// The name under which the runs of a job are recorded: none for a job that was made
/// for one run.
pub fn record_name(name: &str, synthetic: bool) -> (r: Option<String>)
    ensures
        opt_text(r) == if synthetic {
            None
        } else {
            Some(name@)
        },
{
    if synthetic {
        None
    } else {
        Some(name.to_owned())
    }
}

/// The group of each output of a multi-asset: the name of the asset. Each node comes
/// with whether it is such an output and with its own name.
pub open spec fn groups_in(s: Seq<(String, bool, Option<String>)>) -> Seq<(Seq<char>, Seq<char>)>
    decreases s.len(),
{
    if s.len() == 0 {
        Seq::empty()
    } else {
        match (s.last().1, s.last().2) {
            (true, Some(m)) => groups_in(s.drop_last()).push((s.last().0@, m@)),
            _ => groups_in(s.drop_last()),
        }
    }
}

/// The group of each output of a multi-asset.
pub fn build_multi_asset_groups(nodes: &Vec<(String, bool, Option<String>)>) -> (r: Vec<
    (String, String),
>)
    ensures
        crate::executor::events::pairs_view(r@) == groups_in(nodes@),
{
    let ghost s = nodes@;
    let mut out: Vec<(String, String)> = Vec::new();
    let mut i: usize = 0;
    proof {
        assert(s.take(0) =~= Seq::empty());
        assert(crate::executor::events::pairs_view(out@) =~= Seq::empty());
    }
    while i < nodes.len()
        invariant
            s == nodes@,
            i <= s.len(),
            crate::executor::events::pairs_view(out@) == groups_in(s.take(i as int)),
        decreases s.len() - i,
    {
        proof {
            assert(s.take(i + 1).drop_last() =~= s.take(i as int));
            assert(s.take(i + 1).last() == s[i as int]);
        }
        if nodes[i].1 {
            match &nodes[i].2 {
                Some(m) => {
                    let ghost prev = crate::executor::events::pairs_view(out@);
                    out.push((nodes[i].0.clone(), m.clone()));
                    proof {
                        assert(crate::executor::events::pairs_view(out@) =~= prev.push(
                            (s[i as int].0@, m@),
                        ));
                    }
                },
                None => {},
            }
        }
        i += 1;
    }
    proof {
        assert(s.take(i as int) =~= s);
    }
    out
}

/// A named selection of nodes with an executor and, once it was validated, a plan.
#[derive(Debug)]
pub struct PyJob {
    pub name: String,
    pub node_names: Vec<String>,
    pub executor: Option<Executor>,
    /// The retry default of the job; nodes with their own policy keep it.
    pub retry: Option<RetryRef>,
    pub allow_incomplete_deps: bool,
    /// The job was made for one run over an ad-hoc selection.
    pub synthetic: bool,
    pub plan: Option<JobPlan>,
    pub has_storage: bool,
}

impl PyJob {
    /// A job over the nodes of some definitions.
    pub fn new(
        name: String,
        items: &Vec<JobItem>,
        executor: Option<Executor>,
        allow_incomplete_deps: bool,
        retry: Option<RetryRef>,
    ) -> (r: Result<Self, Fault>)
        ensures
            match r {
                Ok(j) => {
                    &&& all_names(items@) == Ok::<Seq<Seq<char>>, FaultView>(texts(j.node_names@))
                    &&& j.name == name
                    &&& j.executor == executor
                    &&& j.allow_incomplete_deps == allow_incomplete_deps
                    &&& j.retry == retry
                    &&& !j.synthetic
                    &&& j.plan is None
                    &&& !j.has_storage
                },
                Err(e) => all_names(items@) == Err::<Seq<Seq<char>>, FaultView>(e@),
            },
    {
        match job_node_names(items) {
            Ok(node_names) => Ok(
                PyJob {
                    name,
                    node_names,
                    executor,
                    retry,
                    allow_incomplete_deps,
                    synthetic: false,
                    plan: None,
                    has_storage: false,
                },
            ),
            Err(e) => Err(e),
        }
    }

    /// The job of one run over an ad-hoc selection of nodes.
    pub fn new_synthetic(
        node_names: Vec<String>,
        executor: Executor,
        allow_incomplete_deps: bool,
        retry: Option<RetryRef>,
    ) -> (r: Self)
        ensures
            r.name@ == "<materialize>"@,
            r.node_names == node_names,
            r.executor == Some(executor),
            r.allow_incomplete_deps == allow_incomplete_deps,
            r.retry == retry,
            r.synthetic,
            r.plan is None,
            !r.has_storage,
    {
        PyJob {
            name: "<materialize>".to_owned(),
            node_names,
            executor: Some(executor),
            retry,
            allow_incomplete_deps,
            synthetic: true,
            plan: None,
            has_storage: false,
        }
    }

    pub fn name(&self) -> (r: &str)
        ensures
            r@ == self.name@,
    {
        self.name.as_str()
    }

    /// The name under which the runs of the job are recorded.
    pub fn record_name(&self) -> (r: Option<String>)
        ensures
            opt_text(r) == if self.synthetic {
                None
            } else {
                Some(self.name@)
            },
    {
        record_name(self.name.as_str(), self.synthetic)
    }

    /// Gives the job an executor where it has none.
    pub fn maybe_set_executor(&mut self, executor: Executor)
        ensures
            *final(self) == (PyJob {
                executor: match old(self).executor {
                    Some(e) => Some(e),
                    None => Some(executor),
                },
                ..*old(self)
            }),
    {
        if self.executor.is_none() {
            self.executor = Some(executor);
        }
    }

    /// Notes that the job has its storage.
    pub fn set_storage(&mut self)
        ensures
            *final(self) == (PyJob { has_storage: true, ..*old(self) }),
    {
        self.has_storage = true;
    }

    /// Resolves a retry reference by name to the policy of that name; errors on an
    /// unknown name.
    pub fn resolve_retry_ref(&mut self, named: &NameMap<u64>) -> (r: Result<(), Fault>)
        ensures
            match r {
                Ok(_) => job_policy(old(self).name@, old(self).retry, *named) matches Ok(p)
                    && *final(self) == (PyJob {
                    retry: match p {
                        Some(n) => Some(RetryRef::Inline(n)),
                        None => None,
                    },
                    ..*old(self)
                }),
                Err(e) => {
                    &&& job_policy(old(self).name@, old(self).retry, *named) == Err::<
                        Option<u64>,
                        FaultView,
                    >(e@)
                    &&& *final(self) == *old(self)
                },
            },
    {
        match resolve_retry_ref(self.name.as_str(), &self.retry, named) {
            Ok(Some(p)) => {
                self.retry = Some(RetryRef::Inline(p));
                Ok(())
            },
            Ok(None) => Ok(()),
            Err(e) => Err(e),
        }
    }

    /// The policy of the job, where it is not left to a name.
    pub open spec fn own_policy(&self) -> Option<u64> {
        match self.retry {
            Some(RetryRef::Inline(p)) => Some(p),
            _ => None,
        }
    }

    /// Gives each of some nodes the nearest policy: its own, else that of the job,
    /// else that of the repository.
    pub fn fill_retry_defaults(
        &self,
        policies: Vec<(String, Option<u64>)>,
        fallback: Option<u64>,
    ) -> (r: Vec<(String, Option<u64>)>)
        ensures
            r@.len() == policies@.len(),
            forall|i: int|
                0 <= i < r@.len() ==> (#[trigger] r@[i]).0 == policies@[i].0 && r@[i].1
                    == nearest_policy(policies@[i].1, self.own_policy(), fallback),
    {
        let own = match &self.retry {
            Some(RetryRef::Inline(p)) => Some(*p),
            _ => None,
        };
        fill_retry_defaults(policies, own, fallback)
    }

    /// Adds the inner tasks of graph assets and the collecting steps of mapped ones.
    pub fn complete(&mut self, repo: &NameMap<JobNode>, step_kinds: &NameMap<StepKind>)
        ensures
            texts(final(self).node_names@) == job_nodes(
                texts(old(self).node_names@),
                repo@,
                step_kinds.entries@,
            ),
            *final(self) == (PyJob { node_names: final(self).node_names, ..*old(self) }),
    {
        self.node_names = complete_job(&self.node_names, repo, step_kinds);
    }

    /// Checks the nodes of a completed job against the repository and plans it.
    /// `missing` lists the dependencies that are not in the job, each behind the node
    /// that has it.
    pub fn validate_and_build_plan(
        &mut self,
        repo: &NameMap<JobNode>,
        step_kinds: &NameMap<StepKind>,
        missing: &Vec<(String, String)>,
    ) -> (r: Result<(), Fault>)
        ensures
            match r {
                Ok(_) => {
                    &&& job_fault(
                        old(self).name@,
                        texts(old(self).node_names@),
                        repo@,
                        step_kinds@,
                        missing@,
                        old(self).allow_incomplete_deps,
                    ) is None
                    &&& *final(self) == (PyJob { plan: final(self).plan, ..*old(self) })
                    &&& final(self).plan matches Some(p) && texts(p.node_names@) == texts(
                        old(self).node_names@,
                    ) && texts(p.subset@) == with_all_deps(
                        known_names(texts(old(self).node_names@), repo@),
                        texts(old(self).node_names@),
                        repo@,
                        old(self).allow_incomplete_deps,
                    )
                },
                Err(e) => {
                    &&& job_fault(
                        old(self).name@,
                        texts(old(self).node_names@),
                        repo@,
                        step_kinds@,
                        missing@,
                        old(self).allow_incomplete_deps,
                    ) == Some(e@)
                    &&& *final(self) == *old(self)
                },
            },
    {
        match validate_and_build_plan(
            self.name.as_str(),
            copy_texts(&self.node_names),
            repo,
            step_kinds,
            missing,
            self.allow_incomplete_deps,
        ) {
            Ok(p) => {
                self.plan = Some(p);
                Ok(())
            },
            Err(e) => Err(e),
        }
    }

    /// Whether the job can be run, or why not.
    pub fn ready(&self) -> (r: Result<(), Fault>)
        ensures
            match r {
                Ok(_) => self.plan is Some && self.executor is Some && self.has_storage,
                Err(e) => e@ == (
                    FaultKind::Execution,
                    if self.plan is None {
                        "Job has not been validated."@
                    } else if self.executor is None {
                        "Job has no executor."@
                    } else {
                        "Job has no storage configured."@
                    },
                ) && !(self.plan is Some && self.executor is Some && self.has_storage),
            },
    {
        ready_to_run(self.plan.is_some(), self.executor.is_some(), self.has_storage)
    }
}

} // verus!
