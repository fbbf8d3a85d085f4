//! What a job is made of: which nodes belong to it, what it takes along, and when it cannot
//! be made.
use vstd::prelude::*;
use crate::errors::{FaultKind, FaultView};
use crate::executor::plan::{RetryRef, StepKind};
use crate::job::{
    all_names, first_missing_fault, first_unknown, groups_in, item_names, job_fault, job_nodes,
    job_policy, known_names, missing_fault, nearest_policy, output_names, takes_along,
    with_all_deps, with_collects, with_deps, with_name, with_names, with_tasks, JobItem, JobNode,
};
use crate::names::NameMap;
use crate::text::texts;

verus! {

/// The outputs of a multi-asset are named, all of them, in their order.
pub proof fn lemma_output_names(s: Seq<Option<String>>)
    ensures
        output_names(s) is Ok <==> forall|i: int| 0 <= i < s.len() ==> (#[trigger] s[i]) is Some,
        output_names(s) is Ok ==> output_names(s)->Ok_0.len() == s.len() && forall|i: int|
            0 <= i < s.len() ==> output_names(s)->Ok_0[i] == (#[trigger] s[i])->0@,
        output_names(s) is Err ==> output_names(s)->Err_0.0 == FaultKind::GraphValidation,
    decreases s.len(),
{
    if s.len() > 0 {
        let w = s.drop_last();
        lemma_output_names(w);
        if output_names(s) is Ok {
            assert forall|i: int| 0 <= i < s.len() implies (#[trigger] s[i]) is Some
                && output_names(s)->Ok_0[i] == s[i]->0@ by {
                if i < w.len() {
                    assert(w[i] == s[i]);
                }
            }
        } else if output_names(w) is Err {
            let i = choose|i: int| 0 <= i < w.len() && (#[trigger] w[i]) is None;
            assert(s[i] is None);
        } else {
            assert(s[s.len() - 1] is None);
        }
    }
}

/// What an item of a job is called: by its own name, or by those of its outputs. An item
/// that needs a name and has none, or is of no such kind, is a fault.
pub proof fn lemma_item_names(it: JobItem)
    ensures
        it matches JobItem::MultiAsset(v) ==> item_names(it) == output_names(v@),
        it matches JobItem::BashTask(s) ==> item_names(it) is Ok && item_names(it)->Ok_0
            =~= seq![s@],
        it matches JobItem::Asset(n) ==> (item_names(it) is Ok <==> n is Some) && (n is Some
            ==> item_names(it)->Ok_0 =~= seq![n->0@]),
        it matches JobItem::Task(n) ==> (item_names(it) is Ok <==> n is Some) && (n is Some
            ==> item_names(it)->Ok_0 =~= seq![n->0@]),
        it is Other ==> item_names(it) is Err,
        item_names(it) is Err ==> item_names(it)->Err_0.0 == FaultKind::GraphValidation,
{
    if let JobItem::MultiAsset(v) = it {
        lemma_output_names(v@);
    }
}

/// The names of a job are those of its items, one item after the other; the first item at
/// fault decides.
pub proof fn lemma_all_names(s: Seq<JobItem>, it: JobItem)
    ensures
        all_names(Seq::empty()) is Ok && all_names(Seq::empty())->Ok_0.len() == 0,
        all_names(s) is Err ==> all_names(s.push(it)) is Err && all_names(s.push(it))->Err_0
            == all_names(s)->Err_0,
        all_names(s) is Ok && item_names(it) is Err ==> all_names(s.push(it)) is Err && all_names(
            s.push(it),
        )->Err_0 == item_names(it)->Err_0,
        all_names(s) is Ok && item_names(it) is Ok ==> all_names(s.push(it)) is Ok && all_names(
            s.push(it),
        )->Ok_0 == all_names(s)->Ok_0 + item_names(it)->Ok_0,
{
    assert(s.push(it).drop_last() =~= s);
}

/// A name is taken into a list once: it stands at the end where it was not there before,
/// and nothing else changes.
pub proof fn lemma_with_names(all: Seq<Seq<char>>, names: Seq<Seq<char>>)
    ensures
        forall|n: Seq<char>| #[trigger]
            with_names(all, names).contains(n) <==> all.contains(n) || names.contains(n),
        with_names(all, names).len() >= all.len(),
        with_names(all, names).take(all.len() as int) == all,
    decreases names.len(),
{
    if names.len() > 0 {
        let w = names.drop_last();
        let before = with_names(all, w);
        let r = with_names(all, names);
        lemma_with_names(all, w);
        lemma_with_name(before, names.last());
        assert forall|n: Seq<char>| #[trigger] r.contains(n) <==> all.contains(n)
            || names.contains(n) by {
            assert(before.contains(n) <==> all.contains(n) || w.contains(n));
            if w.contains(n) {
                let i = choose|i: int| 0 <= i < w.len() && w[i] == n;
                assert(names[i] == n);
            }
            assert(names[names.len() - 1] == names.last());
            if names.contains(n) {
                let i = choose|i: int| 0 <= i < names.len() && names[i] == n;
                if i < w.len() {
                    assert(w[i] == n);
                }
            }
        }
        assert(r.take(all.len() as int) =~= before.take(all.len() as int));
    } else {
        assert(all.take(all.len() as int) =~= all);
        assert forall|n: Seq<char>| #[trigger] with_names(all, names).contains(n) <==> all.contains(
            n,
        ) || names.contains(n) by {}
    }
}

/// One name more.
pub proof fn lemma_with_name(all: Seq<Seq<char>>, name: Seq<char>)
    ensures
        all.contains(name) ==> with_name(all, name) == all,
        !all.contains(name) ==> with_name(all, name) == all.push(name),
        forall|n: Seq<char>| #[trigger]
            with_name(all, name).contains(n) <==> all.contains(n) || n == name,
{
    let r = with_name(all, name);
    assert forall|n: Seq<char>| #[trigger] r.contains(n) <==> all.contains(n) || n == name by {
        if all.contains(n) {
            let i = choose|i: int| 0 <= i < all.len() && all[i] == n;
            assert(r[i] == n);
        }
        if n == name && !all.contains(n) {
            assert(r[all.len() as int] == n);
        }
        if r.contains(n) {
            let i = choose|i: int| 0 <= i < r.len() && r[i] == n;
            if i < all.len() {
                assert(all[i] == n);
            }
        }
    }
}

/// A job has, besides the nodes it names, the inner tasks of the graph assets among them.
pub proof fn lemma_with_tasks(
    all: Seq<Seq<char>>,
    names: Seq<Seq<char>>,
    repo: Map<Seq<char>, JobNode>,
)
    ensures
        forall|n: Seq<char>| #[trigger]
            with_tasks(all, names, repo).contains(n) <==> all.contains(n) || exists|i: int|
                0 <= i < names.len() && repo.dom().contains(#[trigger] names[i]) && texts(
                    repo[names[i]].graph_task_names@,
                ).contains(n),
    decreases names.len(),
{
    if names.len() > 0 {
        let w = names.drop_last();
        let before = with_tasks(all, w, repo);
        let r = with_tasks(all, names, repo);
        lemma_with_tasks(all, w, repo);
        if repo.dom().contains(names.last()) {
            lemma_with_names(before, texts(repo[names.last()].graph_task_names@));
        }
        assert forall|n: Seq<char>| #[trigger] r.contains(n) <==> all.contains(n) || exists|i: int|
            0 <= i < names.len() && repo.dom().contains(#[trigger] names[i]) && texts(
                repo[names[i]].graph_task_names@,
            ).contains(n) by {
            assert(before.contains(n) <==> all.contains(n) || exists|i: int|
                0 <= i < w.len() && repo.dom().contains(#[trigger] w[i]) && texts(
                    repo[w[i]].graph_task_names@,
                ).contains(n));
            if exists|i: int|
                0 <= i < w.len() && repo.dom().contains(#[trigger] w[i]) && texts(
                    repo[w[i]].graph_task_names@,
                ).contains(n) {
                let i = choose|i: int|
                    0 <= i < w.len() && repo.dom().contains(#[trigger] w[i]) && texts(
                        repo[w[i]].graph_task_names@,
                    ).contains(n);
                assert(names[i] == w[i]);
            }
            assert(names[names.len() - 1] == names.last());
            if exists|i: int|
                0 <= i < names.len() && repo.dom().contains(#[trigger] names[i]) && texts(
                    repo[names[i]].graph_task_names@,
                ).contains(n) {
                let i = choose|i: int|
                    0 <= i < names.len() && repo.dom().contains(#[trigger] names[i]) && texts(
                        repo[names[i]].graph_task_names@,
                    ).contains(n);
                if i < w.len() {
                    assert(w[i] == names[i]);
                }
            }
        }
    }
}

/// A collecting step belongs to a job whose mapped step does. It is taken in behind what is
/// there; a step of another kind is not taken in.
pub proof fn lemma_with_collects(
    all: Seq<Seq<char>>,
    kinds: Seq<(String, StepKind)>,
    name: String,
    kind: StepKind,
)
    ensures
        with_collects(all, Seq::empty()) == all,
        ({
            let before = with_collects(all, kinds);
            let after = with_collects(all, kinds.push((name, kind)));
            let taken = match kind {
                StepKind::Collect { mapped_step } => before.contains(mapped_step@),
                StepKind::CollectStream { mapped_step, .. } => before.contains(mapped_step@),
                _ => false,
            };
            &&& taken ==> after == with_name(before, name@)
            &&& !taken ==> after == before
        }),
{
    assert(kinds.push((name, kind)).drop_last() =~= kinds);
}

/// The nodes of a job: those that it names, the inner tasks of these, and the steps that
/// collect one of them.
pub proof fn lemma_job_nodes(
    names: Seq<Seq<char>>,
    repo: Map<Seq<char>, JobNode>,
    kinds: Seq<(String, StepKind)>,
)
    ensures
        job_nodes(names, repo, kinds) == with_collects(with_tasks(names, names, repo), kinds),
        forall|i: int|
            0 <= i < names.len() ==> job_nodes(names, repo, kinds).contains(#[trigger] names[i]),
{
    let base = with_tasks(names, names, repo);
    lemma_with_tasks(names, names, repo);
    lemma_collects_only_add(base, kinds);
    assert forall|i: int| 0 <= i < names.len() implies job_nodes(names, repo, kinds).contains(
        #[trigger] names[i],
    ) by {
        assert(names.contains(names[i]));
        assert(base.contains(names[i]));
    }
}

proof fn lemma_collects_only_add(all: Seq<Seq<char>>, kinds: Seq<(String, StepKind)>)
    ensures
        forall|n: Seq<char>|
            all.contains(n) ==> #[trigger] with_collects(all, kinds).contains(n),
    decreases kinds.len(),
{
    if kinds.len() > 0 {
        let w = kinds.drop_last();
        lemma_collects_only_add(all, w);
        lemma_with_name(with_collects(all, w), kinds.last().0@);
        assert forall|n: Seq<char>| all.contains(n) implies #[trigger] with_collects(
            all,
            kinds,
        ).contains(n) by {
            assert(with_collects(all, w).contains(n));
        }
    }
}

/// The first of a job's names that is neither a node nor a step of the repository.
pub proof fn lemma_first_unknown(
    names: Seq<Seq<char>>,
    repo: Map<Seq<char>, JobNode>,
    kinds: Map<Seq<char>, StepKind>,
)
    ensures
        match first_unknown(names, repo, kinds) {
            Some(n) => !repo.dom().contains(n) && !kinds.dom().contains(n) && exists|i: int|
                0 <= i < names.len() && #[trigger] names[i] == n && forall|j: int|
                    0 <= j < i ==> repo.dom().contains(#[trigger] names[j]) || kinds.dom().contains(
                        names[j],
                    ),
            None => forall|i: int|
                0 <= i < names.len() ==> repo.dom().contains(#[trigger] names[i])
                    || kinds.dom().contains(names[i]),
        },
    decreases names.len(),
{
    if names.len() > 0 {
        let w = names.drop_last();
        lemma_first_unknown(w, repo, kinds);
        match first_unknown(w, repo, kinds) {
            Some(n) => {
                let i = choose|i: int|
                    0 <= i < w.len() && #[trigger] w[i] == n && forall|j: int|
                        0 <= j < i ==> repo.dom().contains(#[trigger] w[j]) || kinds.dom().contains(
                            w[j],
                        );
                assert(names[i] == n);
                assert forall|j: int| 0 <= j < i implies repo.dom().contains(#[trigger] names[j])
                    || kinds.dom().contains(names[j]) by {
                    assert(w[j] == names[j]);
                }
            },
            None => {
                assert forall|j: int| 0 <= j < names.len() - 1 implies repo.dom().contains(
                    #[trigger] names[j],
                ) || kinds.dom().contains(names[j]) by {
                    assert(w[j] == names[j]);
                }
                assert(names[names.len() - 1] == names.last());
            },
        }
    }
}

/// A dependency may stay outside a job where it is external, or where the job allows it and
/// it can be read. One that the repository does not know is never allowed.
pub proof fn lemma_missing_fault(
    job: Seq<char>,
    node: Seq<char>,
    dep: Seq<char>,
    repo: Map<Seq<char>, JobNode>,
    allow: bool,
)
    ensures
        ({
            let r = missing_fault(job, node, dep, repo, allow);
            let known = repo.dom().contains(dep);
            &&& r is None <==> known && (repo[dep].is_external || (allow
                && repo[dep].has_io_handler))
            &&& !known ==> (r->0).0 == FaultKind::NodeNotFound
            &&& known && r is Some ==> (r->0).0 == FaultKind::GraphValidation
        }),
{
}

/// The first dependency that may not stay outside a job decides.
pub proof fn lemma_first_missing_fault(
    job: Seq<char>,
    missing: Seq<(String, String)>,
    repo: Map<Seq<char>, JobNode>,
    allow: bool,
)
    ensures
        match first_missing_fault(job, missing, repo, allow) {
            Some(f) => exists|i: int|
                0 <= i < missing.len() && missing_fault(
                    job,
                    (#[trigger] missing[i]).0@,
                    missing[i].1@,
                    repo,
                    allow,
                ) == Some(f) && forall|j: int|
                    0 <= j < i ==> missing_fault(
                        job,
                        (#[trigger] missing[j]).0@,
                        missing[j].1@,
                        repo,
                        allow,
                    ) is None,
            None => forall|i: int|
                0 <= i < missing.len() ==> missing_fault(
                    job,
                    (#[trigger] missing[i]).0@,
                    missing[i].1@,
                    repo,
                    allow,
                ) is None,
        },
    decreases missing.len(),
{
    if missing.len() > 0 {
        let w = missing.drop_last();
        lemma_first_missing_fault(job, w, repo, allow);
        match first_missing_fault(job, w, repo, allow) {
            Some(f) => {
                let i = choose|i: int|
                    0 <= i < w.len() && missing_fault(
                        job,
                        (#[trigger] w[i]).0@,
                        w[i].1@,
                        repo,
                        allow,
                    ) == Some(f) && forall|j: int|
                        0 <= j < i ==> missing_fault(
                            job,
                            (#[trigger] w[j]).0@,
                            w[j].1@,
                            repo,
                            allow,
                        ) is None;
                assert(missing[i] == w[i]);
                assert forall|j: int| 0 <= j < i implies missing_fault(
                    job,
                    (#[trigger] missing[j]).0@,
                    missing[j].1@,
                    repo,
                    allow,
                ) is None by {
                    assert(w[j] == missing[j]);
                }
            },
            None => {
                assert forall|j: int| 0 <= j < missing.len() - 1 implies missing_fault(
                    job,
                    (#[trigger] missing[j]).0@,
                    missing[j].1@,
                    repo,
                    allow,
                ) is None by {
                    assert(w[j] == missing[j]);
                }
                assert(missing[missing.len() - 1] == missing.last());
            },
        }
    }
}

/// A job cannot be made where one of its names is unknown, or where a dependency may not
/// stay outside. The names are looked at first.
pub proof fn lemma_job_fault(
    job: Seq<char>,
    names: Seq<Seq<char>>,
    repo: Map<Seq<char>, JobNode>,
    kinds: Map<Seq<char>, StepKind>,
    missing: Seq<(String, String)>,
    allow: bool,
)
    ensures
        ({
            let r = job_fault(job, names, repo, kinds, missing, allow);
            let unknown = first_unknown(names, repo, kinds);
            &&& unknown is Some ==> r is Some && (r->0).0 == FaultKind::NodeNotFound && (r->0).1
                == "Job '"@ + job + "': node '"@ + unknown->0 + "' not found in repository"@
            &&& unknown is None ==> r == first_missing_fault(job, missing, repo, allow)
        }),
{
}

/// A dependency is taken along where the repository knows it and it is external or the job
/// allows it to stay outside.
pub proof fn lemma_with_all_deps(
    all: Seq<Seq<char>>,
    names: Seq<Seq<char>>,
    repo: Map<Seq<char>, JobNode>,
    allow: bool,
)
    ensures
        forall|n: Seq<char>| #[trigger]
            with_all_deps(all, names, repo, allow).contains(n) <==> all.contains(n) || (
            repo.dom().contains(n) && (repo[n].is_external || allow) && exists|i: int|
                0 <= i < names.len() && repo.dom().contains(#[trigger] names[i]) && texts(
                    repo[names[i]].dependencies@,
                ).contains(n)),
    decreases names.len(),
{
    if names.len() > 0 {
        let w = names.drop_last();
        let before = with_all_deps(all, w, repo, allow);
        let r = with_all_deps(all, names, repo, allow);
        lemma_with_all_deps(all, w, repo, allow);
        if repo.dom().contains(names.last()) {
            lemma_with_deps(before, texts(repo[names.last()].dependencies@), repo, allow);
        }
        assert forall|n: Seq<char>| #[trigger] r.contains(n) <==> all.contains(n) || (
        repo.dom().contains(n) && (repo[n].is_external || allow) && exists|i: int|
            0 <= i < names.len() && repo.dom().contains(#[trigger] names[i]) && texts(
                repo[names[i]].dependencies@,
            ).contains(n)) by {
            assert(before.contains(n) <==> all.contains(n) || (repo.dom().contains(n) && (
            repo[n].is_external || allow) && exists|i: int|
                0 <= i < w.len() && repo.dom().contains(#[trigger] w[i]) && texts(
                    repo[w[i]].dependencies@,
                ).contains(n)));
            if exists|i: int|
                0 <= i < w.len() && repo.dom().contains(#[trigger] w[i]) && texts(
                    repo[w[i]].dependencies@,
                ).contains(n) {
                let i = choose|i: int|
                    0 <= i < w.len() && repo.dom().contains(#[trigger] w[i]) && texts(
                        repo[w[i]].dependencies@,
                    ).contains(n);
                assert(names[i] == w[i]);
            }
            assert(names[names.len() - 1] == names.last());
            if exists|i: int|
                0 <= i < names.len() && repo.dom().contains(#[trigger] names[i]) && texts(
                    repo[names[i]].dependencies@,
                ).contains(n) {
                let i = choose|i: int|
                    0 <= i < names.len() && repo.dom().contains(#[trigger] names[i]) && texts(
                        repo[names[i]].dependencies@,
                    ).contains(n);
                if i < w.len() {
                    assert(w[i] == names[i]);
                }
            }
        }
    }
}

proof fn lemma_with_deps(
    all: Seq<Seq<char>>,
    deps: Seq<Seq<char>>,
    repo: Map<Seq<char>, JobNode>,
    allow: bool,
)
    ensures
        forall|n: Seq<char>| #[trigger]
            with_deps(all, deps, repo, allow).contains(n) <==> all.contains(n) || (deps.contains(n)
                && repo.dom().contains(n) && (repo[n].is_external || allow)),
    decreases deps.len(),
{
    if deps.len() > 0 {
        let w = deps.drop_last();
        let before = with_deps(all, w, repo, allow);
        let r = with_deps(all, deps, repo, allow);
        lemma_with_deps(all, w, repo, allow);
        lemma_with_name(before, deps.last());
        assert(takes_along(repo, deps.last(), allow) == (repo.dom().contains(deps.last()) && (
        repo[deps.last()].is_external || allow)));
        assert forall|n: Seq<char>| #[trigger] r.contains(n) <==> all.contains(n) || (
        deps.contains(n) && repo.dom().contains(n) && (repo[n].is_external || allow)) by {
            assert(before.contains(n) <==> all.contains(n) || (w.contains(n)
                && repo.dom().contains(n) && (repo[n].is_external || allow)));
            if w.contains(n) {
                let i = choose|i: int| 0 <= i < w.len() && w[i] == n;
                assert(deps[i] == n);
            }
            assert(deps[deps.len() - 1] == deps.last());
            if deps.contains(n) {
                let i = choose|i: int| 0 <= i < deps.len() && deps[i] == n;
                if i < w.len() {
                    assert(w[i] == n);
                }
            }
        }
    }
}

/// The names of a job that the repository knows, each once.
pub proof fn lemma_known_names(names: Seq<Seq<char>>, repo: Map<Seq<char>, JobNode>)
    ensures
        forall|n: Seq<char>| #[trigger]
            known_names(names, repo).contains(n) <==> names.contains(n) && repo.dom().contains(n),
        known_names(names, repo).no_duplicates(),
    decreases names.len(),
{
    if names.len() > 0 {
        let w = names.drop_last();
        let before = known_names(w, repo);
        let r = known_names(names, repo);
        lemma_known_names(w, repo);
        lemma_with_name(before, names.last());
        assert forall|n: Seq<char>| #[trigger] r.contains(n) <==> names.contains(n)
            && repo.dom().contains(n) by {
            assert(before.contains(n) <==> w.contains(n) && repo.dom().contains(n));
            if w.contains(n) {
                let i = choose|i: int| 0 <= i < w.len() && w[i] == n;
                assert(names[i] == n);
            }
            assert(names[names.len() - 1] == names.last());
            if names.contains(n) {
                let i = choose|i: int| 0 <= i < names.len() && names[i] == n;
                if i < w.len() {
                    assert(w[i] == n);
                }
            }
        }
        assert forall|i: int, j: int| 0 <= i < r.len() && 0 <= j < r.len() && i != j implies r[i]
            != r[j] by {
            if i < before.len() && j < before.len() {
                assert(before[i] != before[j]);
            } else if i < before.len() {
                assert(before.contains(before[i]));
            } else {
                assert(before.contains(before[j]));
            }
        }
    }
}

/// The policy of a job: none where it names none, its own where it gives one, and that of
/// the repository under the name it gives. A name that is not registered is a fault.
pub proof fn lemma_job_policy(job: Seq<char>, retry: Option<RetryRef>, named: NameMap<u64>)
    ensures
        ({
            let r = job_policy(job, retry, named);
            &&& retry is None ==> r == Ok::<Option<u64>, FaultView>(None)
            &&& retry matches Some(RetryRef::Inline(p)) ==> r == Ok::<Option<u64>, FaultView>(
                Some(p),
            )
            &&& retry matches Some(RetryRef::Named(key)) ==> (r is Ok <==> named@.dom().contains(
                key@,
            )) && (r is Ok ==> r->Ok_0 == Some(named@[key@]))
            &&& r is Err ==> r->Err_0.0 == FaultKind::Configuration
        }),
{
}

/// The nearest policy counts: that of the node, else that of the job, else that of the
/// repository.
pub proof fn lemma_nearest_policy(own: Option<u64>, job: Option<u64>, repo: Option<u64>)
    ensures
        own is Some ==> nearest_policy(own, job, repo) == own,
        own is None && job is Some ==> nearest_policy(own, job, repo) == job,
        own is None && job is None ==> nearest_policy(own, job, repo) == repo,
{
}

/// The outputs of multi-assets stand in their order, each with the name of its asset; one
/// whose asset has no name, and any other node, stands in no group.
pub proof fn lemma_groups_in(s: Seq<(String, bool, Option<String>)>)
    ensures
        groups_in(s) == s.filter(|e: (String, bool, Option<String>)| e.1 && e.2 is Some).map_values(
            |e: (String, bool, Option<String>)| (e.0@, e.2->0@),
        ),
    decreases s.len(),
{
    reveal(Seq::filter);
    let p = |e: (String, bool, Option<String>)| e.1 && e.2 is Some;
    let f = |e: (String, bool, Option<String>)| (e.0@, e.2->0@);
    if s.len() > 0 {
        let w = s.drop_last();
        lemma_groups_in(w);
        if p(s.last()) {
            assert(s.filter(p).map_values(f) =~= w.filter(p).map_values(f).push(f(s.last())));
        }
    } else {
        assert(s.filter(p).map_values(f) =~= Seq::empty());
    }
}

} // verus!
