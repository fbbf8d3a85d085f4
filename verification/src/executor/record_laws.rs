//! What the records of a run say: which of them an output, an observation or a failure
//! leaves behind, for each name and each partition.
use vstd::prelude::*;
use crate::executor::batch::{
    event_for_each, failed_marked, keyed_event, mark_for, marks_of, started_step, succeeded_step,
    unmarked, BatchView, EffectView,
};
use crate::executor::events::{plain_event, EventView, OriginView, TypeView};
use crate::executor::plan::{event_names_of, ExecutionStep};

use crate::partitions::key::KeyView;
use crate::partitions::members::members_of;


verus! {

/// A plain record says who it is about, when it was made and what happened, and nothing
/// of partitions, metadata or inputs.
pub proof fn lemma_plain_record(kind: TypeView, origin: OriginView, step: Seq<char>, ts: i64)
    ensures
        plain_event(kind, origin, step, ts).kind == kind,
        plain_event(kind, origin, step, ts).origin == origin,
        plain_event(kind, origin, step, ts).asset == step,
        plain_event(kind, origin, step, ts).ts == ts,
        plain_event(kind, origin, step, ts).partition is None,
        plain_event(kind, origin, step, ts).metadata.len() == 0,
        plain_event(kind, origin, step, ts).inputs.len() == 0,
{
}

/// A step reports under its outputs, in their order, or under its own name where it has
/// none.
pub proof fn lemma_event_names(step: ExecutionStep)
    ensures
        step.outputs@.len() == 0 ==> event_names_of(step).len() == 1 && event_names_of(step)[0]
            == step.name@,
        step.outputs@.len() > 0 ==> event_names_of(step).len() == step.outputs@.len() && forall|
            i: int,
        |
            0 <= i < step.outputs@.len() ==> #[trigger] event_names_of(step)[i]
                == step.outputs@[i]@,
{
}

/// The start and the success of a step are one record each, and nothing else changes.
pub proof fn lemma_step_records(b: BatchView, step: Seq<char>, ts: i64)
    ensures
        started_step(b, step, ts) == (BatchView {
            effects: b.effects.push(
                EffectView::Event(
                    EventView {
                        origin: b.origin,
                        kind: TypeView::StepStart,
                        asset: step,
                        partition: None,
                        ts,
                        metadata: Seq::empty(),
                        inputs: Seq::empty(),
                    },
                ),
            ),
            ..b
        }),
        succeeded_step(b, step, ts) == (BatchView {
            effects: b.effects.push(
                EffectView::Event(
                    EventView {
                        origin: b.origin,
                        kind: TypeView::StepSuccess,
                        asset: step,
                        partition: None,
                        ts,
                        metadata: Seq::empty(),
                        inputs: Seq::empty(),
                    },
                ),
            ),
            ..b
        }),
{
}

/// The last mark of a key counts; a key without a mark is not failed.
pub proof fn lemma_last_mark(marks: Seq<(KeyView, Seq<char>)>, k: KeyView)
    ensures
        match mark_for(marks, k) {
            Some(error) => exists|i: int|
                0 <= i < marks.len() && #[trigger] marks[i] == (k, error) && forall|j: int|
                    i < j < marks.len() ==> (#[trigger] marks[j]).0 != k,
            None => forall|i: int| 0 <= i < marks.len() ==> (#[trigger] marks[i]).0 != k,
        },
    decreases marks.len(),
{
    if marks.len() > 0 {
        let w = marks.drop_last();
        if marks.last().0 == k {
            assert(marks[marks.len() - 1] == (k, marks.last().1));
        } else {
            lemma_last_mark(w, k);
            match mark_for(w, k) {
                Some(error) => {
                    let i = choose|i: int|
                        0 <= i < w.len() && #[trigger] w[i] == (k, error) && forall|j: int|
                            i < j < w.len() ==> (#[trigger] w[j]).0 != k;
                    assert(marks[i] == (k, error));
                    assert forall|j: int| i < j < marks.len() implies (#[trigger] marks[j]).0
                        != k by {
                        if j < w.len() {
                            assert(w[j].0 != k);
                        }
                    }
                },
                None => {
                    assert forall|i: int| 0 <= i < marks.len() implies (#[trigger] marks[i]).0
                        != k by {
                        if i < w.len() {
                            assert(w[i].0 != k);
                        }
                    }
                },
            }
        }
    }
}

/// The marks of a step are those that are kept under its name; where there are none, none
/// of its partitions is marked.
pub proof fn lemma_kept_marks(b: BatchView, step: Seq<char>)
    ensures
        b.marks.dom().contains(step) ==> marks_of(b, step) == b.marks[step],
        !b.marks.dom().contains(step) ==> marks_of(b, step).len() == 0,
{
}

/// The record of a partition that was marked as failed.
pub open spec fn marked_record(
    origin: OriginView,
    step: Seq<char>,
    k: KeyView,
    error: Seq<char>,
    ts: i64,
) -> EffectView {
    EffectView::Event(
        EventView {
            origin,
            kind: TypeView::StepFailure(error, None),
            asset: step,
            partition: Some(k),
            ts,
            metadata: Seq::empty(),
            inputs: Seq::empty(),
        },
    )
}

proof fn lemma_marked_records(
    b: BatchView,
    step: Seq<char>,
    members: Seq<KeyView>,
    marks: Seq<(KeyView, Seq<char>)>,
    ts: i64,
)
    ensures
        failed_marked(b, step, members, marks, ts) == (BatchView {
            effects: b.effects + members.filter(
                |k: KeyView| mark_for(marks, k) is Some,
            ).map_values(
                |k: KeyView| marked_record(b.origin, step, k, mark_for(marks, k)->0, ts),
            ),
            ..b
        }),
    decreases members.len(),
{
    reveal(Seq::filter);
    let p = |k: KeyView| mark_for(marks, k) is Some;
    let f = |k: KeyView| marked_record(b.origin, step, k, mark_for(marks, k)->0, ts);
    if members.len() > 0 {
        let w = members.drop_last();
        lemma_marked_records(b, step, w, marks, ts);
        if p(members.last()) {
            assert(members.filter(p) == w.filter(p).push(members.last()));
            assert(b.effects + members.filter(p).map_values(f) =~= (b.effects + w.filter(
                p,
            ).map_values(f)).push(f(members.last())));
        }
    } else {
        assert(b.effects + members.filter(p).map_values(f) =~= b.effects);
    }
}

proof fn lemma_unmarked_records(
    b: BatchView,
    members: Seq<KeyView>,
    marks: Seq<(KeyView, Seq<char>)>,
    e: EventView,
)
    ensures
        event_for_each(b, unmarked(members, marks), e) == (BatchView {
            effects: b.effects + members.filter(
                |k: KeyView| mark_for(marks, k) is None,
            ).map_values(|k: KeyView| EffectView::Event(EventView { partition: Some(k), ..e })),
            ..b
        }),
    decreases members.len(),
{
    reveal(Seq::filter);
    let p = |k: KeyView| mark_for(marks, k) is None;
    let f = |k: KeyView| EffectView::Event(EventView { partition: Some(k), ..e });
    if members.len() > 0 {
        let w = members.drop_last();
        lemma_unmarked_records(b, w, marks, e);
        if p(members.last()) {
            let u = unmarked(members, marks);
            assert(u.drop_last() =~= unmarked(w, marks));
            assert(u.last() == members.last());
            assert(b.effects + members.filter(p).map_values(f) =~= (b.effects + w.filter(
                p,
            ).map_values(f)).push(f(members.last())));
        }
    } else {
        assert(b.effects + members.filter(p).map_values(f) =~= b.effects);
    }
}

/// A record of a step in an unpartitioned run is written as it is. In a partitioned run
/// each member of the key gets one: a failure with the reason of its last mark where it
/// is marked, these first, else the record itself.
pub proof fn lemma_keyed_records(b: BatchView, step: Seq<char>, e: EventView)
    ensures
        b.partition is None ==> keyed_event(b, step, e) == (BatchView {
            effects: b.effects.push(EffectView::Event(e)),
            ..b
        }),
        b.partition matches Some(pk) ==> ({
            let marks = marks_of(b, step);
            keyed_event(b, step, e) == (BatchView {
                effects: b.effects + (members_of(pk).filter(
                    |k: KeyView| mark_for(marks, k) is Some,
                ).map_values(
                    |k: KeyView| marked_record(b.origin, step, k, mark_for(marks, k)->0, e.ts),
                ) + members_of(pk).filter(|k: KeyView| mark_for(marks, k) is None).map_values(
                    |k: KeyView| EffectView::Event(EventView { partition: Some(k), ..e }),
                )),
                ..b
            })
        }),
{
    if let Some(pk) = b.partition {
        let marks = marks_of(b, step);
        let ms = members_of(pk);
        lemma_marked_records(b, step, ms, marks, e.ts);
        let m = failed_marked(b, step, ms, marks, e.ts);
        lemma_unmarked_records(m, ms, marks, e);
        let x = ms.filter(|k: KeyView| mark_for(marks, k) is Some).map_values(
            |k: KeyView| marked_record(b.origin, step, k, mark_for(marks, k)->0, e.ts),
        );
        let y = ms.filter(|k: KeyView| mark_for(marks, k) is None).map_values(
            |k: KeyView| EffectView::Event(EventView { partition: Some(k), ..e }),
        );
        assert(m.effects + y =~= b.effects + (x + y));
    }
}

/// What is left of a list are its items that meet a condition; with the others they are as
/// many as the list has.
pub proof fn lemma_filter_split(members: Seq<KeyView>, p: spec_fn(KeyView) -> bool, k: KeyView)
    ensures
        members.filter(p).contains(k) <==> members.contains(k) && p(k),
        members.filter(p).len() + members.filter(|x: KeyView| !p(x)).len() == members.len(),
    decreases members.len(),
{
    reveal(Seq::filter);
    let q = |x: KeyView| !p(x);
    if members.len() > 0 {
        let w = members.drop_last();
        lemma_filter_split(w, p, k);
        let u = w.filter(p);
        let r = members.filter(p);
        if r.contains(k) {
            let i = choose|i: int| 0 <= i < r.len() && r[i] == k;
            if i < u.len() {
                assert(u[i] == k);
                assert(u.contains(k));
                let j = choose|j: int| 0 <= j < w.len() && w[j] == k;
                assert(members[j] == k);
            } else {
                assert(members[members.len() - 1] == k);
            }
        }
        if members.contains(k) && p(k) {
            let j = choose|j: int| 0 <= j < members.len() && members[j] == k;
            if j < w.len() {
                assert(w[j] == k);
                assert(w.contains(k));
                let i = choose|i: int| 0 <= i < u.len() && u[i] == k;
                assert(r[i] == k);
            } else {
                assert(r[u.len() as int] == k);
            }
        }
    }
}

/// Of each member of the key of a run the record of a step leaves one record: the failure
/// that its last mark gives, and then none of the step's own, or the step's own record.
/// As many records are written as there are members.
pub proof fn lemma_member_record(b: BatchView, step: Seq<char>, e: EventView, k: KeyView)
    requires
        b.partition is Some,
        members_of(b.partition->0).contains(k),
    ensures
        ({
            let marks = marks_of(b, step);
            let new = keyed_event(b, step, e).effects.skip(b.effects.len() as int);
            &&& new.len() == members_of(b.partition->0).len()
            &&& forall|i: int|
                0 <= i < marks.len() && (#[trigger] marks[i]).0 == k && (forall|j: int|
                    i < j < marks.len() ==> (#[trigger] marks[j]).0 != k) ==> new.contains(
                    marked_record(b.origin, step, k, marks[i].1, e.ts),
                )
            &&& (exists|i: int| 0 <= i < marks.len() && (#[trigger] marks[i]).0 == k) ==> forall|
                x: int,
            |
                0 <= x < new.len() && (#[trigger] new[x])->Event_0.partition == Some(k)
                    ==> new[x]->Event_0.kind is StepFailure
            &&& (forall|i: int| 0 <= i < marks.len() ==> (#[trigger] marks[i]).0 != k)
                ==> new.contains(EffectView::Event(EventView { partition: Some(k), ..e }))
        }),
{
    let marks = marks_of(b, step);
    let ms = members_of(b.partition->0);
    let p = |x: KeyView| mark_for(marks, x) is Some;
    let q = |x: KeyView| mark_for(marks, x) is None;
    let f = |x: KeyView| marked_record(b.origin, step, x, mark_for(marks, x)->0, e.ts);
    let g = |x: KeyView| EffectView::Event(EventView { partition: Some(x), ..e });
    let fails = ms.filter(p).map_values(f);
    let goods = ms.filter(q).map_values(g);
    let new = keyed_event(b, step, e).effects.skip(b.effects.len() as int);
    lemma_keyed_records(b, step, e);
    assert(new =~= fails + goods);
    lemma_filter_split(ms, p, k);
    lemma_filter_split(ms, q, k);
    lemma_filter_same(ms, |x: KeyView| !p(x), q);
    lemma_last_mark(marks, k);
    if p(k) {
        let i = choose|i: int| 0 <= i < ms.filter(p).len() && ms.filter(p)[i] == k;
        assert(new[i] == f(k));
        let at = choose|at: int|
            0 <= at < marks.len() && #[trigger] marks[at] == (k, mark_for(marks, k)->0) && forall|
                j: int,
            |
                at < j < marks.len() ==> (#[trigger] marks[j]).0 != k;
        assert forall|i: int|
            0 <= i < marks.len() && (#[trigger] marks[i]).0 == k && (forall|j: int|
                i < j < marks.len() ==> (#[trigger] marks[j]).0 != k) implies new.contains(
            marked_record(b.origin, step, k, marks[i].1, e.ts),
        ) by {
            if i < at {
                assert(marks[at].0 == k);
            }
            assert(i == at);
        }
        assert forall|x: int| 0 <= x < new.len() && (#[trigger] new[x])->Event_0.partition == Some(
            k,
        ) implies new[x]->Event_0.kind is StepFailure by {
            if x >= fails.len() {
                let y = ms.filter(q)[x - fails.len()];
                assert(new[x] == g(y));
                assert(y == k);
                assert(ms.filter(q).contains(k));
            } else {
                assert(new[x] == f(ms.filter(p)[x]));
            }
        }
    } else {
        let i = choose|i: int| 0 <= i < ms.filter(q).len() && ms.filter(q)[i] == k;
        assert(new[fails.len() + i] == g(k));
    }
}

proof fn lemma_filter_same(
    s: Seq<KeyView>,
    p: spec_fn(KeyView) -> bool,
    q: spec_fn(KeyView) -> bool,
)
    requires
        forall|k: KeyView| #[trigger] p(k) == q(k),
    ensures
        s.filter(p) == s.filter(q),
    decreases s.len(),
{
    reveal(Seq::filter);
    if s.len() > 0 {
        lemma_filter_same(s.drop_last(), p, q);
        assert(p(s.last()) == q(s.last()));
    }
}

} // verus!
