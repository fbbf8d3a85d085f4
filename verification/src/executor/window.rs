//! A window over instances: so many are in flight at once, each that ends lets the
//! next one in, and none is let in after a failure.
use vstd::prelude::*;

verus! {

/// What the host does next.
#[derive(Clone, Copy, PartialEq, Eq, Structural, Debug)]
pub enum WindowAction {
    /// Submit the instance of this number.
    Submit(usize),
    /// Wait until an instance in flight has ended.
    Wait,
    /// Nothing more.
    Done,
}

/// The window: `next` is the number of the instance that comes next, and those in
/// flight are listed in the order of their submission.
#[derive(Debug)]
pub struct Window {
    pub count: usize,
    pub limit: usize,
    pub next: usize,
    pub in_flight: Vec<usize>,
    pub failed: bool,
    /// The window is being filled for the first time.
    pub filling: bool,
    /// An instance has ended and its place is free.
    pub owed: bool,
    pub stopped: bool,
}

/// What a window is.
pub struct WindowView {
    pub count: int,
    pub limit: int,
    pub next: int,
    pub in_flight: Seq<usize>,
    pub failed: bool,
    pub filling: bool,
    pub owed: bool,
    pub stopped: bool,
}

impl View for Window {
    type V = WindowView;

    open spec fn view(&self) -> WindowView {
        WindowView {
            count: self.count as int,
            limit: self.limit as int,
            next: self.next as int,
            in_flight: self.in_flight@,
            failed: self.failed,
            filling: self.filling,
            owed: self.owed,
            stopped: self.stopped,
        }
    }
}

/// Whether the next instance is let in: while the window is filled for the first time
/// as long as there is room, later in place of one that has ended unless something
/// has failed.
pub open spec fn lets_in(w: WindowView) -> bool {
    w.next < w.count && !w.stopped && ((w.filling && w.in_flight.len() < w.limit) || (w.owed
        && !w.failed))
}

/// The next action of a window.
pub open spec fn window_action(w: WindowView) -> WindowAction {
    if lets_in(w) {
        WindowAction::Submit(w.next as usize)
    } else if w.in_flight.len() > 0 && !w.stopped {
        WindowAction::Wait
    } else {
        WindowAction::Done
    }
}

/// A window after its next instance was submitted.
pub open spec fn submitted(w: WindowView) -> WindowView {
    WindowView { in_flight: w.in_flight.push(w.next as usize), next: w.next + 1, owed: false, ..w }
}

/// A window after its next instance could not be submitted.
pub open spec fn not_submitted(w: WindowView) -> WindowView {
    WindowView { failed: true, next: w.next + 1, owed: false, ..w }
}

/// A window after the instance at a place of those in flight has ended.
pub open spec fn ended(w: WindowView, at: int, ok: bool) -> WindowView {
    WindowView {
        in_flight: w.in_flight.remove(at),
        failed: w.failed || !ok,
        filling: false,
        owed: true,
        ..w
    }
}

/// The window keeps to its limit: no more instances than that are in flight, each of
/// them was let in, and none twice.
pub open spec fn window_wf(w: WindowView) -> bool {
    &&& 0 <= w.next <= w.count <= usize::MAX
    &&& w.in_flight.len() <= w.limit
    &&& forall|i: int| 0 <= i < w.in_flight.len() ==> (#[trigger] w.in_flight[i]) < w.next
    &&& forall|i: int, j: int|
        0 <= i < j < w.in_flight.len() ==> #[trigger] w.in_flight[i] != #[trigger] w.in_flight[j]
    &&& w.owed ==> w.in_flight.len() < w.limit
    &&& !w.filling && !w.owed && w.in_flight.len() == 0 && !w.stopped ==> w.failed || w.next
        == w.count
}

/// The limit holds whatever happens.
pub proof fn lemma_window_kept(w: WindowView)
    requires
        window_wf(w),
    ensures
        lets_in(w) ==> window_wf(submitted(w)) && window_wf(not_submitted(w)),
        forall|at: int, ok: bool|
            0 <= at < w.in_flight.len() ==> window_wf(#[trigger] ended(w, at, ok)),
{
    if lets_in(w) {
        let s = submitted(w);
        assert forall|i: int, j: int| 0 <= i < j < s.in_flight.len() implies #[trigger] s.in_flight[i]
            != #[trigger] s.in_flight[j] by {
            if j < w.in_flight.len() {
                assert(w.in_flight[i] != w.in_flight[j]);
            } else {
                assert(w.in_flight[i] < w.next);
            }
        }
        assert forall|i: int| 0 <= i < s.in_flight.len() implies (#[trigger] s.in_flight[i])
            < s.next by {
            if i < w.in_flight.len() {
                assert(w.in_flight[i] < w.next);
            }
        }
        let n = not_submitted(w);
        assert forall|i: int| 0 <= i < n.in_flight.len() implies (#[trigger] n.in_flight[i])
            < n.next by {
            assert(w.in_flight[i] < w.next);
        }
    }
    assert forall|at: int, ok: bool| 0 <= at < w.in_flight.len() implies window_wf(
        #[trigger] ended(w, at, ok),
    ) by {
        let e = ended(w, at, ok);
        assert forall|i: int| 0 <= i < e.in_flight.len() implies (#[trigger] e.in_flight[i])
            < e.next by {
            if i < at {
                assert(w.in_flight[i] < w.next);
            } else {
                assert(w.in_flight[i + 1] < w.next);
            }
        }
        assert forall|i: int, j: int| 0 <= i < j < e.in_flight.len() implies #[trigger] e.in_flight[i]
            != #[trigger] e.in_flight[j] by {
            let a = if i < at {
                i
            } else {
                i + 1
            };
            let b = if j < at {
                j
            } else {
                j + 1
            };
            assert(w.in_flight[a] != w.in_flight[b]);
        }
    }
}

/// Where nothing fails and there is any room, every instance has been submitted and
/// has ended by the time the window is done.
pub proof fn lemma_window_done(w: WindowView)
    requires
        window_wf(w),
        window_action(w) is Done,
        !w.failed,
        !w.stopped,
        w.limit > 0,
    ensures
        w.next == w.count,
        w.in_flight.len() == 0,
{
}

/// Once an instance has ended, none is let in after a failure.
pub proof fn lemma_window_after_failure(w: WindowView)
    requires
        window_wf(w),
        !w.filling,
        w.failed,
    ensures
        !lets_in(w),
{
}

/// A window without room submits nothing.
pub proof fn lemma_window_without_room(count: int)
    requires
        count >= 0,
    ensures
        window_action(
            WindowView {
                count,
                limit: 0,
                next: 0,
                in_flight: Seq::empty(),
                failed: false,
                filling: true,
                owed: false,
                stopped: false,
            },
        ) is Done,
{
}

impl Window {
    pub open spec fn wf(&self) -> bool {
        window_wf(self@)
    }

    /// A window over `count` instances, `limit` of them in flight at once.
    pub fn new(count: usize, limit: usize) -> (r: Self)
        ensures
            r.wf(),
            r@ == (WindowView {
                count: count as int,
                limit: limit as int,
                next: 0,
                in_flight: Seq::empty(),
                failed: false,
                filling: true,
                owed: false,
                stopped: false,
            }),
    {
        let r = Window {
            count,
            limit,
            next: 0,
            in_flight: Vec::new(),
            failed: false,
            filling: true,
            owed: false,
            stopped: false,
        };
        proof {
            assert(r.in_flight@ =~= Seq::empty());
        }
        r
    }

    /// What the host does next.
    pub fn action(&self) -> (r: WindowAction)
        ensures
            r == window_action(self@),
    {
        if self.next < self.count && !self.stopped && ((self.filling && self.in_flight.len()
            < self.limit) || (self.owed && !self.failed)) {
            WindowAction::Submit(self.next)
        } else if self.in_flight.len() > 0 && !self.stopped {
            WindowAction::Wait
        } else {
            WindowAction::Done
        }
    }

    /// The next instance was submitted.
    pub fn submitted(&mut self)
        requires
            old(self).wf(),
            lets_in(old(self)@),
        ensures
            final(self).wf(),
            final(self)@ == submitted(old(self)@),
    {
        proof {
            lemma_window_kept(self@);
        }
        self.in_flight.push(self.next);
        self.next = self.next + 1;
        self.owed = false;
    }

    /// The next instance could not be submitted; its failure is recorded.
    pub fn submit_failed(&mut self)
        requires
            old(self).wf(),
            lets_in(old(self)@),
        ensures
            final(self).wf(),
            final(self)@ == not_submitted(old(self)@),
    {
        proof {
            lemma_window_kept(self@);
        }
        self.failed = true;
        self.next = self.next + 1;
        self.owed = false;
    }

    /// An instance has ended. Says whether it was in flight: one that was not changes
    /// nothing. What the window lets in is submitted before the next end is told.
    pub fn completed(&mut self, instance: usize, ok: bool) -> (r: bool)
        requires
            old(self).wf(),
            !lets_in(old(self)@),
        ensures
            final(self).wf(),
            r == old(self)@.in_flight.contains(instance),
            match r {
                true => exists|at: int|
                    0 <= at < old(self)@.in_flight.len() && old(self)@.in_flight[at] == instance
                        && final(self)@ == #[trigger] ended(old(self)@, at, ok),
                false => final(self)@ == old(self)@,
            },
    {
        let ghost w = self@;
        let mut i: usize = 0;
        while i < self.in_flight.len()
            invariant
                w == old(self)@,
                self@ == w,
                self.wf(),
                i <= w.in_flight.len(),
                forall|j: int| 0 <= j < i ==> w.in_flight[j] != instance,
            decreases w.in_flight.len() - i,
        {
            if self.in_flight[i] == instance {
                proof {
                    lemma_window_kept(w);
                    assert(w.in_flight.contains(instance));
                    assert(window_wf(ended(w, i as int, ok)));
                }
                let _ = self.in_flight.remove(i);
                if !ok {
                    self.failed = true;
                }
                self.filling = false;
                self.owed = true;
                proof {
                    assert(self@ == ended(w, i as int, ok));
                }
                return true;
            }
            i += 1;
        }
        false
    }

    /// Waiting has failed: the numbers of the instances that fail with it, those in
    /// flight and, where `all` holds, those that were not let in.
    pub fn abandon(&mut self, all: bool) -> (r: Vec<usize>)
        requires
            old(self).wf(),
        ensures
            final(self)@ == (WindowView {
                stopped: true,
                in_flight: Seq::empty(),
                ..old(self)@
            }),
            window_action(final(self)@) is Done,
            r@ == old(self)@.in_flight + (if all {
                rest_of(old(self)@.next, old(self)@.count)
            } else {
                Seq::empty()
            }),
    {
        let ghost w = self@;
        let mut out: Vec<usize> = Vec::new();
        out.append(&mut self.in_flight);
        self.stopped = true;
        proof {
            assert(out@ =~= w.in_flight);
            assert(self.in_flight@ =~= Seq::empty());
        }
        if all {
            let mut n: usize = self.next;
            proof {
                assert(w.in_flight + rest_of(w.next, w.next) =~= w.in_flight);
            }
            while n < self.count
                invariant
                    self@ == (WindowView { stopped: true, in_flight: Seq::empty(), ..w }),
                    w.next <= n <= w.count,
                    out@ == w.in_flight + rest_of(w.next, n as int),
                decreases w.count - n,
            {
                out.push(n);
                proof {
                    assert(out@ =~= w.in_flight + rest_of(w.next, n + 1));
                }
                n += 1;
            }
        } else {
            proof {
                assert(out@ =~= w.in_flight + Seq::empty());
            }
        }
        out
    }
}

/// The numbers from one up to another.
pub open spec fn rest_of(from: int, to: int) -> Seq<usize> {
    Seq::new((to - from) as nat, |i: int| (from + i) as usize)
}

} // verus!
