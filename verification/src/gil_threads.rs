//! The registry of worker threads that are not yet joined.
use vstd::prelude::*;

verus! {

/// The workers that a code location has spawned and not joined, oldest first. A
/// worker is known by its number.
#[derive(Debug)]
pub struct GilThreads {
    pub handles: Vec<u64>,
}

/// The workers of a list that are not finished.
pub open spec fn unfinished(s: Seq<u64>, finished: Seq<u64>) -> Seq<u64>
    decreases s.len(),
{
    if s.len() == 0 {
        s
    } else if finished.contains(s.last()) {
        unfinished(s.drop_last(), finished)
    } else {
        unfinished(s.drop_last(), finished).push(s.last())
    }
}

/// A worker stays registered exactly while it is not finished.
pub proof fn lemma_unfinished(s: Seq<u64>, finished: Seq<u64>)
    ensures
        forall|h: u64| #[trigger]
            unfinished(s, finished).contains(h) <==> s.contains(h) && !finished.contains(h),
    decreases s.len(),
{
    if s.len() > 0 {
        let w = s.drop_last();
        let u = unfinished(w, finished);
        let r = unfinished(s, finished);
        lemma_unfinished(w, finished);
        assert forall|h: u64| #[trigger] r.contains(h) <==> s.contains(h) && !finished.contains(
            h,
        ) by {
            if r.contains(h) {
                let i = choose|i: int| 0 <= i < r.len() && r[i] == h;
                if i < u.len() {
                    assert(u[i] == h);
                    assert(u.contains(h));
                    let j = choose|j: int| 0 <= j < w.len() && w[j] == h;
                    assert(s[j] == h);
                } else {
                    assert(s[s.len() - 1] == h);
                }
            }
            if s.contains(h) && !finished.contains(h) {
                let j = choose|j: int| 0 <= j < s.len() && s[j] == h;
                if j < w.len() {
                    assert(w[j] == h);
                    assert(w.contains(h));
                    assert(u.contains(h));
                    let i = choose|i: int| 0 <= i < u.len() && u[i] == h;
                    assert(r[i] == h);
                } else {
                    assert(r[u.len() as int] == h);
                }
            }
        }
    }
}

fn has_handle(v: &Vec<u64>, h: u64) -> (r: bool)
    ensures
        r == v@.contains(h),
{
    let mut i: usize = 0;
    while i < v.len()
        invariant
            i <= v@.len(),
            forall|j: int| 0 <= j < i ==> v@[j] != h,
        decreases v@.len() - i,
    {
        if v[i] == h {
            return true;
        }
        i += 1;
    }
    false
}

impl GilThreads {
    pub fn new() -> (r: Self)
        ensures
            r.handles@.len() == 0,
    {
        GilThreads { handles: Vec::new() }
    }

    /// Registers a spawned worker. Already-finished workers are reaped first, so a
    /// long-lived location doesn't accumulate them.
    pub fn spawn(&mut self, handle: u64, finished: &Vec<u64>)
        ensures
            final(self).handles@ == unfinished(old(self).handles@, finished@).push(handle),
    {
        let mut kept: Vec<u64> = Vec::new();
        let ghost s = self.handles@;
        let mut i: usize = 0;
        proof {
            assert(s.take(0) =~= Seq::empty());
        }
        while i < self.handles.len()
            invariant
                s == self.handles@,
                i <= s.len(),
                kept@ == unfinished(s.take(i as int), finished@),
            decreases s.len() - i,
        {
            proof {
                assert(s.take(i + 1).drop_last() =~= s.take(i as int));
                assert(s.take(i + 1).last() == s[i as int]);
            }
            if !has_handle(finished, self.handles[i]) {
                kept.push(self.handles[i]);
            }
            i += 1;
        }
        proof {
            assert(s.take(i as int) =~= s);
        }
        kept.push(handle);
        self.handles = kept;
    }

    /// Hands out every registered worker, to be joined in order. Nothing stays
    /// registered.
    pub fn drain(&mut self) -> (r: Vec<u64>)
        ensures
            r@ == old(self).handles@,
            final(self).handles@.len() == 0,
    {
        let mut out: Vec<u64> = Vec::new();
        out.append(&mut self.handles);
        proof {
            assert(out@ =~= old(self).handles@);
        }
        out
    }
}

} // verus!
