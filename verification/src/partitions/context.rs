//! The partition keys and the time window that an asset function sees.
use vstd::prelude::*;
use vstd::string::*;
use crate::errors::{Fault, FaultView};
use crate::moment::Moment;
use crate::partitions::definition::{DefView, PartitionsDefinition};
use crate::partitions::factory::def_repr;
use crate::partitions::key::{
    key_view, keys_repr, keys_view, keys_wf, lemma_keys_view, KeyView, PyPartitionKey,
};
use crate::partitions::readings::Readings;
use crate::partitions::rules::time_window_of;
use crate::text::{join_texts, joined, say5, texts};

verus! {

/// The partition keys that a step processes, and their definition.
#[derive(Debug)]
pub struct PartitionContext {
    /// Single-element for normal materialization and MultiRun backfills; multiple
    /// for SingleRun and PerDimension ones.
    pub keys: Vec<PyPartitionKey>,
    pub definition: PartitionsDefinition,
}

/// The window that a list of keys names: that of its only key, where that is one
/// value of a time scheme.
pub open spec fn context_window(keys: Seq<KeyView>, d: DefView, readings: Readings) -> Result<
    Option<(int, int)>,
    FaultView,
> {
    if keys.len() != 1 {
        Ok(None)
    } else {
        match keys[0] {
            KeyView::Single(k) => if k.len() == 1 {
                time_window_of(d, k[0], readings)
            } else {
                Ok(None)
            },
            _ => Ok(None),
        }
    }
}

impl PartitionContext {
    pub open spec fn wf(&self) -> bool {
        keys_wf(self.keys@) && self.definition.wf()
    }

    pub fn new(key: PyPartitionKey, definition: PartitionsDefinition) -> (r: Self)
        ensures
            r.keys@ == seq![key],
            r.definition == definition,
    {
        let mut keys: Vec<PyPartitionKey> = Vec::new();
        keys.push(key);
        proof {
            assert(keys@ =~= seq![key]);
        }
        PartitionContext { keys, definition }
    }

    pub fn new_multi(keys: Vec<PyPartitionKey>, definition: PartitionsDefinition) -> (r: Self)
        ensures
            r.keys == keys,
            r.definition == definition,
    {
        PartitionContext { keys, definition }
    }

    /// The first partition key.
    pub fn first_key(&self) -> (r: &PyPartitionKey)
        requires
            self.keys@.len() > 0,
        ensures
            *r == self.keys@[0],
    {
        &self.keys[0]
    }

    /// For TimeWindow partitions, the start and end of the window of the only key.
    pub fn time_window(&self, readings: &Readings) -> (r: Result<Option<(Moment, Moment)>, Fault>)
        requires
            self.wf(),
            readings.wf(),
        ensures
            match r {
                Ok(Some((a, b))) => a.wf() && b.wf() && context_window(
                    keys_view(self.keys@),
                    self.definition@,
                    *readings,
                ) == Ok::<Option<(int, int)>, FaultView>(Some((a.at(), b.at()))),
                Ok(None) => context_window(keys_view(self.keys@), self.definition@, *readings)
                    == Ok::<Option<(int, int)>, FaultView>(None),
                Err(e) => context_window(keys_view(self.keys@), self.definition@, *readings)
                    == Err::<Option<(int, int)>, FaultView>(e@),
            },
    {
        proof {
            lemma_keys_view(self.keys@);
        }
        if self.keys.len() != 1 {
            return Ok(None);
        }
        match &self.keys[0] {
            PyPartitionKey::Single { key } => {
                proof {
                    assert(keys_view(self.keys@)[0] == KeyView::Single(texts(key@)));
                }
                if key.len() == 1 {
                    proof {
                        assert(texts(key@)[0] == key@[0]@);
                    }
                    self.definition.compute_time_window(key[0].as_str(), readings)
                } else {
                    Ok(None)
                }
            },
            _ => Ok(None),
        }
    }

    /// The printed form of the context.
    pub fn repr(&self) -> (r: String)
        requires
            self.wf(),
        ensures
            r@ == "PartitionContext(keys=["@ + joined(keys_repr(keys_view(self.keys@)), ", "@)
                + "], definition="@ + def_repr(self.definition@) + ")"@,
    {
        let ghost ks = keys_view(self.keys@);
        let mut out: Vec<String> = Vec::new();
        let mut i: usize = 0;
        proof {
            lemma_keys_view(self.keys@);
            assert(ks.take(0) =~= Seq::empty());
            assert(texts(out@) =~= Seq::empty());
        }
        while i < self.keys.len()
            invariant
                ks == keys_view(self.keys@),
                ks.len() == self.keys@.len(),
                forall|j: int| 0 <= j < self.keys@.len() ==> (#[trigger] self.keys@[j]).wf(),
                forall|j: int|
                    0 <= j < self.keys@.len() ==> #[trigger] ks[j] == key_view(self.keys@[j]),
                i <= self.keys@.len(),
                texts(out@) == keys_repr(ks.take(i as int)),
            decreases self.keys@.len() - i,
        {
            proof {
                assert(ks.take(i + 1).drop_last() =~= ks.take(i as int));
                assert(ks.take(i + 1).last() == ks[i as int]);
            }
            let s = self.keys[i].repr();
            let ghost prev = texts(out@);
            let ghost e = s@;
            out.push(s);
            proof {
                assert(texts(out@) =~= prev.push(e));
            }
            i += 1;
        }
        proof {
            assert(ks.take(i as int) =~= ks);
        }
        say5(
            "PartitionContext(keys=[",
            join_texts(&out, ", ").as_str(),
            "], definition=",
            self.definition.repr().as_str(),
            ")",
        )
    }
}

} // verus!
