//! Insertion-ordered sets of static partition keys.
use ordermap::OrderSet;
use vstd::prelude::*;
use crate::text::{quoted_list, quoted_list_text, same_texts, texts};

verus! {

/// `ordermap::OrderSet`, a hash set that keeps the order of insertion.
#[verifier::external_type_specification]
#[verifier::external_body]
#[verifier::reject_recursive_types(T)]
#[verifier::reject_recursive_types(S)]
pub struct ExOrderSet<T, S>(OrderSet<T, S>);

/// The texts that a set holds, in the order of insertion.
pub uninterp spec fn set_order(s: OrderSet<String>) -> Seq<Seq<char>>;

/// The texts of a list without those that occurred before.
pub open spec fn first_occurrences(v: Seq<Seq<char>>) -> Seq<Seq<char>>
    decreases v.len(),
{
    if v.len() == 0 {
        v
    } else {
        let w = first_occurrences(v.drop_last());
        if w.contains(v.last()) {
            w
        } else {
            w.push(v.last())
        }
    }
}

/// Collects a list into an `ordermap::OrderSet`: of equal texts the first stays.
#[verifier::external_body]
fn order_set_from(keys: Vec<String>) -> (r: OrderSet<String>)
    ensures
        set_order(r) == first_occurrences(texts(keys@)),
{
    keys.into_iter().collect()
}

/// `ordermap::OrderSet::len`: how many texts the set holds.
#[verifier::external_body]
fn order_set_len(s: &OrderSet<String>) -> (r: usize)
    ensures
        r == set_order(*s).len(),
{
    s.len()
}

/// `ordermap::OrderSet::get_index_of`: the place of a text in the order of
/// insertion.
#[verifier::external_body]
fn order_set_index_of(s: &OrderSet<String>, key: &str) -> (r: Option<usize>)
    ensures
        match r {
            Some(i) => i < set_order(*s).len() && set_order(*s)[i as int] == key@,
            None => !set_order(*s).contains(key@),
        },
{
    s.get_index_of(key)
}

/// `ordermap::OrderSet::get_index`: the text at a place in the order of
/// insertion.
#[verifier::external_body]
fn order_set_at(s: &OrderSet<String>, idx: usize) -> (r: Option<&String>)
    ensures
        match r {
            Some(k) => idx < set_order(*s).len() && k@ == set_order(*s)[idx as int],
            None => idx >= set_order(*s).len(),
        },
{
    s.get_index(idx)
}

/// Insertion-ordered set of static partition keys.
#[derive(Debug)]
pub struct OrderedKeySet(OrderSet<String>);

/// No text occurs twice.
pub open spec fn no_repeats(v: Seq<Seq<char>>) -> bool {
    forall|i: int, j: int| 0 <= i < j < v.len() ==> #[trigger] v[i] != #[trigger] v[j]
}

/// What is left of a list holds each of its texts once.
pub proof fn lemma_first_occurrences(v: Seq<Seq<char>>)
    ensures
        no_repeats(first_occurrences(v)),
        forall|k: Seq<char>| first_occurrences(v).contains(k) <==> v.contains(k),
        first_occurrences(v).len() <= v.len(),
    decreases v.len(),
{
    if v.len() > 0 {
        let u = v.drop_last();
        let w = first_occurrences(u);
        lemma_first_occurrences(u);
        assert forall|k: Seq<char>| first_occurrences(v).contains(k) <==> v.contains(k) by {
            if v.contains(k) {
                let i = choose|i: int| 0 <= i < v.len() && v[i] == k;
                if i < u.len() {
                    assert(u[i] == k);
                    assert(u.contains(k));
                    assert(first_occurrences(u).contains(k));
                    let j = choose|j: int| 0 <= j < w.len() && w[j] == k;
                    assert(first_occurrences(v)[j] == k);
                } else if !w.contains(k) {
                    assert(first_occurrences(v)[w.len() as int] == k);
                }
            }
            if first_occurrences(v).contains(k) {
                let j = choose|j: int|
                    0 <= j < first_occurrences(v).len() && first_occurrences(v)[j] == k;
                if j < w.len() {
                    assert(w[j] == k);
                    assert(u.contains(k));
                    let i = choose|i: int| 0 <= i < u.len() && u[i] == k;
                    assert(v[i] == k);
                } else {
                    assert(v[v.len() - 1] == k);
                }
            }
        }
        if !w.contains(v.last()) {
            assert forall|i: int, j: int|
                0 <= i < j < w.push(v.last()).len() implies #[trigger] w.push(v.last())[i]
                != #[trigger] w.push(v.last())[j] by {
                if j == w.len() {
                    assert(w.contains(w[i]));
                }
            }
        }
    }
}

/// A list without repetitions is left as it is.
pub proof fn lemma_first_occurrences_of_distinct(v: Seq<Seq<char>>)
    requires
        no_repeats(v),
    ensures
        first_occurrences(v) == v,
    decreases v.len(),
{
    if v.len() > 0 {
        let u = v.drop_last();
        assert(no_repeats(u)) by {
            assert forall|i: int, j: int| 0 <= i < j < u.len() implies #[trigger] u[i]
                != #[trigger] u[j] by {
                assert(v[i] != v[j]);
            }
        }
        lemma_first_occurrences_of_distinct(u);
        if u.contains(v.last()) {
            let i = choose|i: int| 0 <= i < u.len() && u[i] == v.last();
            assert(v[i] != v[v.len() - 1]);
        }
        assert(u.push(v.last()) =~= v);
    }
}

impl View for OrderedKeySet {
    type V = Seq<Seq<char>>;

    closed spec fn view(&self) -> Seq<Seq<char>> {
        set_order(self.0)
    }
}

impl OrderedKeySet {
    /// The set holds no key twice.
    pub open spec fn wf(&self) -> bool {
        no_repeats(self@)
    }

    /// Build from a key list; duplicate keys collapse.
    pub fn new(keys: Vec<String>) -> (r: Self)
        ensures
            r@ == first_occurrences(texts(keys@)),
            r.wf(),
    {
        proof {
            lemma_first_occurrences(texts(keys@));
        }
        OrderedKeySet(order_set_from(keys))
    }

    /// The keys, in definition order.
    pub fn iter(&self) -> (r: Vec<String>)
        ensures
            texts(r@) == self@,
    {
        let n: usize = self.len();
        let mut out: Vec<String> = Vec::new();
        let mut i: usize = 0;
        while i < n
            invariant
                n == self@.len(),
                i <= n,
                texts(out@) == self@.take(i as int),
            decreases n - i,
        {
            if let Some(k) = order_set_at(&self.0, i) {
                let ghost prev = texts(out@);
                out.push(k.clone());
                proof {
                    assert(texts(out@) =~= prev.push(self@[i as int]));
                    assert(self@.take(i + 1) =~= self@.take(i as int).push(self@[i as int]));
                }
            }
            i += 1;
        }
        proof {
            assert(self@.take(n as int) =~= self@);
        }
        out
    }

    pub fn len(&self) -> (r: usize)
        ensures
            r == self@.len(),
    {
        order_set_len(&self.0)
    }

    pub fn is_empty(&self) -> (r: bool)
        ensures
            r == (self@.len() == 0),
    {
        self.len() == 0
    }

    /// Membership test.
    pub fn contains(&self, key: &str) -> (r: bool)
        ensures
            r == self@.contains(key@),
    {
        self.get_index_of(key).is_some()
    }

    /// Position of `key` in definition order, if present.
    pub fn get_index_of(&self, key: &str) -> (r: Option<usize>)
        ensures
            match r {
                Some(i) => i < self@.len() && self@[i as int] == key@,
                None => !self@.contains(key@),
            },
    {
        let r = order_set_index_of(&self.0, key);
        proof {
            if let Some(i) = r {
                assert(self@[i as int] == key@);
            }
        }
        r
    }

    /// The key at position `idx` in definition order, if in range.
    pub fn get_at(&self, idx: usize) -> (r: Option<&String>)
        ensures
            match r {
                Some(k) => idx < self@.len() && k@ == self@[idx as int],
                None => idx >= self@.len(),
            },
    {
        order_set_at(&self.0, idx)
    }

    /// A set with the same keys in the same order.
    pub fn copy(&self) -> (r: Self)
        requires
            self.wf(),
        ensures
            r@ == self@,
    {
        proof {
            lemma_first_occurrences_of_distinct(self@);
        }
        OrderedKeySet::new(self.iter())
    }

    /// Whether two sets hold the same keys in the same order.
    pub fn same(&self, other: &Self) -> (r: bool)
        ensures
            r == (self@ == other@),
    {
        same_texts(&self.iter(), &other.iter())
    }

    /// The keys, quoted, in square brackets.
    pub fn debug_text(&self) -> (r: String)
        ensures
            r@ == quoted_list(self@),
    {
        quoted_list_text(&self.iter())
    }
}

} // verus!
