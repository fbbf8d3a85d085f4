//! Maps from names to values that keep the order in which names came in.
use vstd::prelude::*;
use crate::text::{
    has_text, lemma_sorted_lists_set, same_text, set_in_order, sort_texts, sorted_texts, texts,
};

verus! {

/// The map that a list of name and value pairs stands for; of two pairs with one
/// name the later counts.
pub open spec fn pairs_map<V>(s: Seq<(String, V)>) -> Map<Seq<char>, V>
    decreases s.len(),
{
    if s.len() == 0 {
        Map::empty()
    } else {
        pairs_map(s.drop_last()).insert(s.last().0@, s.last().1)
    }
}

/// The names of a list of pairs, in their order.
pub open spec fn pair_names<V>(s: Seq<(String, V)>) -> Seq<Seq<char>> {
    s.map_values(|p: (String, V)| p.0@)
}

/// No name occurs in two pairs.
pub open spec fn distinct_names<V>(s: Seq<(String, V)>) -> bool {
    forall|i: int, j: int| 0 <= i < j < s.len() ==> (#[trigger] s[i]).0@ != (#[trigger] s[j]).0@
}

/// A name is in the map of a list of pairs exactly when a pair carries it.
pub proof fn lemma_pairs_dom<V>(s: Seq<(String, V)>, name: Seq<char>)
    ensures
        pairs_map(s).dom().contains(name) <==> exists|i: int|
            0 <= i < s.len() && (#[trigger] s[i]).0@ == name,
    decreases s.len(),
{
    if s.len() > 0 {
        lemma_pairs_dom(s.drop_last(), name);
        if exists|i: int| 0 <= i < s.drop_last().len() && (#[trigger] s.drop_last()[i]).0@ == name {
            let i = choose|i: int|
                0 <= i < s.drop_last().len() && (#[trigger] s.drop_last()[i]).0@ == name;
            assert(s[i].0@ == name);
        }
        if exists|i: int| 0 <= i < s.len() && (#[trigger] s[i]).0@ == name {
            let i = choose|i: int| 0 <= i < s.len() && (#[trigger] s[i]).0@ == name;
            if i < s.len() - 1 {
                assert(s.drop_last()[i].0@ == name);
            }
        }
        assert(s[s.len() - 1].0@ == s.last().0@);
    }
}

/// The value of a name is that of the last pair that carries it.
pub proof fn lemma_pairs_value<V>(s: Seq<(String, V)>, i: int)
    requires
        0 <= i < s.len(),
        forall|j: int| i < j < s.len() ==> (#[trigger] s[j]).0@ != s[i].0@,
    ensures
        pairs_map(s).dom().contains(s[i].0@),
        pairs_map(s)[s[i].0@] == s[i].1,
    decreases s.len(),
{
    if i < s.len() - 1 {
        assert(s[s.len() - 1].0@ != s[i].0@);
        assert forall|j: int| i < j < s.drop_last().len() implies (
        #[trigger] s.drop_last()[j]).0@ != s.drop_last()[i].0@ by {
            assert(s[j].0@ != s[i].0@);
        }
        lemma_pairs_value(s.drop_last(), i);
    }
}

/// With distinct names the map has one entry for each pair.
pub proof fn lemma_pairs_len<V>(s: Seq<(String, V)>)
    requires
        distinct_names(s),
    ensures
        pairs_map(s).dom().finite(),
        pairs_map(s).dom().len() == s.len(),
    decreases s.len(),
{
    if s.len() > 0 {
        let w = s.drop_last();
        assert(distinct_names(w)) by {
            assert forall|i: int, j: int| 0 <= i < j < w.len() implies (#[trigger] w[i]).0@ != (
            #[trigger] w[j]).0@ by {
                assert(s[i].0@ != s[j].0@);
            }
        }
        lemma_pairs_len(w);
        lemma_pairs_dom(w, s.last().0@);
        if pairs_map(w).dom().contains(s.last().0@) {
            let i = choose|i: int| 0 <= i < w.len() && (#[trigger] w[i]).0@ == s.last().0@;
            assert(s[i].0@ != s[s.len() - 1].0@);
        }
        assert(pairs_map(s).dom() =~= pairs_map(w).dom().insert(s.last().0@));
    }
}

proof fn lemma_pairs_update<V>(s: Seq<(String, V)>, i: int, p: (String, V))
    requires
        distinct_names(s),
        0 <= i < s.len(),
        p.0@ == s[i].0@,
    ensures
        pairs_map(s.update(i, p)) == pairs_map(s).insert(p.0@, p.1),
    decreases s.len(),
{
    let t = s.update(i, p);
    if i == s.len() - 1 {
        assert(t.drop_last() =~= s.drop_last());
        assert(pairs_map(t) =~= pairs_map(s).insert(p.0@, p.1));
    } else {
        let w = s.drop_last();
        assert(distinct_names(w)) by {
            assert forall|a: int, b: int| 0 <= a < b < w.len() implies (#[trigger] w[a]).0@ != (
            #[trigger] w[b]).0@ by {
                assert(s[a].0@ != s[b].0@);
            }
        }
        lemma_pairs_update(w, i, p);
        assert(t.drop_last() =~= w.update(i, p));
        assert(s[i].0@ != s[s.len() - 1].0@);
        assert(pairs_map(t) =~= pairs_map(s).insert(p.0@, p.1));
    }
}

/// A map from names to values. Names come in the order of their first insertion.
#[derive(Debug)]
pub struct NameMap<V> {
    pub entries: Vec<(String, V)>,
}

impl<V> View for NameMap<V> {
    type V = Map<Seq<char>, V>;

    open spec fn view(&self) -> Map<Seq<char>, V> {
        pairs_map(self.entries@)
    }
}

impl<V> NameMap<V> {
    /// No name occurs twice.
    pub open spec fn wf(&self) -> bool {
        distinct_names(self.entries@)
    }

    pub fn new() -> (r: Self)
        ensures
            r.wf(),
            r@ == Map::<Seq<char>, V>::empty(),
            r.entries@.len() == 0,
    {
        NameMap { entries: Vec::new() }
    }

    /// Where the pair of a name stands.
    pub fn position(&self, name: &str) -> (r: Option<usize>)
        ensures
            match r {
                Some(i) => {
                    &&& i < self.entries@.len()
                    &&& self.entries@[i as int].0@ == name@
                    &&& forall|j: int| i < j < self.entries@.len() ==> (
                    #[trigger] self.entries@[j]).0@ != name@
                    &&& self@.dom().contains(name@)
                    &&& self@[name@] == self.entries@[i as int].1
                },
                None => !self@.dom().contains(name@),
            },
    {
        let mut i: usize = self.entries.len();
        while i > 0
            invariant
                i <= self.entries@.len(),
                forall|j: int| i <= j < self.entries@.len() ==> (#[trigger] self.entries@[j]).0@
                    != name@,
            decreases i,
        {
            i -= 1;
            if same_text(self.entries[i].0.as_str(), name) {
                proof {
                    lemma_pairs_value(self.entries@, i as int);
                }
                return Some(i);
            }
        }
        proof {
            lemma_pairs_dom(self.entries@, name@);
        }
        None
    }

    /// The value of a name.
    pub fn get(&self, name: &str) -> (r: Option<&V>)
        ensures
            match r {
                Some(v) => self@.dom().contains(name@) && self@[name@] == *v,
                None => !self@.dom().contains(name@),
            },
    {
        match self.position(name) {
            Some(i) => Some(&self.entries[i].1),
            None => None,
        }
    }

    /// Whether a name has a value.
    pub fn contains(&self, name: &str) -> (r: bool)
        ensures
            r == self@.dom().contains(name@),
    {
        self.position(name).is_some()
    }

    /// Gives a name its value, in place of the one it had.
    pub fn insert(&mut self, name: String, value: V)
        requires
            old(self).wf(),
        ensures
            final(self).wf(),
            final(self)@ == old(self)@.insert(name@, value),
            pair_names(final(self).entries@) == if old(self)@.dom().contains(name@) {
                pair_names(old(self).entries@)
            } else {
                pair_names(old(self).entries@).push(name@)
            },
    {
        let ghost s = self.entries@;
        match self.position(name.as_str()) {
            Some(i) => {
                let ghost p = (name, value);
                self.entries.set(i, (name, value));
                proof {
                    lemma_pairs_update(s, i as int, p);
                    assert(self.entries@ == s.update(i as int, p));
                    assert forall|a: int, b: int|
                        0 <= a < b < self.entries@.len() implies (#[trigger] self.entries@[a]).0@
                        != (#[trigger] self.entries@[b]).0@ by {
                        assert(s[a].0@ != s[b].0@);
                    }
                    assert(pair_names(self.entries@) =~= pair_names(s));
                }
            },
            None => {
                let ghost p = (name, value);
                proof {
                    lemma_pairs_dom(s, name@);
                }
                self.entries.push((name, value));
                proof {
                    assert(self.entries@ == s.push(p));
                    assert(self.entries@.drop_last() =~= s);
                    assert forall|a: int, b: int|
                        0 <= a < b < self.entries@.len() implies (#[trigger] self.entries@[a]).0@
                        != (#[trigger] self.entries@[b]).0@ by {
                        if b < s.len() {
                            assert(s[a].0@ != s[b].0@);
                        } else {
                            assert(s[a].0@ != p.0@);
                        }
                    }
                    assert(pair_names(self.entries@) =~= pair_names(s).push(p.0@));
                }
            },
        }
    }

    /// How many names have a value.
    pub fn len(&self) -> (r: usize)
        requires
            self.wf(),
        ensures
            r == self@.dom().len(),
            r == self.entries@.len(),
    {
        proof {
            lemma_pairs_len(self.entries@);
        }
        self.entries.len()
    }

    /// The names, in the order of their first insertion.
    pub fn names(&self) -> (r: Vec<String>)
        ensures
            texts(r@) == pair_names(self.entries@),
    {
        let mut out: Vec<String> = Vec::new();
        let mut i: usize = 0;
        while i < self.entries.len()
            invariant
                i <= self.entries@.len(),
                texts(out@) == pair_names(self.entries@).take(i as int),
            decreases self.entries@.len() - i,
        {
            let ghost prev = out@;
            out.push(self.entries[i].0.clone());
            proof {
                assert(texts(out@) =~= texts(prev).push(self.entries@[i as int].0@));
                assert(pair_names(self.entries@).take(i + 1) =~= pair_names(self.entries@).take(
                    i as int,
                ).push(self.entries@[i as int].0@));
            }
            i += 1;
        }
        proof {
            assert(pair_names(self.entries@).take(i as int) =~= pair_names(self.entries@));
        }
        out
    }

    /// The names, in order.
    pub fn sorted_names(&self) -> (r: Vec<String>)
        requires
            self.wf(),
        ensures
            texts(r@) == set_in_order(self@.dom()),
            forall|i: int| 0 <= i < r@.len() ==> self@.dom().contains((#[trigger] r@[i])@),
    {
        let out = sort_texts(self.names());
        proof {
            let v = pair_names(self.entries@);
            let d = self@.dom();
            assert forall|k: Seq<char>| #[trigger] v.contains(k) <==> d.contains(k) by {
                lemma_pairs_dom(self.entries@, k);
                if v.contains(k) {
                    let i = choose|i: int| 0 <= i < v.len() && v[i] == k;
                    assert(self.entries@[i].0@ == k);
                }
                if d.contains(k) {
                    let i = choose|i: int|
                        0 <= i < self.entries@.len() && (#[trigger] self.entries@[i]).0@ == k;
                    assert(v[i] == k);
                }
            }
            assert forall|i: int, j: int| 0 <= i < j < v.len() implies #[trigger] v[i]
                != #[trigger] v[j] by {
                assert(self.entries@[i].0@ != self.entries@[j].0@);
            }
            lemma_sorted_lists_set(v, d);
            assert forall|i: int| 0 <= i < out@.len() implies d.contains((#[trigger] out@[i])@) by {
                broadcast use vstd::seq_lib::group_to_multiset_ensures;

                let w = sorted_texts(v);
                crate::text::lemma_sorted_texts(v);
                assert(w[i] == out@[i]@);
                assert(w.contains(w[i]));
                assert(w.to_multiset().contains(w[i]));
                assert(v.contains(w[i]));
            }
        }
        out
    }
}

/// A set of names, in the order of their first insertion.
#[derive(Debug)]
pub struct NameSet {
    pub names: Vec<String>,
}

impl View for NameSet {
    type V = Set<Seq<char>>;

    open spec fn view(&self) -> Set<Seq<char>> {
        texts(self.names@).to_set()
    }
}

impl NameSet {
    pub fn new() -> (r: Self)
        ensures
            r@ == Set::<Seq<char>>::empty(),
    {
        let r = NameSet { names: Vec::new() };
        proof {
            assert(r@ =~= Set::<Seq<char>>::empty());
        }
        r
    }

    /// Whether a name is in the set.
    pub fn contains(&self, name: &str) -> (r: bool)
        ensures
            r == self@.contains(name@),
    {
        has_text(&self.names, name)
    }

    /// Adds a name. Says whether it is new.
    pub fn insert(&mut self, name: String) -> (r: bool)
        ensures
            final(self)@ == old(self)@.insert(name@),
            r == !old(self)@.contains(name@),
    {
        let ghost before = texts(self.names@);
        if self.contains(name.as_str()) {
            proof {
                assert(self@.insert(name@) =~= self@);
            }
            return false;
        }
        let ghost n = name@;
        self.names.push(name);
        proof {
            let after = texts(self.names@);
            assert(after =~= before.push(n));
            assert forall|k: Seq<char>| after.to_set().contains(k) <==> before.to_set().insert(
                n,
            ).contains(k) by {
                if after.contains(k) {
                    let i = choose|i: int| 0 <= i < after.len() && after[i] == k;
                    if i < before.len() {
                        assert(before[i] == k);
                    }
                }
                if before.contains(k) {
                    let i = choose|i: int| 0 <= i < before.len() && before[i] == k;
                    assert(after[i] == k);
                }
                assert(after[before.len() as int] == n);
            }
            assert(after.to_set() =~= before.to_set().insert(n));
        }
        true
    }
}

} // verus!
