//! Text: comparison, order, joining and the decimal and quoted forms that
//! messages are made of. A text is modelled by its sequence of characters.
use vstd::prelude::*;
use vstd::string::*;

verus! {

/// The characters of each text of a list.
pub open spec fn texts(v: Seq<String>) -> Seq<Seq<char>> {
    v.map_values(|s: String| s@)
}

/// Whether two texts hold the same characters.
pub fn same_text(a: &str, b: &str) -> (r: bool)
    ensures
        r == (a@ == b@),
{
    a.to_owned() == b.to_owned()
}

/// The characters of a text.
pub fn chars_of(s: &str) -> (r: Vec<char>)
    ensures
        r@ == s@,
{
    let mut out: Vec<char> = Vec::new();
    for c in it: s.chars()
        invariant
            out@ == s@.take(it.index() as int),
            it.seq() == s@,
    {
        out.push(c);
    }
    out
}

/// The order of texts: by the first character in which they differ, a proper
/// prefix before the longer text.
pub open spec fn text_before(a: Seq<char>, b: Seq<char>) -> bool
    decreases a.len(),
{
    if b.len() == 0 {
        false
    } else if a.len() == 0 {
        true
    } else if a[0] != b[0] {
        a[0] < b[0]
    } else {
        text_before(a.drop_first(), b.drop_first())
    }
}

/// `a` is `b` or comes before it.
pub open spec fn text_at_most(a: Seq<char>, b: Seq<char>) -> bool {
    !text_before(b, a)
}

/// The order of texts is irreflexive.
pub proof fn lemma_before_irreflexive(a: Seq<char>)
    ensures
        !text_before(a, a),
    decreases a.len(),
{
    if a.len() > 0 {
        lemma_before_irreflexive(a.drop_first());
    }
}

/// Of two different texts one comes before the other, and only one.
pub proof fn lemma_before_total(a: Seq<char>, b: Seq<char>)
    ensures
        a != b ==> (text_before(a, b) <==> !text_before(b, a)),
    decreases a.len(),
{
    if a.len() > 0 && b.len() > 0 {
        if a[0] == b[0] {
            lemma_before_total(a.drop_first(), b.drop_first());
            if a.drop_first() == b.drop_first() {
                assert(a =~= seq![a[0]] + a.drop_first());
                assert(b =~= seq![b[0]] + b.drop_first());
            }
        }
    } else if a.len() == 0 && b.len() == 0 {
        assert(a =~= b);
    }
}

/// The order of texts is transitive.
pub proof fn lemma_before_transitive(a: Seq<char>, b: Seq<char>, c: Seq<char>)
    requires
        text_before(a, b),
        text_before(b, c),
    ensures
        text_before(a, c),
    decreases a.len(),
{
    if a.len() > 0 {
        if a[0] == b[0] && b[0] == c[0] {
            lemma_before_transitive(a.drop_first(), b.drop_first(), c.drop_first());
        }
    }
}

/// "At most" is transitive.
pub proof fn lemma_at_most_transitive(a: Seq<char>, b: Seq<char>, c: Seq<char>)
    requires
        text_at_most(a, b),
        text_at_most(b, c),
    ensures
        text_at_most(a, c),
{
    lemma_before_total(a, b);
    lemma_before_total(b, c);
    lemma_before_total(a, c);
    if text_before(c, a) {
        if a == b {
        } else if b == c {
        } else {
            lemma_before_transitive(a, b, c);
            lemma_before_total(c, a);
        }
    }
}

proof fn lemma_before_from(a: Seq<char>, b: Seq<char>, i: int)
    requires
        0 <= i <= a.len(),
        i <= b.len(),
        forall|j: int| 0 <= j < i ==> a[j] == b[j],
    ensures
        text_before(a, b) == text_before(a.skip(i), b.skip(i)),
    decreases i,
{
    if i > 0 {
        assert(a[0] == b[0]);
        assert forall|j: int| 0 <= j < i - 1 implies a.drop_first()[j] == b.drop_first()[j] by {
            assert(a[j + 1] == b[j + 1]);
        }
        lemma_before_from(a.drop_first(), b.drop_first(), i - 1);
        assert(a.drop_first().skip(i - 1) =~= a.skip(i));
        assert(b.drop_first().skip(i - 1) =~= b.skip(i));
    } else {
        assert(a.skip(0) =~= a);
        assert(b.skip(0) =~= b);
    }
}

/// Whether `a` comes before `b`.
pub fn is_before(a: &str, b: &str) -> (r: bool)
    ensures
        r == text_before(a@, b@),
{
    let x = chars_of(a);
    let y = chars_of(b);
    let mut i: usize = 0;
    while i < x.len() && i < y.len() && x[i] == y[i]
        invariant
            i <= x.len(),
            i <= y.len(),
            x@ == a@,
            y@ == b@,
            forall|j: int| 0 <= j < i ==> x@[j] == y@[j],
        decreases x.len() - i,
    {
        i += 1;
    }
    proof {
        lemma_before_from(x@, y@, i as int);
        if i < x.len() {
            assert(x@.skip(i as int)[0] == x@[i as int]);
        }
        if i < y.len() {
            assert(y@.skip(i as int)[0] == y@[i as int]);
        }
    }
    if i >= y.len() {
        false
    } else if i >= x.len() {
        true
    } else {
        x[i] < y[i]
    }
}

/// Whether a list of texts is in order.
pub open spec fn in_order(v: Seq<Seq<char>>) -> bool {
    forall|i: int, j: int| 0 <= i < j < v.len() ==> text_at_most(#[trigger] v[i], #[trigger] v[j])
}

/// The list `v` with `x` put at the first place that keeps the order.
pub open spec fn insert_in_order(v: Seq<Seq<char>>, x: Seq<char>) -> Seq<Seq<char>>
    decreases v.len(),
{
    if v.len() == 0 {
        seq![x]
    } else if text_before(x, v.last()) {
        insert_in_order(v.drop_last(), x).push(v.last())
    } else {
        v.push(x)
    }
}

/// The texts of `v` in order.
pub open spec fn sorted_texts(v: Seq<Seq<char>>) -> Seq<Seq<char>>
    decreases v.len(),
{
    if v.len() == 0 {
        v
    } else {
        insert_in_order(sorted_texts(v.drop_last()), v.last())
    }
}

proof fn lemma_insert_in_order(v: Seq<Seq<char>>, x: Seq<char>)
    requires
        in_order(v),
    ensures
        in_order(insert_in_order(v, x)),
        insert_in_order(v, x).to_multiset() == v.to_multiset().insert(x),
        insert_in_order(v, x).len() == v.len() + 1,
    decreases v.len(),
{
    broadcast use vstd::seq_lib::group_to_multiset_ensures;

    if v.len() == 0 {
        assert(seq![x] =~= Seq::<Seq<char>>::empty().push(x));
        assert(v =~= Seq::empty());
    } else if text_before(x, v.last()) {
        let w = v.drop_last();
        assert(in_order(w));
        lemma_insert_in_order(w, x);
        let r = insert_in_order(w, x);
        assert(v =~= w.push(v.last()));
        assert forall|i: int, j: int| 0 <= i < j < r.push(v.last()).len() implies text_at_most(
            #[trigger] r.push(v.last())[i],
            #[trigger] r.push(v.last())[j],
        ) by {
            if j == r.len() {
                let e = r[i];
                assert(r.contains(e));
                assert(r.to_multiset().contains(e));
                if e == x {
                    lemma_before_total(x, v.last());
                    lemma_before_irreflexive(x);
                } else {
                    assert(w.to_multiset().contains(e));
                    assert(w.contains(e));
                    let k = choose|k: int| 0 <= k < w.len() && w[k] == e;
                    assert(text_at_most(v[k], v[v.len() - 1]));
                }
            }
        }
        assert(v.to_multiset().insert(x) =~= w.to_multiset().insert(x).insert(v.last()));
    } else {
        assert forall|i: int, j: int| 0 <= i < j < v.push(x).len() implies text_at_most(
            #[trigger] v.push(x)[i],
            #[trigger] v.push(x)[j],
        ) by {
            if j == v.len() {
                if i < v.len() - 1 {
                    assert(text_at_most(v[i], v[v.len() - 1]));
                    lemma_at_most_transitive(v[i], v.last(), x);
                }
            }
        }
    }
}

/// Sorting yields the same texts, each as often, in order.
pub proof fn lemma_sorted_texts(v: Seq<Seq<char>>)
    ensures
        in_order(sorted_texts(v)),
        sorted_texts(v).to_multiset() == v.to_multiset(),
        sorted_texts(v).len() == v.len(),
    decreases v.len(),
{
    broadcast use vstd::seq_lib::group_to_multiset_ensures;

    if v.len() > 0 {
        lemma_sorted_texts(v.drop_last());
        lemma_insert_in_order(sorted_texts(v.drop_last()), v.last());
        assert(v =~= v.drop_last().push(v.last()));
    }
}

/// Sorting leaves a list that is in order as it is.
pub proof fn lemma_sorted_stays(v: Seq<Seq<char>>)
    requires
        in_order(v),
    ensures
        sorted_texts(v) == v,
    decreases v.len(),
{
    if v.len() > 0 {
        let w = v.drop_last();
        assert forall|i: int, j: int| 0 <= i < j < w.len() implies text_at_most(
            #[trigger] w[i],
            #[trigger] w[j],
        ) by {
            assert(text_at_most(v[i], v[j]));
        }
        lemma_sorted_stays(w);
        if w.len() > 0 {
            assert(text_at_most(v[w.len() - 1], v[w.len() as int]));
        }
        assert(insert_in_order(w, v.last()) =~= v);
    }
}

/// Puts `x` at the first place of `v` that keeps the order.
fn place_in_order(v: &mut Vec<String>, x: String)
    ensures
        texts(final(v)@) == insert_in_order(texts(old(v)@), x@),
{
    let n: usize = v.len();
    let mut i: usize = n;
    proof {
        assert(texts(v@).skip(n as int) =~= Seq::empty());
        assert(texts(v@).take(n as int) =~= texts(v@));
        assert(insert_in_order(texts(v@), x@) =~= insert_in_order(texts(v@).take(n as int), x@)
            + texts(v@).skip(n as int));
    }
    while i > 0 && is_before(x.as_str(), v[i - 1].as_str())
        invariant
            i <= n,
            n == v.len(),
            insert_in_order(texts(v@), x@) == insert_in_order(texts(v@).take(i as int), x@)
                + texts(v@).skip(i as int),
        decreases i,
    {
        let ghost t = texts(v@);
        proof {
            let w = t.take(i as int);
            assert(w.last() == t[i - 1]);
            assert(w.drop_last() =~= t.take(i - 1));
            assert(insert_in_order(w, x@) == insert_in_order(w.drop_last(), x@).push(t[i - 1]));
            assert(insert_in_order(w.drop_last(), x@).push(t[i - 1]) + t.skip(i as int)
                =~= insert_in_order(t.take(i - 1), x@) + t.skip(i - 1));
        }
        i -= 1;
    }
    let ghost t = texts(v@);
    let ghost xx = x@;
    v.insert(i, x);
    proof {
        let w = t.take(i as int);
        if i > 0 {
            assert(w.last() == t[i - 1]);
        }
        assert(insert_in_order(w, xx) =~= w.push(xx));
        assert(texts(v@) =~= w.push(xx) + t.skip(i as int));
    }
}

/// The texts of a list in order, equal ones kept.
pub fn sort_texts(v: Vec<String>) -> (r: Vec<String>)
    ensures
        texts(r@) == sorted_texts(texts(v@)),
{
    let mut out: Vec<String> = Vec::new();
    let mut i: usize = 0;
    proof {
        assert(texts(v@).take(0) =~= Seq::empty());
        assert(texts(out@) =~= Seq::empty());
    }
    while i < v.len()
        invariant
            i <= v.len(),
            texts(out@) == sorted_texts(texts(v@).take(i as int)),
        decreases v.len() - i,
    {
        place_in_order(&mut out, v[i].clone());
        proof {
            let w = texts(v@).take(i + 1);
            assert(w.drop_last() =~= texts(v@).take(i as int));
            assert(w.last() == v@[i as int]@);
        }
        i += 1;
    }
    proof {
        assert(texts(v@).take(v.len() as int) =~= texts(v@));
    }
    out
}

/// Texts put one behind the other with `sep` between neighbours.
pub open spec fn joined(v: Seq<Seq<char>>, sep: Seq<char>) -> Seq<char>
    decreases v.len(),
{
    if v.len() == 0 {
        Seq::empty()
    } else if v.len() == 1 {
        v[0]
    } else {
        joined(v.drop_last(), sep) + sep + v.last()
    }
}

/// Joins texts with a separator.
pub fn join_texts(v: &Vec<String>, sep: &str) -> (r: String)
    ensures
        r@ == joined(texts(v@), sep@),
{
    let mut out = String::new();
    let mut i: usize = 0;
    proof {
        assert(texts(v@).take(0) =~= Seq::empty());
    }
    while i < v.len()
        invariant
            i <= v.len(),
            out@ == joined(texts(v@).take(i as int), sep@),
        decreases v.len() - i,
    {
        proof {
            let w = texts(v@).take(i + 1);
            assert(w.drop_last() =~= texts(v@).take(i as int));
            assert(w.last() == v@[i as int]@);
            if i == 0 {
                assert(out@ + v@[0]@ =~= v@[0]@);
            }
        }
        if i > 0 {
            out.append(sep);
        }
        out.append(v[i].as_str());
        i += 1;
    }
    proof {
        assert(texts(v@).take(v.len() as int) =~= texts(v@));
    }
    out
}

/// Whether `needle` occurs in `hay` as a run of characters.
pub open spec fn occurs_in(needle: Seq<char>, hay: Seq<char>) -> bool {
    exists|i: int|
        0 <= i <= hay.len() - needle.len() && #[trigger] hay.subrange(i, i + needle.len())
            == needle
}

/// Whether `needle` occurs in `hay`.
pub fn contains_text(hay: &str, needle: &str) -> (r: bool)
    ensures
        r == occurs_in(needle@, hay@),
{
    let h = chars_of(hay);
    let n = chars_of(needle);
    if n.len() > h.len() {
        return false;
    }
    let last: usize = h.len() - n.len();
    let mut i: usize = 0;
    while i <= last
        invariant
            h@ == hay@,
            n@ == needle@,
            last == h.len() - n.len(),
            i <= last + 1,
            forall|k: int| 0 <= k < i ==> #[trigger] h@.subrange(k, k + n@.len()) != n@,
        decreases last + 1 - i,
    {
        let mut j: usize = 0;
        while j < n.len() && h[i + j] == n[j]
            invariant
                h@ == hay@,
                n@ == needle@,
                last == h.len() - n.len(),
                i <= last,
                j <= n.len(),
                forall|m: int| 0 <= m < j ==> h@[i + m] == #[trigger] n@[m],
            decreases n.len() - j,
        {
            j += 1;
        }
        if j == n.len() {
            proof {
                assert(h@.subrange(i as int, i + n@.len()) =~= n@);
            }
            return true;
        }
        proof {
            if h@.subrange(i as int, i + n@.len()) == n@ {
                assert(h@.subrange(i as int, i + n@.len())[j as int] == h@[i + j]);
            }
        }
        i += 1;
    }
    false
}

/// The first of the characters `wanted` that occurs in `s`.
pub open spec fn first_wanted(s: Seq<char>, wanted: Seq<char>) -> Option<char>
    decreases wanted.len(),
{
    if wanted.len() == 0 {
        None
    } else if s.contains(wanted[0]) {
        Some(wanted[0])
    } else {
        first_wanted(s, wanted.drop_first())
    }
}

/// The characters that the display form of a partition key uses itself.
pub open spec fn reserved_chars() -> Seq<char> {
    seq!['|', ',', '=']
}

/// The reserved character that a text holds, by the order of the reserved
/// characters.
pub fn reserved_char(s: &str) -> (r: Option<char>)
    ensures
        r == first_wanted(s@, reserved_chars()),
{
    let cs = chars_of(s);
    proof {
        reveal_with_fuel(first_wanted, 4);
        assert(reserved_chars().drop_first() =~= seq![',', '=']);
        assert(seq![',', '='].drop_first() =~= seq!['=']);
        assert(seq!['='].drop_first() =~= Seq::<char>::empty());
    }
    if has_char(&cs, '|') {
        Some('|')
    } else if has_char(&cs, ',') {
        Some(',')
    } else if has_char(&cs, '=') {
        Some('=')
    } else {
        None
    }
}

/// Whether a list of characters holds `c`.
fn has_char(cs: &Vec<char>, c: char) -> (r: bool)
    ensures
        r == cs@.contains(c),
{
    let mut i: usize = 0;
    while i < cs.len()
        invariant
            i <= cs.len(),
            forall|j: int| 0 <= j < i ==> cs@[j] != c,
        decreases cs.len() - i,
    {
        if cs[i] == c {
            assert(cs@[i as int] == c);
            return true;
        }
        i += 1;
    }
    false
}

/// The two parts of `s` around the first `c` in it.
pub open spec fn split_at_first(s: Seq<char>, c: char) -> Option<(Seq<char>, Seq<char>)> {
    match s.index_of_first(c) {
        Some(i) => Some((s.take(i), s.skip(i + 1))),
        None => None,
    }
}

/// Splits a text at the first `c` in it.
pub fn split_once(s: &str, c: char) -> (r: Option<(String, String)>)
    ensures
        match r {
            Some((a, b)) => split_at_first(s@, c) == Some((a@, b@)),
            None => split_at_first(s@, c) is None,
        },
{
    let cs = chars_of(s);
    let mut i: usize = 0;
    while i < cs.len()
        invariant
            cs@ == s@,
            i <= cs.len(),
            forall|j: int| 0 <= j < i ==> cs@[j] != c,
        decreases cs.len() - i,
    {
        if cs[i] == c {
            let a = s.substring_char(0, i);
            let b = s.substring_char(i + 1, cs.len());
            proof {
                s@.index_of_first_ensures(c);
                assert(s@.contains(c));
                assert(s@.index_of_first(c) == Some(i as int));
                assert(s@.take(i as int) =~= a@);
                assert(s@.skip(i + 1) =~= b@);
            }
            return Some((a.to_owned(), b.to_owned()));
        }
        i += 1;
    }
    proof {
        s@.index_of_first_ensures(c);
    }
    None
}

/// The parts of `s` between the occurrences of `c`.
pub open spec fn split_all(s: Seq<char>, c: char) -> Seq<Seq<char>>
    decreases s.len(),
{
    if s.len() == 0 {
        seq![Seq::empty()]
    } else {
        let before = split_all(s.drop_last(), c);
        if s.last() == c {
            before.push(Seq::empty())
        } else {
            before.drop_last().push(before.last().push(s.last()))
        }
    }
}

/// The parts of a text, put together again, are the text.
pub proof fn lemma_split_joined(s: Seq<char>, c: char)
    ensures
        split_all(s, c).len() > 0,
        joined(split_all(s, c), seq![c]) == s,
    decreases s.len(),
{
    if s.len() == 0 {
        assert(joined(split_all(s, c), seq![c]) =~= s);
    } else {
        let w = s.drop_last();
        let before = split_all(w, c);
        lemma_split_joined(w, c);
        let v = split_all(s, c);
        if s.last() == c {
            assert(v.drop_last() =~= before);
            assert(joined(v, seq![c]) =~= w + seq![c] + Seq::<char>::empty());
            assert(w + seq![c] + Seq::<char>::empty() =~= s);
        } else {
            assert(v.drop_last() =~= before.drop_last());
            assert(v.last() == before.last().push(s.last()));
            if before.len() == 1 {
                assert(before[0] == before.last());
                assert(joined(v, seq![c]) =~= w.push(s.last()));
            } else {
                assert(joined(v, seq![c]) =~= joined(before, seq![c]).push(s.last()));
            }
            assert(w.push(s.last()) =~= s);
        }
    }
}

/// Splits a text at each `c` in it.
pub fn split_texts(s: &str, c: char) -> (r: Vec<String>)
    ensures
        texts(r@) == split_all(s@, c),
{
    let cs = chars_of(s);
    let mut out: Vec<String> = Vec::new();
    let mut start: usize = 0;
    let mut i: usize = 0;
    proof {
        assert(s@.take(0) =~= Seq::empty());
        assert(s@.subrange(0, 0) =~= Seq::empty());
        assert(texts(out@).push(s@.subrange(0, 0)) =~= split_all(s@.take(0), c));
    }
    while i < cs.len()
        invariant
            cs@ == s@,
            start <= i <= cs.len(),
            texts(out@).push(s@.subrange(start as int, i as int)) == split_all(
                s@.take(i as int),
                c,
            ),
        decreases cs.len() - i,
    {
        let ghost before = texts(out@).push(s@.subrange(start as int, i as int));
        proof {
            assert(s@.take(i + 1).drop_last() =~= s@.take(i as int));
            assert(s@.take(i + 1).last() == s@[i as int]);
        }
        if cs[i] == c {
            let part = s.substring_char(start, i).to_owned();
            let ghost prev = texts(out@);
            let ghost pv = part@;
            out.push(part);
            start = i + 1;
            proof {
                assert(texts(out@) =~= prev.push(pv));
                assert(before =~= texts(out@));
                assert(s@.subrange(start as int, i + 1) =~= Seq::empty());
            }
        } else {
            proof {
                assert(before.drop_last() =~= texts(out@));
                assert(s@.subrange(start as int, i + 1) =~= s@.subrange(
                    start as int,
                    i as int,
                ).push(s@[i as int]));
            }
        }
        i += 1;
    }
    let part = s.substring_char(start, cs.len()).to_owned();
    let ghost prev = texts(out@);
    let ghost pv = part@;
    out.push(part);
    proof {
        assert(texts(out@) =~= prev.push(pv));
        assert(s@.take(i as int) =~= s@);
    }
    out
}

/// The decimal digit of a number below ten.
pub open spec fn digit(d: nat) -> char {
    if d == 0 {
        '0'
    } else if d == 1 {
        '1'
    } else if d == 2 {
        '2'
    } else if d == 3 {
        '3'
    } else if d == 4 {
        '4'
    } else if d == 5 {
        '5'
    } else if d == 6 {
        '6'
    } else if d == 7 {
        '7'
    } else if d == 8 {
        '8'
    } else {
        '9'
    }
}

/// The decimal form of a number.
pub open spec fn decimal(n: nat) -> Seq<char>
    decreases n,
{
    if n < 10 {
        seq![digit(n)]
    } else {
        decimal(n / 10).push(digit(n % 10))
    }
}

/// The decimal form of an integer, with a minus sign where it is negative.
pub open spec fn signed_decimal(n: int) -> Seq<char> {
    if n < 0 {
        seq!['-'] + decimal((-n) as nat)
    } else {
        decimal(n as nat)
    }
}

/// Appends the decimal digit of `d`.
fn append_digit(out: &mut String, d: u64)
    requires
        d < 10,
    ensures
        final(out)@ == old(out)@.push(digit(d as nat)),
{
    proof {
        reveal_strlit("0");
        reveal_strlit("1");
        reveal_strlit("2");
        reveal_strlit("3");
        reveal_strlit("4");
        reveal_strlit("5");
        reveal_strlit("6");
        reveal_strlit("7");
        reveal_strlit("8");
        reveal_strlit("9");
    }
    let s = if d == 0 {
        "0"
    } else if d == 1 {
        "1"
    } else if d == 2 {
        "2"
    } else if d == 3 {
        "3"
    } else if d == 4 {
        "4"
    } else if d == 5 {
        "5"
    } else if d == 6 {
        "6"
    } else if d == 7 {
        "7"
    } else if d == 8 {
        "8"
    } else {
        "9"
    };
    proof {
        assert(s@ =~= seq![digit(d as nat)]);
    }
    let ghost before = out@;
    out.append(s);
    proof {
        assert(out@ =~= before.push(digit(d as nat)));
    }
}

/// The decimal form of a number.
pub fn decimal_text(n: u64) -> (r: String)
    ensures
        r@ == decimal(n as nat),
    decreases n,
{
    if n < 10 {
        let mut out = String::new();
        append_digit(&mut out, n);
        proof {
            assert(out@ =~= seq![digit(n as nat)]);
        }
        out
    } else {
        let mut out = decimal_text(n / 10);
        append_digit(&mut out, n % 10);
        out
    }
}

/// The decimal form of an integer.
pub fn signed_decimal_text(n: i64) -> (r: String)
    ensures
        r@ == signed_decimal(n as int),
{
    if n >= 0 {
        decimal_text(n as u64)
    } else {
        let magnitude: u64 = ((-(n + 1)) as u64) + 1;
        let mut out = "-".to_owned();
        proof {
            reveal_strlit("-");
            assert(out@ =~= seq!['-']);
        }
        out.append(decimal_text(magnitude).as_str());
        out
    }
}

/// The quoted, escaped form of a text.
pub uninterp spec fn quoted(s: Seq<char>) -> Seq<char>;

/// The form that `std::fmt::Debug` gives a text: quoted, with special
/// characters escaped. What is escaped, and how, is not stated.
#[verifier::external_body]
fn debug_form(s: &str) -> (r: String)
    ensures
        r@ == quoted(s@),
{
    format!("{:?}", s)
}

/// The quoted, escaped form of a text.
pub fn quoted_text(s: &str) -> (r: String)
    ensures
        r@ == quoted(s@),
{
    debug_form(s)
}

/// The quoted form of each text of a list.
pub open spec fn quoted_each(v: Seq<Seq<char>>) -> Seq<Seq<char>> {
    v.map_values(|s: Seq<char>| quoted(s))
}

/// The quoted forms of a list of texts, in square brackets.
pub open spec fn quoted_list(v: Seq<Seq<char>>) -> Seq<char> {
    "["@ + joined(quoted_each(v), ", "@) + "]"@
}

/// The quoted form of each text of a list.
pub fn quote_each(v: &Vec<String>) -> (r: Vec<String>)
    ensures
        texts(r@) == quoted_each(texts(v@)),
{
    let mut items: Vec<String> = Vec::new();
    let mut i: usize = 0;
    while i < v.len()
        invariant
            i <= v.len(),
            texts(items@) == quoted_each(texts(v@).take(i as int)),
        decreases v.len() - i,
    {
        let ghost prev = texts(items@);
        items.push(quoted_text(v[i].as_str()));
        proof {
            assert(texts(items@) =~= prev.push(quoted(v@[i as int]@)));
            assert(quoted_each(texts(v@).take(i + 1)) =~= quoted_each(
                texts(v@).take(i as int),
            ).push(quoted(v@[i as int]@)));
        }
        i += 1;
    }
    proof {
        assert(texts(v@).take(v.len() as int) =~= texts(v@));
    }
    items
}

/// The quoted forms of a list of texts, in square brackets.
pub fn quoted_list_text(v: &Vec<String>) -> (r: String)
    ensures
        r@ == quoted_list(texts(v@)),
{
    say3("[", join_texts(&quote_each(v), ", ").as_str(), "]")
}

/// Whether a list of texts holds `s`.
pub fn has_text(v: &Vec<String>, s: &str) -> (r: bool)
    ensures
        r == texts(v@).contains(s@),
{
    let mut i: usize = 0;
    while i < v.len()
        invariant
            i <= v.len(),
            forall|j: int| 0 <= j < i ==> texts(v@)[j] != s@,
        decreases v.len() - i,
    {
        if same_text(v[i].as_str(), s) {
            assert(texts(v@)[i as int] == s@);
            return true;
        }
        i += 1;
    }
    false
}

/// A copy of a list of texts.
pub fn copy_texts(v: &Vec<String>) -> (r: Vec<String>)
    ensures
        r@ == v@,
{
    let mut out: Vec<String> = Vec::new();
    let mut i: usize = 0;
    while i < v.len()
        invariant
            i <= v.len(),
            out@ == v@.take(i as int),
        decreases v.len() - i,
    {
        out.push(v[i].clone());
        i += 1;
    }
    proof {
        assert(v@.take(v.len() as int) =~= v@);
    }
    out
}

/// Whether two lists hold the same texts in the same places.
pub fn same_texts(a: &Vec<String>, b: &Vec<String>) -> (r: bool)
    ensures
        r == (texts(a@) == texts(b@)),
{
    if a.len() != b.len() {
        proof {
            assert(texts(a@).len() != texts(b@).len());
        }
        return false;
    }
    let mut i: usize = 0;
    while i < a.len()
        invariant
            a.len() == b.len(),
            i <= a.len(),
            forall|j: int| 0 <= j < i ==> texts(a@)[j] == texts(b@)[j],
        decreases a.len() - i,
    {
        if a[i] != b[i] {
            proof {
                assert(texts(a@)[i as int] != texts(b@)[i as int]);
            }
            return false;
        }
        i += 1;
    }
    proof {
        assert(texts(a@) =~= texts(b@));
    }
    true
}

/// Three texts one behind the other.
pub fn say3(a: &str, b: &str, c: &str) -> (r: String)
    ensures
        r@ == a@ + b@ + c@,
{
    let mut out = a.to_owned();
    out.append(b);
    out.append(c);
    out
}

/// Four texts one behind the other.
pub fn say4(a: &str, b: &str, c: &str, d: &str) -> (r: String)
    ensures
        r@ == a@ + b@ + c@ + d@,
{
    let mut out = say3(a, b, c);
    out.append(d);
    out
}

/// Five texts one behind the other.
pub fn say5(a: &str, b: &str, c: &str, d: &str, e: &str) -> (r: String)
    ensures
        r@ == a@ + b@ + c@ + d@ + e@,
{
    let mut out = say3(a, b, c);
    out.append(d);
    out.append(e);
    out
}

/// Seven texts one behind the other.
pub fn say7(a: &str, b: &str, c: &str, d: &str, e: &str, f: &str, g: &str) -> (r: String)
    ensures
        r@ == a@ + b@ + c@ + d@ + e@ + f@ + g@,
{
    let mut out = say5(a, b, c, d, e);
    out.append(f);
    out.append(g);
    out
}

/// The texts of a set, in order.
pub open spec fn set_in_order(s: Set<Seq<char>>) -> Seq<Seq<char>> {
    choose|v: Seq<Seq<char>>| lists_set(v, s)
}

/// Whether a list holds the texts of a set, each once, in order.
pub open spec fn lists_set(v: Seq<Seq<char>>, s: Set<Seq<char>>) -> bool {
    &&& in_order(v)
    &&& forall|i: int, j: int| 0 <= i < j < v.len() ==> #[trigger] v[i] != #[trigger] v[j]
    &&& forall|k: Seq<char>| #[trigger] v.contains(k) <==> s.contains(k)
}

/// A set can be listed in order in one way.
pub proof fn lemma_set_in_order(v: Seq<Seq<char>>, s: Set<Seq<char>>)
    requires
        lists_set(v, s),
    ensures
        set_in_order(s) == v,
{
    lemma_one_order(v, set_in_order(s));
}

proof fn lemma_one_order(v: Seq<Seq<char>>, w: Seq<Seq<char>>)
    requires
        in_order(v),
        in_order(w),
        forall|i: int, j: int| 0 <= i < j < v.len() ==> #[trigger] v[i] != #[trigger] v[j],
        forall|i: int, j: int| 0 <= i < j < w.len() ==> #[trigger] w[i] != #[trigger] w[j],
        forall|k: Seq<char>| #[trigger] v.contains(k) <==> w.contains(k),
    ensures
        v == w,
    decreases v.len(),
{
    if v.len() == 0 {
        if w.len() > 0 {
            assert(w.contains(w[0]));
            assert(v.contains(w[0]));
        }
        assert(v =~= w);
    } else {
        let a = v.last();
        assert(v.contains(v[v.len() - 1]));
        assert(w.contains(a));
        let i = choose|i: int| 0 <= i < w.len() && w[i] == a;
        let b = w.last();
        assert(w.contains(w[w.len() - 1]));
        assert(v.contains(b));
        let j = choose|j: int| 0 <= j < v.len() && v[j] == b;
        lemma_before_total(a, b);
        if i < w.len() - 1 {
            assert(text_at_most(w[i], w[w.len() - 1]));
            assert(w[i] != w[w.len() - 1]);
            if j < v.len() - 1 {
                assert(text_at_most(v[j], v[v.len() - 1]));
            }
        }
        assert(a == b);
        let x = v.drop_last();
        let y = w.drop_last();
        assert forall|p: int, q: int| 0 <= p < q < x.len() implies #[trigger] x[p]
            != #[trigger] x[q] by {
            assert(v[p] != v[q]);
        }
        assert forall|p: int, q: int| 0 <= p < q < y.len() implies #[trigger] y[p]
            != #[trigger] y[q] by {
            assert(w[p] != w[q]);
        }
        assert forall|k: Seq<char>| #[trigger] x.contains(k) <==> y.contains(k) by {
            if x.contains(k) {
                let p = choose|p: int| 0 <= p < x.len() && x[p] == k;
                assert(v[p] == k);
                assert(v.contains(k));
                assert(w.contains(k));
                assert(v[p] != v[v.len() - 1]);
                let q = choose|q: int| 0 <= q < w.len() && w[q] == k;
                assert(y[q] == k);
            }
            if y.contains(k) {
                let q = choose|q: int| 0 <= q < y.len() && y[q] == k;
                assert(w[q] == k);
                assert(w.contains(k));
                assert(v.contains(k));
                assert(w[q] != w[w.len() - 1]);
                let p = choose|p: int| 0 <= p < v.len() && v[p] == k;
                assert(x[p] == k);
            }
        }
        assert forall|p: int, q: int| 0 <= p < q < x.len() implies text_at_most(
            #[trigger] x[p],
            #[trigger] x[q],
        ) by {
            assert(text_at_most(v[p], v[q]));
        }
        assert forall|p: int, q: int| 0 <= p < q < y.len() implies text_at_most(
            #[trigger] y[p],
            #[trigger] y[q],
        ) by {
            assert(text_at_most(w[p], w[q]));
        }
        lemma_one_order(x, y);
        assert(v =~= x.push(a));
        assert(w =~= y.push(b));
    }
}

/// Sorting a list without repetitions lists its set in order.
pub proof fn lemma_sorted_lists_set(v: Seq<Seq<char>>, s: Set<Seq<char>>)
    requires
        forall|i: int, j: int| 0 <= i < j < v.len() ==> #[trigger] v[i] != #[trigger] v[j],
        forall|k: Seq<char>| #[trigger] v.contains(k) <==> s.contains(k),
    ensures
        sorted_texts(v) == set_in_order(s),
{
    broadcast use vstd::seq_lib::group_to_multiset_ensures;

    let w = sorted_texts(v);
    lemma_sorted_texts(v);
    assert forall|k: Seq<char>| #[trigger] w.contains(k) <==> s.contains(k) by {
        assert(w.contains(k) <==> w.to_multiset().count(k) > 0);
        assert(v.contains(k) <==> v.to_multiset().count(k) > 0);
    }
    assert(v.no_duplicates());
    v.lemma_multiset_has_no_duplicates();
    assert(forall|k: Seq<char>| w.to_multiset().contains(k) ==> w.to_multiset().count(k) == 1);
    w.lemma_multiset_has_no_duplicates_conv();
    assert(w.no_duplicates());
    lemma_set_in_order(w, s);
}

} // verus!
