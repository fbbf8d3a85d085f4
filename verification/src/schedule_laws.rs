//! What holds of the walk along a schedule: it ascends, it meets only what the schedule
//! names, and from wherever it starts it meets nearly the same seconds.
use vstd::prelude::*;
use crate::moment::{
    block_of, calendar_left, day_of, fires, fires_within, first_fire, hour_of, is_first_fire, late_start,
    max_at, minute_named, minute_of, on_second, reached, search, second_named, second_of,
    walk_from, DAY_NS, HOUR_NS, MINUTE_NS, NANOS, SCHEDULE_END, SCHEDULE_LAST,
};

verus! {

/// A walk along a schedule from a place on meets another.
pub open spec fn meets(expr: Seq<char>, from: int, t: int) -> bool {
    walk_from(expr, from).contains(t)
}

/// No two seconds in a row of `[from, to)` are named by a schedule.
pub open spec fn spaced(expr: Seq<char>, from: int, to: int) -> bool {
    forall|u: int|
        from <= u && u + NANOS < to && on_second(u) && #[trigger] fires(expr, u) ==> !fires(
            expr,
            u + NANOS,
        )
}

proof fn lemma_walk_step(expr: Seq<char>, from: int)
    ensures
        ({
            let w = walk_from(expr, from);
            w.len() > 0 ==> {
                &&& search(expr, from) == Ok::<int, Seq<char>>(w[0])
                &&& from <= w[0] <= max_at()
                &&& w.drop_first() == walk_from(expr, w[0] + 2 * NANOS)
            }
        }),
        (search(expr, from) matches Ok(t) && from <= t <= max_at()) ==> walk_from(expr, from).len()
            > 0,
{
    reveal(walk_from);
    let w = walk_from(expr, from);
    if w.len() > 0 {
        assert(w.drop_first() =~= walk_from(expr, w[0] + 2 * NANOS));
    }
}

/// A walk along a schedule goes forward, two seconds at least with each step.
pub proof fn lemma_walk_ascends(expr: Seq<char>, from: int)
    ensures
        forall|i: int| 0 <= i < walk_from(expr, from).len() ==> from <= #[trigger] walk_from(
            expr,
            from,
        )[i],
        forall|i: int, j: int|
            0 <= i < j < walk_from(expr, from).len() ==> #[trigger] walk_from(expr, from)[i] + 2
                * NANOS <= #[trigger] walk_from(expr, from)[j],
    decreases calendar_left(from),
{
    let w = walk_from(expr, from);
    lemma_walk_step(expr, from);
    if w.len() > 0 {
        let rest = w.drop_first();
        lemma_walk_ascends(expr, w[0] + 2 * NANOS);
        assert forall|i: int| 0 <= i < w.len() implies from <= #[trigger] w[i] by {
            if i > 0 {
                assert(rest[i - 1] == w[i]);
            }
        }
        assert forall|i: int, j: int| 0 <= i < j < w.len() implies #[trigger] w[i] + 2 * NANOS
            <= #[trigger] w[j] by {
            assert(rest[j - 1] == w[j]);
            if i > 0 {
                assert(rest[i - 1] == w[i]);
            }
        }
    }
}

/// From a whole second on a walk meets only whole seconds that the schedule names.
pub proof fn lemma_walk_fires(expr: Seq<char>, from: int)
    requires
        on_second(from),
    ensures
        forall|i: int|
            0 <= i < walk_from(expr, from).len() ==> on_second(
                #[trigger] walk_from(expr, from)[i],
            ) && fires(expr, walk_from(expr, from)[i]) && walk_from(expr, from)[i] < SCHEDULE_LAST,
    decreases calendar_left(from),
{
    let w = walk_from(expr, from);
    lemma_walk_step(expr, from);
    if w.len() > 0 {
        let rest = w.drop_first();
        let next = w[0] + 2 * NANOS;
        assert(first_fire(expr, from) == Some(w[0]));
        assert(is_first_fire(expr, from, w[0]));
        assert(on_second(next));
        lemma_walk_fires(expr, next);
        assert forall|i: int| 0 <= i < w.len() implies on_second(#[trigger] w[i]) && fires(
            expr,
            w[i],
        ) && w[i] < SCHEDULE_LAST by {
            if i > 0 {
                assert(rest[i - 1] == w[i]);
            }
        }
    }
}

/// Between two steps of a walk, from two seconds past the first on, the schedule names
/// nothing, and the search from there finds the second.
pub proof fn lemma_between_steps(expr: Seq<char>, from: int, i: int)
    requires
        on_second(from),
        0 <= i,
        i + 1 < walk_from(expr, from).len(),
    ensures
        forall|u: int|
            walk_from(expr, from)[i] + 2 * NANOS <= u < walk_from(expr, from)[i + 1] && on_second(u)
                ==> !#[trigger] fires(expr, u),
        search(expr, walk_from(expr, from)[i] + 2 * NANOS) == Ok::<int, Seq<char>>(
            walk_from(expr, from)[i + 1],
        ),
    decreases calendar_left(from),
{
    let w = walk_from(expr, from);
    lemma_walk_step(expr, from);
    lemma_walk_ascends(expr, from);
    lemma_walk_fires(expr, from);
    let rest = w.drop_first();
    let next = w[0] + 2 * NANOS;
    assert(rest == walk_from(expr, next));
    assert(rest[i] == w[i + 1]);
    assert(w[0] < w[i + 1]);
    assert(on_second(w[0]));
    assert(on_second(next));
    if i == 0 {
        lemma_walk_step(expr, next);
        assert(first_fire(expr, next) == Some(w[1]));
        assert(is_first_fire(expr, next, w[1]));
    } else {
        assert(rest[i - 1] == w[i]);
        lemma_between_steps(expr, next, i - 1);
    }
}

proof fn lemma_first_fire(expr: Seq<char>, from: int, t: int)
    requires
        on_second(t),
        from <= t < SCHEDULE_LAST,
        fires(expr, t),
    ensures
        first_fire(expr, from) matches Some(s) && is_first_fire(expr, from, s) && s <= t,
    decreases t - from,
{
    if exists|u: int| from <= u < t && on_second(u) && #[trigger] fires(expr, u) {
        let u = choose|u: int| from <= u < t && on_second(u) && #[trigger] fires(expr, u);
        lemma_first_fire(expr, from, u);
    } else {
        assert(is_first_fire(expr, from, t));
        let s = first_fire(expr, from)->0;
        assert(is_first_fire(expr, from, s));
        if s > t {
            assert(!fires(expr, t));
        }
    }
}

/// A block begins at or before its places, and is as long as it is.
proof fn lemma_block(at: int, length: int)
    requires
        length > 0,
    ensures
        block_of(at, length) <= at < block_of(at, length) + length,
        block_of(block_of(at, length), length) == block_of(at, length),
{
    reveal(block_of);
    let m = at - at % length;
    vstd::arithmetic::div_mod::lemma_fundamental_div_mod(at, length);
    vstd::arithmetic::div_mod::lemma_mod_multiples_basic(at / length, length);
    assert(m == length * (at / length));
    assert(m == (at / length) * length) by (nonlinear_arith)
        requires
            m == length * (at / length),
    ;
    assert(0 <= at % length < length) by (nonlinear_arith)
        requires
            length > 0,
    ;
}

/// A place lies in the block that begins at or before it and ends after it.
proof fn lemma_block_at(m: int, at: int, length: int)
    requires
        length > 0,
        block_of(m, length) == m,
        m <= at < m + length,
    ensures
        block_of(at, length) == m,
{
    lemma_block(at, length);
    lemma_blocks_apart(m, block_of(at, length), length);
    lemma_blocks_apart(block_of(at, length), m, length);
}

/// Blocks follow one another.
proof fn lemma_blocks_apart(m: int, n: int, length: int)
    requires
        length > 0,
        block_of(m, length) == m,
        block_of(n, length) == n,
    ensures
        m < n ==> m + length <= n,
        block_of(m + length, length) == m + length,
{
    reveal(block_of);
    vstd::arithmetic::div_mod::lemma_fundamental_div_mod(m, length);
    vstd::arithmetic::div_mod::lemma_fundamental_div_mod(n, length);
    let a = m / length;
    let b = n / length;
    assert(m < n ==> m + length <= n) by (nonlinear_arith)
        requires
            m == length * a,
            n == length * b,
            length > 0,
    ;
    assert(m + length == (a + 1) * length) by (nonlinear_arith)
        requires
            m == length * a,
    ;
    vstd::arithmetic::div_mod::lemma_mod_multiples_basic(a + 1, length);
}

/// The blocks of hours are made of whole minutes, those of days of whole hours, and the
/// year 5000 begins with a day.
proof fn lemma_blocks_nest(at: int)
    ensures
        block_of(hour_of(at), MINUTE_NS as int) == hour_of(at),
        block_of(day_of(at), HOUR_NS as int) == day_of(at),
        minute_of(SCHEDULE_END as int) == SCHEDULE_END,
        hour_of(SCHEDULE_END as int) == SCHEDULE_END,
        on_second(SCHEDULE_END as int),
{
    reveal(block_of);
    assert((at - at % 3_600_000_000_000) % 60_000_000_000 == 0);
    assert((at - at % 86_400_000_000_000) % 3_600_000_000_000 == 0);
    assert(95_617_584_000_000_000_000int % 60_000_000_000 == 0);
    assert(95_617_584_000_000_000_000int % 3_600_000_000_000 == 0);
    assert(95_617_584_000_000_000_000int % 1_000_000_000 == 0);
}

/// The seconds of a minute, by their numbers.
proof fn lemma_second_at(m: int, k: int)
    requires
        minute_of(m) == m,
        0 <= k < 60,
    ensures
        on_second(m),
        on_second(m + k * NANOS),
        minute_of(m + k * NANOS) == m,
        second_of(m + k * NANOS) == k,
{
    lemma_block_at(m, m + k * NANOS, MINUTE_NS as int);
    reveal(block_of);
    assert(m % 60_000_000_000 == 0);
    assert(m % 1_000_000_000 == 0);
    assert((k * 1_000_000_000) / 1_000_000_000 == k);
}

/// A whole second, by its minute and its number there.
proof fn lemma_second_form(at: int)
    requires
        on_second(at),
    ensures
        minute_of(minute_of(at)) == minute_of(at),
        on_second(minute_of(at)),
        0 <= second_of(at) < 60,
        at == minute_of(at) + second_of(at) * NANOS,
        minute_of(at) <= at < minute_of(at) + MINUTE_NS,
{
    lemma_block(at, MINUTE_NS as int);
    let m = minute_of(at);
    lemma_second_at(m, 0);
    assert((at - m) % 1_000_000_000 == 0);
    assert(0 <= at - m < 60_000_000_000);
}

/// What lies between two places of one minute lies in that minute, and so in one hour and
/// on one day.
proof fn lemma_same_minute(a: int, b: int, c: int)
    requires
        a <= b <= c,
        minute_of(a) == minute_of(c),
    ensures
        minute_of(b) == minute_of(a),
        hour_of(b) == hour_of(a),
        day_of(b) == day_of(a),
        SCHEDULE_END <= c ==> SCHEDULE_END <= a,
{
    let m = minute_of(a);
    let h = hour_of(a);
    let d = day_of(a);
    lemma_block(a, MINUTE_NS as int);
    lemma_block(c, MINUTE_NS as int);
    lemma_block(a, HOUR_NS as int);
    lemma_block(a, DAY_NS as int);
    lemma_block_at(m, b, MINUTE_NS as int);
    lemma_blocks_nest(a);
    lemma_blocks_apart(h, h, HOUR_NS as int);
    lemma_blocks_nest(h + HOUR_NS);
    lemma_blocks_apart(m, h + HOUR_NS, MINUTE_NS as int);
    lemma_block_at(h, b, HOUR_NS as int);
    lemma_blocks_apart(d, d, DAY_NS as int);
    lemma_blocks_nest(d + DAY_NS);
    lemma_blocks_apart(h, d + DAY_NS, HOUR_NS as int);
    lemma_block_at(d, b, DAY_NS as int);
    lemma_blocks_apart(m, SCHEDULE_END as int, MINUTE_NS as int);
}

/// From a whole second on a walk meets a second, before the year 5000 or in the minute in
/// which it begins, exactly when the schedule names it and the walk did not meet the
/// second before.
pub proof fn lemma_walk_meets(expr: Seq<char>, from: int, t: int)
    requires
        on_second(from),
        on_second(t),
        from <= t < SCHEDULE_LAST,
        t < SCHEDULE_END || minute_of(from) == minute_of(t),
    ensures
        meets(expr, from, t) <==> fires(expr, t) && !meets(expr, from, t - NANOS),
    decreases calendar_left(from),
{
    let w = walk_from(expr, from);
    lemma_walk_fires(expr, from);
    lemma_walk_ascends(expr, from);
    lemma_walk_step(expr, from);
    if meets(expr, from, t) {
        let i = choose|i: int| 0 <= i < w.len() && w[i] == t;
        assert(fires(expr, w[i]));
    }
    if fires(expr, t) {
        lemma_first_fire(expr, from, t);
        let s = first_fire(expr, from)->0;
        if SCHEDULE_END <= s {
            assert(late_start(from) == from || from < SCHEDULE_END);
            lemma_same_minute(from, s, t);
            assert(reached(expr, late_start(from), s));
        }
        assert(search(expr, from) == Ok::<int, Seq<char>>(s));
        assert(w.len() > 0 && w[0] == s);
        let next = s + 2 * NANOS;
        let rest = w.drop_first();
        assert(rest == walk_from(expr, next));
        lemma_walk_ascends(expr, next);
        assert(w.contains(s));
        assert forall|u: int| u != s implies w.contains(u) == #[trigger] rest.contains(u) by {
            if w.contains(u) {
                let i = choose|i: int| 0 <= i < w.len() && w[i] == u;
                assert(rest[i - 1] == u);
            }
            if rest.contains(u) {
                let i = choose|i: int| 0 <= i < rest.len() && rest[i] == u;
                assert(w[i + 1] == u);
            }
        }
        if t == s {
            if w.contains(t - NANOS) {
                let i = choose|i: int| 0 <= i < w.len() && w[i] == t - NANOS;
                if i > 0 {
                    assert(w[0] + 2 * NANOS <= w[i]);
                }
            }
        } else if t < next {
            assert(t == s + NANOS);
            if rest.contains(t) {
                let i = choose|i: int| 0 <= i < rest.len() && rest[i] == t;
            }
        } else {
            if SCHEDULE_END <= t {
                lemma_same_minute(from, next, t);
            }
            lemma_walk_meets(expr, next, t);
            assert(rest.contains(t) == w.contains(t));
            if t - NANOS == s {
                assert(false);
            }
            assert(rest.contains(t - NANOS) == w.contains(t - NANOS));
        }
    }
}

/// Where no two seconds in a row are named, a walk meets each second that is named.
pub proof fn lemma_spaced_meets(expr: Seq<char>, from: int, t: int)
    requires
        on_second(from),
        on_second(t),
        from <= t < SCHEDULE_END,
        spaced(expr, from, t + 1),
    ensures
        meets(expr, from, t) <==> fires(expr, t),
{
    lemma_walk_meets(expr, from, t);
    if meets(expr, from, t - NANOS) {
        let w = walk_from(expr, from);
        lemma_walk_fires(expr, from);
        lemma_walk_ascends(expr, from);
        let i = choose|i: int| 0 <= i < w.len() && w[i] == t - NANOS;
        assert(fires(expr, w[i]));
        assert(fires(expr, t - NANOS) ==> !fires(expr, t - NANOS + NANOS));
    }
}

/// A search that finds a place finds it from everywhere before it, as far back as it
/// began.
proof fn lemma_search_onward(expr: Seq<char>, x: int, y: int, w: int)
    requires
        on_second(x),
        on_second(y),
        x <= y <= w,
        search(expr, x) == Ok::<int, Seq<char>>(w),
    ensures
        search(expr, y) == Ok::<int, Seq<char>>(w),
        walk_from(expr, y) == walk_from(expr, x),
{
    assert(is_first_fire(expr, x, w));
    assert(is_first_fire(expr, y, w));
    let v = first_fire(expr, y)->0;
    assert(is_first_fire(expr, y, v));
    assert(v == w) by {
        if v < w {
            assert(!fires(expr, v));
        }
        if w < v {
            assert(!fires(expr, w));
        }
    }
    if SCHEDULE_END <= w {
        let a = late_start(x);
        let b = late_start(y);
        assert(a <= b <= w);
        lemma_between_days(a, b, w);
        if fires_within(expr, hour_of(b), b) {
            let u = choose|u: int| hour_of(b) <= u < b && on_second(u) && #[trigger] fires(expr, u);
            lemma_before_start(expr, x, a, b, u, HOUR_NS as int);
            assert(fires_within(expr, hour_of(a), a));
        }
        if fires_within(expr, minute_of(b), b) {
            let u = choose|u: int|
                minute_of(b) <= u < b && on_second(u) && #[trigger] fires(expr, u);
            lemma_before_start(expr, x, a, b, u, MINUTE_NS as int);
            assert(fires_within(expr, minute_of(a), a));
        }
        assert(reached(expr, b, w));
    }
    reveal(walk_from);
}

proof fn lemma_between_days(a: int, b: int, w: int)
    requires
        a <= b <= w,
        day_of(a) == day_of(w),
    ensures
        day_of(b) == day_of(w),
{
    lemma_block(a, DAY_NS as int);
    lemma_block(w, DAY_NS as int);
    lemma_block_at(day_of(a), b, DAY_NS as int);
}

/// A named second of the block of a later place, where nothing from an earlier place on is
/// named, lies in the block of the earlier.
proof fn lemma_before_start(expr: Seq<char>, x: int, a: int, b: int, u: int, length: int)
    requires
        a == late_start(x),
        a <= b,
        length == HOUR_NS || length == MINUTE_NS,
        block_of(b, length) <= u < b,
        forall|z: int| x <= z < b && on_second(z) ==> !#[trigger] fires(expr, z),
        on_second(u),
        fires(expr, u),
    ensures
        block_of(a, length) <= u < a,
        block_of(a, length) == block_of(b, length),
{
    assert(!(x <= u));
    lemma_block(b, length);
    lemma_blocks_nest(b);
    let h = block_of(b, length);
    if x < SCHEDULE_END {
        lemma_blocks_apart(h, SCHEDULE_END as int, length);
    }
    lemma_block_at(h, a, length);
}

/// What a walk meets after a place that it meets is what the walk from two seconds past
/// that place meets.
proof fn lemma_walk_goes_on(expr: Seq<char>, from: int, c: int, t: int)
    requires
        meets(expr, from, c),
        c < t,
    ensures
        meets(expr, from, t) <==> meets(expr, c + 2 * NANOS, t),
    decreases calendar_left(from),
{
    let w = walk_from(expr, from);
    lemma_walk_step(expr, from);
    lemma_walk_ascends(expr, from);
    let rest = w.drop_first();
    let next = w[0] + 2 * NANOS;
    assert(rest == walk_from(expr, next));
    assert forall|u: int| u != w[0] implies w.contains(u) == #[trigger] rest.contains(u) by {
        if w.contains(u) {
            let i = choose|i: int| 0 <= i < w.len() && w[i] == u;
            assert(rest[i - 1] == u);
        }
        if rest.contains(u) {
            let i = choose|i: int| 0 <= i < rest.len() && rest[i] == u;
            assert(w[i + 1] == u);
        }
    }
    let i = choose|i: int| 0 <= i < w.len() && w[i] == c;
    if i > 0 {
        assert(w[0] + 2 * NANOS <= w[i]);
    }
    assert(w[0] <= c);
    assert(rest.contains(t) == w.contains(t));
    if c != w[0] {
        assert(rest.contains(c));
        lemma_walk_goes_on(expr, next, c, t);
    }
}

/// A walk that meets anything meets first what its search finds.
proof fn lemma_walk_first(expr: Seq<char>, from: int, t: int) -> (w: int)
    requires
        on_second(from),
        meets(expr, from, t),
    ensures
        search(expr, from) == Ok::<int, Seq<char>>(w),
        from <= w <= t < SCHEDULE_LAST,
        on_second(w) && on_second(t),
        fires(expr, w) && fires(expr, t),
        meets(expr, from, w),
        w < t ==> meets(expr, w + 2 * NANOS, t) && w + 2 * NANOS <= t,
{
    let all = walk_from(expr, from);
    lemma_walk_step(expr, from);
    lemma_walk_ascends(expr, from);
    lemma_walk_fires(expr, from);
    let i = choose|i: int| 0 <= i < all.len() && all[i] == t;
    let w = all[0];
    assert(all.contains(w));
    if i > 0 {
        assert(all[0] + 2 * NANOS <= all[i]);
        lemma_walk_goes_on(expr, from, w, t);
    }
    w
}

/// Whether a walk that enters a named minute at its start meets a second of it.
spec fn taken(expr: Seq<char>, k: int) -> bool
    decreases k + 1,
{
    if k < 0 {
        false
    } else {
        second_named(expr, k) && !taken(expr, k - 1)
    }
}

proof fn lemma_in_minute(expr: Seq<char>, m: int, k: int)
    requires
        minute_of(m) == m,
        minute_named(expr, m),
        0 <= k < 60,
        m + k * NANOS < SCHEDULE_LAST,
    ensures
        meets(expr, m, m + k * NANOS) <==> taken(expr, k),
    decreases k,
{
    let t = m + k * NANOS;
    lemma_second_at(m, k);
    lemma_walk_meets(expr, m, t);
    if k > 0 {
        lemma_in_minute(expr, m, k - 1);
        assert(t - NANOS == m + (k - 1) * NANOS);
    } else {
        assert(!taken(expr, -1));
        lemma_walk_ascends(expr, m);
        if meets(expr, m, m - NANOS) {
            let w = walk_from(expr, m);
            let i = choose|i: int| 0 <= i < w.len() && w[i] == m - NANOS;
            assert(m <= w[i]);
        }
    }
}

/// Of seconds in a row every other is taken.
proof fn lemma_taken_alternate(expr: Seq<char>, a: int, b: int)
    requires
        0 <= a <= b,
        forall|k: int| a <= k <= b ==> #[trigger] second_named(expr, k),
        taken(expr, a),
    ensures
        taken(expr, b) <==> (b - a) % 2 == 0,
    decreases b - a,
{
    if a < b {
        lemma_taken_alternate(expr, a, b - 1);
        assert(second_named(expr, b));
    }
}

/// A walk in the year 5000 that gets out of a minute, of which the last second is not
/// named, meets the second before that.
proof fn lemma_leaves_minute(expr: Seq<char>, m: int, q: int, t: int)
    requires
        SCHEDULE_END <= m,
        minute_of(m) == m,
        m <= q < m + MINUTE_NS,
        on_second(q),
        m + MINUTE_NS <= t,
        meets(expr, q, t),
        !second_named(expr, 59),
        fires_within(expr, m, q) || (search(expr, q) matches Ok(w) && minute_of(w) == m),
    ensures
        meets(expr, q, m + 58 * NANOS),
    decreases m + MINUTE_NS - q,
{
    let w = lemma_walk_first(expr, q, t);
    lemma_block_at(m, q, MINUTE_NS as int);
    assert(late_start(q) == q);
    assert(minute_of(w) == m) by {
        if fires_within(expr, m, q) {
            assert(is_first_fire(expr, q, w));
            assert(reached(expr, q, w));
        }
    }
    lemma_second_form(w);
    let next = w + 2 * NANOS;
    assert(on_second(next));
    if next < m + MINUTE_NS {
        assert(fires_within(expr, m, next)) by {
            assert(m <= w < next && on_second(w) && fires(expr, w));
        }
        lemma_leaves_minute(expr, m, next, t);
        lemma_block(w, MINUTE_NS as int);
        assert(second_of(w) < 58);
        lemma_walk_goes_on(expr, q, w, m + 58 * NANOS);
    } else {
        assert(second_of(w) == 58 || second_of(w) == 59);
    }
}

/// A walk from the start of a minute of the year 5000 enters each minute at its start,
/// where the last second of a minute is not named.
proof fn lemma_enters_minute(expr: Seq<char>, p: int, t: int)
    requires
        SCHEDULE_END <= p,
        minute_of(p) == p,
        p <= minute_of(t),
        meets(expr, p, t),
        !second_named(expr, 59),
    ensures
        meets(expr, minute_of(t), t),
        minute_named(expr, minute_of(t)),
    decreases minute_of(t) - p,
{
    lemma_second_at(p, 0);
    let w = lemma_walk_first(expr, p, t);
    let m = minute_of(w);
    lemma_second_form(w);
    lemma_second_form(t);
    lemma_blocks_apart(m, p, MINUTE_NS as int);
    lemma_search_onward(expr, p, m, w);
    if m < minute_of(t) {
        lemma_blocks_apart(m, minute_of(t), MINUTE_NS as int);
        lemma_leaves_minute(expr, m, m, t);
        lemma_walk_goes_on(expr, m, m + 58 * NANOS, t);
        lemma_enters_minute(expr, m + MINUTE_NS, t);
    } else {
        lemma_blocks_apart(minute_of(t), m, MINUTE_NS as int);
    }
}

/// A second that a walk meets in the year 5000 more than a day after the start of a minute
/// cannot lie an odd number of named seconds before the last but one of its minute.
proof fn lemma_never_off_beat(expr: Seq<char>, p: int, k: int, t: int)
    requires
        SCHEDULE_END <= p,
        minute_of(p) == p,
        0 <= k < 58,
        k % 2 == 1,
        !second_named(expr, 59),
        forall|j: int| k <= j <= 58 ==> #[trigger] second_named(expr, j),
        t == minute_of(t) + k * NANOS,
        p + DAY_NS < minute_of(t),
    ensures
        !meets(expr, p, t),
{
    if meets(expr, p, t) {
        lemma_on_beat(expr, p, k, t);
    }
}

proof fn lemma_on_beat(expr: Seq<char>, p: int, k: int, t: int)
    requires
        SCHEDULE_END <= p,
        minute_of(p) == p,
        0 <= k < 58,
        !second_named(expr, 59),
        forall|j: int| k <= j <= 58 ==> #[trigger] second_named(expr, j),
        meets(expr, p, t),
        t == minute_of(t) + k * NANOS,
        p + DAY_NS < minute_of(t),
    ensures
        k % 2 == 0,
{
    lemma_second_at(p, 0);
    let w = lemma_walk_first(expr, p, t);
    let m = minute_of(w);
    lemma_second_form(w);
    lemma_second_form(t);
    lemma_blocks_apart(m, p, MINUTE_NS as int);
    assert(late_start(p) == p);
    assert(is_first_fire(expr, p, w));
    assert(day_of(p) == day_of(w));
    lemma_block(p, DAY_NS as int);
    lemma_block(w, DAY_NS as int);
    lemma_search_onward(expr, p, m, w);
    let last = minute_of(t);
    lemma_blocks_apart(m, last, MINUTE_NS as int);
    lemma_leaves_minute(expr, m, m, t);
    lemma_in_minute(expr, m, 58);
    lemma_enters_minute(expr, p, t);
    lemma_in_minute(expr, last, k);
    lemma_taken_alternate(expr, k, 58);
}

/// The number of seconds of the twenty-six hours around which a key is looked for.
pub const NEARBY_SECONDS: i128 = 93_600;

proof fn lemma_even_apart(f: int, y: int, t: int)
    requires
        (y - f) % (2 * NANOS) == 0,
        t == f + NEARBY_SECONDS * NANOS,
    ensures
        t != y + NANOS,
        (y + 2 * NANOS - f) % (2 * NANOS) == 0,
{
    assert(2 * NANOS == 2_000_000_000int && NEARBY_SECONDS * NANOS == 93_600_000_000_000int);
    assert((y - f) % 2_000_000_000 == 0);
}

/// A walk whose search begins one second before that of another, in the run of named
/// seconds that it has followed so far, meets what the other meets twenty-six hours after
/// the start of the run.
proof fn lemma_behind(expr: Seq<char>, f: int, y: int, t: int)
    requires
        on_second(f),
        on_second(y),
        f <= y,
        (y - f) % (2 * NANOS) == 0,
        fires(expr, y - NANOS),
        forall|z: int| f <= z < y && on_second(z) ==> #[trigger] fires(expr, z),
        t == f + NEARBY_SECONDS * NANOS,
        meets(expr, y + NANOS, t),
    ensures
        meets(expr, y, t),
    decreases t - y,
{
    let x = y + NANOS;
    assert(on_second(x));
    let w = lemma_walk_first(expr, x, t);
    if fires(expr, y) {
        assert(is_first_fire(expr, y, y));
        let s = first_fire(expr, y)->0;
        assert(is_first_fire(expr, y, s));
        assert(s == y) by {
            if y < s {
                assert(!fires(expr, y));
            }
        }
        lemma_found_at_once(expr, y);
        let next = y + 2 * NANOS;
        assert(on_second(next));
        lemma_even_apart(f, y, t);
        if w == x {
            assert(t != x) by {
                lemma_even_apart(f, y, t);
            }
            assert(meets(expr, next + NANOS, t));
            assert forall|z: int| f <= z < next && on_second(z) implies #[trigger] fires(expr, z) by {
                if z >= y {
                    assert(z == y || z == x);
                }
            }
            lemma_behind(expr, f, next, t);
        } else {
            assert(next <= w);
            lemma_search_onward(expr, x, next, w);
        }
        lemma_walk_goes_on(expr, y, y, t);
    } else {
        assert(is_first_fire(expr, x, w));
        assert(is_first_fire(expr, y, w)) by {
            assert forall|u: int| y <= u < w && on_second(u) implies !#[trigger] fires(expr, u) by {
                if u < x {
                    assert(u == y);
                }
            }
        }
        let s = first_fire(expr, y)->0;
        assert(is_first_fire(expr, y, s));
        assert(s == w) by {
            if s < w {
                assert(!fires(expr, s));
            }
            if w < s {
                assert(!fires(expr, w));
            }
        }
        if search(expr, y) == Ok::<int, Seq<char>>(w) {
            lemma_search_onward(expr, y, x, w);
        } else {
            lemma_stuck(expr, f, y, w, t);
        }
    }
}

proof fn lemma_found_at_once(expr: Seq<char>, y: int)
    requires
        on_second(y),
        y < SCHEDULE_LAST,
        fires(expr, y),
        first_fire(expr, y) == Some(y),
    ensures
        meets(expr, y, y),
{
    if SCHEDULE_END <= y {
        assert(reached(expr, y, y));
    }
    lemma_walk_step(expr, y);
    let w = walk_from(expr, y);
    assert(w[0] == y);
    assert(w.contains(y));
}

/// A search that gets stuck where the one from a second later does not, began at the last
/// second of a minute of the year 5000.
proof fn lemma_stuck(expr: Seq<char>, f: int, y: int, w: int, t: int)
    requires
        on_second(f),
        on_second(y),
        f <= y < w,
        (y - f) % (2 * NANOS) == 0,
        fires(expr, y - NANOS),
        !fires(expr, y),
        forall|z: int| f <= z < y && on_second(z) ==> #[trigger] fires(expr, z),
        t == f + NEARBY_SECONDS * NANOS,
        meets(expr, y + NANOS, t),
        fires(expr, t),
        first_fire(expr, y) == Some(w),
        first_fire(expr, y + NANOS) == Some(w),
        search(expr, y + NANOS) == Ok::<int, Seq<char>>(w),
    ensures
        search(expr, y) == Ok::<int, Seq<char>>(w),
{
    if search(expr, y) != Ok::<int, Seq<char>>(w) {
        lemma_stuck_at_end(expr, f, y, w);
        let m = minute_of(y);
        lemma_second_form(y);
        lemma_block_at(m, f, MINUTE_NS as int);
        lemma_second_form(f);
        let k = second_of(f);
        lemma_nearby_minutes(m);
        lemma_second_at(m + NEARBY_SECONDS * NANOS, k);
        assert(t == (m + NEARBY_SECONDS * NANOS) + k * NANOS);
        assert(k != 59);
        lemma_odd_second(m, k, y, f);
        assert forall|j: int| k <= j <= 58 implies #[trigger] second_named(expr, j) by {
            lemma_second_at(m, j);
            assert(fires(expr, m + j * NANOS));
        }
        lemma_blocks_apart(m, m, MINUTE_NS as int);
        lemma_never_off_beat(expr, m + MINUTE_NS, k, t);
    }
}

proof fn lemma_nearby_minutes(m: int)
    requires
        minute_of(m) == m,
    ensures
        minute_of(m + NEARBY_SECONDS * NANOS) == m + NEARBY_SECONDS * NANOS,
{
    reveal(block_of);
    assert(m % 60_000_000_000 == 0);
    assert((m + 93_600_000_000_000) % 60_000_000_000 == 0);
}

proof fn lemma_odd_second(m: int, k: int, y: int, f: int)
    requires
        y == m + 59 * NANOS,
        f == m + k * NANOS,
        (y - f) % (2 * NANOS) == 0,
    ensures
        k % 2 == 1,
{
    let d = (59 - k) * 1_000_000_000;
    assert(y - f == d);
    let q = d / 2_000_000_000;
    assert(d == q * 2_000_000_000);
    assert(59 - k == 2 * q);
}

proof fn lemma_stuck_at_end(expr: Seq<char>, f: int, y: int, w: int)
    requires
        on_second(f),
        on_second(y),
        f <= y < w,
        fires(expr, y - NANOS),
        !fires(expr, y),
        forall|z: int| f <= z < y && on_second(z) ==> #[trigger] fires(expr, z),
        first_fire(expr, y) == Some(w),
        first_fire(expr, y + NANOS) == Some(w),
        search(expr, y + NANOS) == Ok::<int, Seq<char>>(w),
        search(expr, y) != Ok::<int, Seq<char>>(w),
    ensures
        SCHEDULE_END <= y,
        y == minute_of(y) + 59 * NANOS,
        minute_of(y) <= f,
        !second_named(expr, 59),
{
    let x = y + NANOS;
    assert(on_second(x));
    lemma_blocks_nest(y);
    lemma_seconds_apart(y, SCHEDULE_END as int);
    assert(SCHEDULE_END <= y);
    assert(late_start(y) == y && late_start(x) == x);
    assert(reached(expr, x, w) && !reached(expr, y, w));
    let m = minute_of(y);
    lemma_second_form(y);
    lemma_second_form(x);
    if minute_of(x) == m {
        lemma_same_minute(y, x, x);
        if fires_within(expr, hour_of(y), y) {
            let u = choose|u: int| hour_of(y) <= u < y && on_second(u) && #[trigger] fires(expr, u);
            assert(fires_within(expr, hour_of(x), x));
        }
        if fires_within(expr, minute_of(y), y) {
            let u = choose|u: int|
                minute_of(y) <= u < y && on_second(u) && #[trigger] fires(expr, u);
            assert(fires_within(expr, minute_of(x), x));
        }
        assert(false);
    }
    assert(second_of(y) == 59) by {
        if second_of(y) < 59 {
            lemma_second_at(m, second_of(y) + 1);
        }
    }
    lemma_second_at(m, 58);
    assert(!second_named(expr, 59));
    if f < m {
        let z = m - NANOS;
        lemma_second_before(m);
        lemma_seconds_apart(f, m);
        assert(fires(expr, z));
        assert(false);
    }
}

/// What the search from two seconds past a named second finds, the search from one second
/// past it finds too, where that second is not named; but not in the year 5000 from the
/// last second of a minute.
pub proof fn lemma_search_one_back(expr: Seq<char>, t: int, w: int)
    requires
        on_second(t),
        fires(expr, t),
        !fires(expr, t + NANOS),
        search(expr, t + 2 * NANOS) == Ok::<int, Seq<char>>(w),
        w < SCHEDULE_END || second_of(t) != 58,
    ensures
        search(expr, t + NANOS) == Ok::<int, Seq<char>>(w),
{
    let y = t + NANOS;
    let x = t + 2 * NANOS;
    assert(on_second(y) && on_second(x));
    assert(is_first_fire(expr, x, w));
    assert(is_first_fire(expr, y, w)) by {
        assert forall|u: int| y <= u < w && on_second(u) implies !#[trigger] fires(expr, u) by {
            if u < x {
                lemma_seconds_apart(y, u);
            }
        }
    }
    let v = first_fire(expr, y)->0;
    assert(is_first_fire(expr, y, v));
    assert(v == w) by {
        if v < w {
            assert(!fires(expr, v));
        }
        if w < v {
            assert(!fires(expr, w));
        }
    }
    if search(expr, y) != Ok::<int, Seq<char>>(w) {
        lemma_stuck_at_end(expr, y, y, w);
        lemma_second_form(y);
        lemma_second_at(minute_of(y), 58);
    }
}

/// Two whole seconds that are not the same lie a second apart at least.
proof fn lemma_seconds_apart(a: int, b: int)
    requires
        on_second(a),
        on_second(b),
    ensures
        a < b ==> a + NANOS <= b,
{
    assert(a % 1_000_000_000 == 0 && b % 1_000_000_000 == 0);
}

/// The second before the start of a minute is the last of its own.
proof fn lemma_second_before(m: int)
    requires
        minute_of(m) == m,
    ensures
        on_second(m - NANOS),
        second_of(m - NANOS) == 59,
{
    let p = m - MINUTE_NS;
    assert(minute_of(p) == p) by {
        reveal(block_of);
        assert(m % 60_000_000_000 == 0);
        assert((m - 60_000_000_000) % 60_000_000_000 == 0);
    }
    lemma_second_at(p, 59);
}

/// What a walk meets, a walk that starts later, twenty-six hours before it, meets too.
pub proof fn lemma_later_walk_meets(expr: Seq<char>, a: int, f: int)
    requires
        on_second(a),
        on_second(f),
        a <= f,
        meets(expr, a, f + NEARBY_SECONDS * NANOS),
    ensures
        meets(expr, f, f + NEARBY_SECONDS * NANOS),
    decreases calendar_left(a),
{
    let t = f + NEARBY_SECONDS * NANOS;
    let w = lemma_walk_first(expr, a, t);
    if f <= w {
        lemma_search_onward(expr, a, f, w);
    } else {
        let next = w + 2 * NANOS;
        assert(on_second(next));
        if next <= f {
            lemma_later_walk_meets(expr, next, f);
        } else {
            assert(f == w + NANOS);
            lemma_behind(expr, f, f, t);
        }
    }
}

} // verus!
