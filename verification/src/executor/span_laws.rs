//! What the spans of a duration come to, for a number with its unit and for several spans
//! one after the other.
use vstd::prelude::*;
use crate::executor::pool_claim::{setting_of, setting_read};
use crate::executor::spans::{
    digit_value, is_digit, is_letter, no_spans, span_over, span_step, spans_in, spans_ns, unit_ns,
    Part, SpansView, DURATION_LIMIT,
};
use crate::text::{decimal, digit};

verus! {

/// The units go by each other as the calendar and the clock have it.
pub proof fn lemma_units()
    ensures
        unit_ns("us"@) == 1_000 * unit_ns("ns"@),
        unit_ns("ms"@) == 1_000 * unit_ns("us"@),
        unit_ns("s"@) == 1_000 * unit_ns("ms"@),
        unit_ns("m"@) == 60 * unit_ns("s"@),
        unit_ns("h"@) == 60 * unit_ns("m"@),
        unit_ns("d"@) == 24 * unit_ns("h"@),
        unit_ns("w"@) == 7 * unit_ns("d"@),
        12 * unit_ns("M"@) >= 365 * unit_ns("d"@),
        4 * unit_ns("y"@) == 1461 * unit_ns("d"@),
        unit_ns("ns"@) == 1,
{
    reveal_strlit("ns");
    reveal_strlit("nsec");
    reveal_strlit("nanos");
    reveal_strlit("us");
    reveal_strlit("usec");
    reveal_strlit("µs");
    reveal_strlit("ms");
    reveal_strlit("msec");
    reveal_strlit("millis");
    reveal_strlit("s");
    reveal_strlit("sec");
    reveal_strlit("secs");
    reveal_strlit("second");
    reveal_strlit("seconds");
    reveal_strlit("m");
    reveal_strlit("min");
    reveal_strlit("mins");
    reveal_strlit("minute");
    reveal_strlit("minutes");
    reveal_strlit("h");
    reveal_strlit("hr");
    reveal_strlit("hrs");
    reveal_strlit("hour");
    reveal_strlit("hours");
    reveal_strlit("d");
    reveal_strlit("day");
    reveal_strlit("days");
    reveal_strlit("w");
    reveal_strlit("wk");
    reveal_strlit("wks");
    reveal_strlit("week");
    reveal_strlit("weeks");
    reveal_strlit("M");
    reveal_strlit("month");
    reveal_strlit("months");
    reveal_strlit("y");
    reveal_strlit("yr");
    reveal_strlit("yrs");
    reveal_strlit("year");
    reveal_strlit("years");
    assert("us"@[0] != "ns"@[0]);
    assert("ms"@[0] != "ns"@[0] && "ms"@[0] != "us"@[0] && "ms"@[0] != "µs"@[0]);
    assert("m"@[0] != "s"@[0]);
    assert("m"@.len() != "ns"@.len());
    assert("m"@.len() != "nsec"@.len());
    assert("m"@.len() != "nanos"@.len());
    assert("m"@.len() != "us"@.len());
    assert("m"@.len() != "usec"@.len());
    assert("m"@.len() != "µs"@.len());
    assert("m"@.len() != "ms"@.len());
    assert("m"@.len() != "msec"@.len());
    assert("m"@.len() != "millis"@.len());
    assert("m"@.len() != "sec"@.len());
    assert("m"@.len() != "secs"@.len());
    assert("m"@.len() != "second"@.len());
    assert("m"@.len() != "seconds"@.len());
    assert(unit_ns("m"@) == 60_000_000_000);
    assert("h"@[0] != "s"@[0] && "h"@[0] != "m"@[0]);
    assert("d"@[0] != "s"@[0] && "d"@[0] != "m"@[0] && "d"@[0] != "h"@[0]);
    assert("w"@[0] != "s"@[0] && "w"@[0] != "m"@[0] && "w"@[0] != "h"@[0] && "w"@[0] != "d"@[0]);
    assert("M"@[0] != "s"@[0] && "M"@[0] != "m"@[0] && "M"@[0] != "h"@[0] && "M"@[0] != "d"@[0]
        && "M"@[0] != "w"@[0]);
    assert("y"@[0] != "s"@[0] && "y"@[0] != "m"@[0] && "y"@[0] != "h"@[0] && "y"@[0] != "d"@[0]
        && "y"@[0] != "w"@[0] && "y"@[0] != "M"@[0]);
}

proof fn lemma_digits_read(n: nat)
    requires
        n <= u64::MAX,
    ensures
        spans_in(decimal(n)) == Some(SpansView { number: n, ..no_spans() }),
    decreases n,
{
    let w = decimal(n).drop_last();
    if n < 10 {
        assert(w =~= Seq::empty());
        assert(spans_in(w) == Some(no_spans()));
    } else {
        assert(w =~= decimal(n / 10));
        lemma_digits_read(n / 10);
    }
    assert(decimal(n).last() == digit(n % 10));
    assert(is_digit(digit(n % 10)) && digit_value(digit(n % 10)) == n % 10);
}

proof fn lemma_unit_read(n: nat, unit: Seq<char>, k: int)
    requires
        n <= u64::MAX,
        0 < k <= unit.len(),
        forall|i: int| 0 <= i < unit.len() ==> is_letter(#[trigger] unit[i]),
    ensures
        spans_in(decimal(n) + unit.take(k)) == Some(
            SpansView { number: n, unit: unit.take(k), part: Part::Unit, ..no_spans() },
        ),
    decreases k,
{
    let t = decimal(n) + unit.take(k);
    assert(t.last() == unit[k - 1]);
    assert(is_letter(unit[k - 1]));
    assert(t.drop_last() =~= decimal(n) + unit.take(k - 1));
    if k == 1 {
        assert(t.drop_last() =~= decimal(n));
        lemma_digits_read(n);
        assert(unit.take(1) =~= seq![unit[0]]);
    } else {
        lemma_unit_read(n, unit, k - 1);
        assert(unit.take(k) =~= unit.take(k - 1).push(unit[k - 1]));
    }
}

/// A whole number with a unit is so many of the unit, where a duration can hold that.
pub proof fn lemma_one_span(n: nat, unit: Seq<char>)
    requires
        n <= u64::MAX,
        unit.len() > 0,
        forall|i: int| 0 <= i < unit.len() ==> is_letter(#[trigger] unit[i]),
    ensures
        n * unit_ns(unit) < DURATION_LIMIT ==> spans_ns(decimal(n) + unit) == Some(
            n * unit_ns(unit),
        ),
        n * unit_ns(unit) >= DURATION_LIMIT ==> spans_ns(decimal(n) + unit) is None,
{
    lemma_unit_read(n, unit, unit.len() as int);
    assert(unit.take(unit.len() as int) =~= unit);
    let s = spans_in(decimal(n) + unit)->0;
    assert(s.numerator * unit_ns(unit) / s.denominator == 0) by (nonlinear_arith)
        requires
            s.numerator == 0,
            s.denominator == 1,
    ;
}

proof fn lemma_spans_behind(a: Seq<char>, b: Seq<char>, x: nat)
    requires
        spans_in(a) is Some,
        spans_in(a)->0.part is Unit,
        span_over(spans_in(a)->0) is Some,
        span_over(spans_in(a)->0)->0.total == x,
        spans_in(b) is Some,
        spans_in(b)->0.total + x < DURATION_LIMIT,
    ensures
        spans_in(a + seq![' '] + b) == Some(
            SpansView { total: spans_in(b)->0.total + x, ..spans_in(b)->0 },
        ),
    decreases b.len(),
{
    let t = a + seq![' '] + b;
    if b.len() == 0 {
        assert(t.drop_last() =~= a);
        assert(t.last() == ' ');
    } else {
        let w = b.drop_last();
        assert(t.drop_last() =~= a + seq![' '] + w);
        assert(t.last() == b.last());
        let s = spans_in(w)->0;
        assert(span_step(s, b.last()) == spans_in(b));
        lemma_denominator(w);
        assert(s.total <= spans_in(b)->0.total);
        lemma_spans_behind(a, w, x);
    }
}

proof fn lemma_denominator(text: Seq<char>)
    requires
        spans_in(text) is Some,
    ensures
        spans_in(text)->0.denominator > 0,
    decreases text.len(),
{
    if text.len() > 0 {
        lemma_denominator(text.drop_last());
    }
}

/// Spans that follow one another come to their sum, where a duration can hold it.
pub proof fn lemma_spans_add_up(a: Seq<char>, b: Seq<char>)
    requires
        spans_in(a) is Some,
        spans_in(a)->0.part is Unit,
        spans_ns(a) is Some,
        spans_ns(b) is Some,
        spans_ns(a)->0 + spans_ns(b)->0 < DURATION_LIMIT,
    ensures
        spans_ns(a + seq![' '] + b) == Some(spans_ns(a)->0 + spans_ns(b)->0),
{
    let x = spans_ns(a)->0;
    let s = spans_in(b)->0;
    lemma_denominator(b);
    assert(s.total <= spans_ns(b)->0);
    lemma_spans_behind(a, b, x);
}

/// A setting that is not given, or that no duration can hold, leaves the default; one that
/// was read counts.
pub proof fn lemma_setting(value: Option<Seq<char>>, default_ns: nat)
    ensures
        value is None ==> setting_of(setting_read(value), default_ns) == default_ns,
        value matches Some(s) ==> spans_ns(s) is None ==> setting_of(
            setting_read(value),
            default_ns,
        ) == default_ns,
        setting_read(value) is Some ==> setting_of(setting_read(value), default_ns)
            == setting_read(value)->0,
{
}

} // verus!
