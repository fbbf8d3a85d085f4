//! How long the spans of a duration are in sum, such as `1m 30s`: a number, with a
//! fraction or without, and the name of a unit.
use vstd::prelude::*;
use crate::text::chars_of;

verus! {

/// The nanoseconds that a duration cannot hold any more: its whole seconds stay under
/// two to the power of sixty-four.
pub const DURATION_LIMIT: u128 = 18_446_744_073_709_551_616_000_000_000;

/// The nanoseconds of a unit; none where no unit has the name.
pub open spec fn unit_ns(unit: Seq<char>) -> nat {
    if unit == "ns"@ || unit == "nsec"@ || unit == "nanos"@ {
        1
    } else if unit == "us"@ || unit == "usec"@ || unit == "µs"@ {
        1_000
    } else if unit == "ms"@ || unit == "msec"@ || unit == "millis"@ {
        1_000_000
    } else if unit == "s"@ || unit == "sec"@ || unit == "secs"@ || unit == "second"@ || unit
        == "seconds"@ {
        1_000_000_000
    } else if unit == "m"@ || unit == "min"@ || unit == "mins"@ || unit == "minute"@ || unit
        == "minutes"@ {
        60_000_000_000
    } else if unit == "h"@ || unit == "hr"@ || unit == "hrs"@ || unit == "hour"@ || unit
        == "hours"@ {
        3_600_000_000_000
    } else if unit == "d"@ || unit == "day"@ || unit == "days"@ {
        86_400_000_000_000
    } else if unit == "w"@ || unit == "wk"@ || unit == "wks"@ || unit == "week"@ || unit
        == "weeks"@ {
        604_800_000_000_000
    } else if unit == "M"@ || unit == "month"@ || unit == "months"@ {
        2_630_016_000_000_000
    } else if unit == "y"@ || unit == "yr"@ || unit == "yrs"@ || unit == "year"@ || unit
        == "years"@ {
        31_557_600_000_000_000
    } else {
        0
    }
}

/// The part of a span in which a text stands.
#[derive(Clone, Copy, PartialEq, Eq, Structural, Debug)]
pub enum Part {
    Number,
    Fraction,
    Unit,
}

/// What the spans of a text come to so far: the sum of those that are over, and the one
/// that has begun.
pub struct SpansView {
    pub total: nat,
    pub number: nat,
    pub numerator: nat,
    pub denominator: nat,
    pub unit: Seq<char>,
    pub part: Part,
}

/// No span so far.
pub open spec fn no_spans() -> SpansView {
    SpansView {
        total: 0,
        number: 0,
        numerator: 0,
        denominator: 1,
        unit: Seq::empty(),
        part: Part::Number,
    }
}

/// The spans after the end of the one that has begun, where their sum can be held.
pub open spec fn span_over(s: SpansView) -> Option<SpansView> {
    let total = s.total + s.number * unit_ns(s.unit) + s.numerator * unit_ns(s.unit)
        / s.denominator;
    if total >= DURATION_LIMIT {
        None
    } else {
        Some(SpansView { total, ..no_spans() })
    }
}

/// Whether a character is a decimal digit.
pub open spec fn is_digit(c: char) -> bool {
    '0' <= c && c <= '9'
}

/// Whether a character can stand in the name of a unit.
pub open spec fn is_letter(c: char) -> bool {
    ('a' <= c && c <= 'z') || ('A' <= c && c <= 'Z') || c == 'µ'
}

/// The value of a decimal digit.
pub open spec fn digit_value(c: char) -> nat {
    (c as int - '0' as int) as nat
}

/// The spans after a digit of a number, where the number can be held.
pub open spec fn with_digit(s: SpansView, c: char) -> Option<SpansView> {
    let number = s.number * 10 + digit_value(c);
    if number > u64::MAX {
        None
    } else {
        Some(SpansView { number, ..s })
    }
}

/// The spans after a digit of a fraction, where the fraction can be held.
pub open spec fn with_decimal(s: SpansView, c: char) -> Option<SpansView> {
    if s.denominator * 10 > u64::MAX {
        None
    } else {
        Some(
            SpansView {
                numerator: s.numerator * 10 + digit_value(c),
                denominator: s.denominator * 10,
                ..s
            },
        )
    }
}

/// The spans after one more character.
pub open spec fn span_step(s: SpansView, c: char) -> Option<SpansView> {
    match s.part {
        Part::Number => if is_digit(c) {
            with_digit(s, c)
        } else if is_letter(c) {
            Some(SpansView { unit: seq![c], part: Part::Unit, ..s })
        } else if c == '.' {
            Some(SpansView { part: Part::Fraction, ..s })
        } else {
            Some(s)
        },
        Part::Fraction => if is_digit(c) {
            with_decimal(s, c)
        } else if is_letter(c) {
            Some(SpansView { unit: seq![c], part: Part::Unit, ..s })
        } else {
            Some(s)
        },
        Part::Unit => if is_letter(c) {
            Some(SpansView { unit: s.unit.push(c), ..s })
        } else {
            match span_over(s) {
                Some(o) => if is_digit(c) {
                    with_digit(o, c)
                } else {
                    Some(o)
                },
                None => None,
            }
        },
    }
}

/// The spans of a text.
pub open spec fn spans_in(text: Seq<char>) -> Option<SpansView>
    decreases text.len(),
{
    if text.len() == 0 {
        Some(no_spans())
    } else {
        match spans_in(text.drop_last()) {
            Some(s) => span_step(s, text.last()),
            None => None,
        }
    }
}

/// How long the spans of a text are in sum, in nanoseconds; none where that, or a number
/// among them, is more than a duration can hold.
pub open spec fn spans_ns(text: Seq<char>) -> Option<nat> {
    match spans_in(text) {
        Some(s) => if s.part is Unit {
            match span_over(s) {
                Some(o) => Some(o.total),
                None => None,
            }
        } else {
            Some(s.total)
        },
        None => None,
    }
}

proof fn lemma_spans_prefix(text: Seq<char>, n: int)
    requires
        0 <= n <= text.len(),
        spans_in(text.take(n)) is None,
    ensures
        spans_in(text) is None,
    decreases text.len(),
{
    if n < text.len() {
        assert(text.drop_last().take(n) =~= text.take(n));
        lemma_spans_prefix(text.drop_last(), n);
    } else {
        assert(text.take(n) =~= text);
    }
}

/// What the spans of a text come to so far.
#[derive(Debug)]
struct Spans {
    total: u128,
    number: u64,
    numerator: u64,
    denominator: u64,
    unit: Vec<char>,
    part: Part,
}

impl View for Spans {
    type V = SpansView;

    closed spec fn view(&self) -> SpansView {
        SpansView {
            total: self.total as nat,
            number: self.number as nat,
            numerator: self.numerator as nat,
            denominator: self.denominator as nat,
            unit: self.unit@,
            part: self.part,
        }
    }
}

fn is_word(v: &Vec<char>, word: &str) -> (r: bool)
    ensures
        r == (v@ == word@),
{
    let cs = chars_of(word);
    if cs.len() != v.len() {
        return false;
    }
    let mut i: usize = 0;
    while i < v.len()
        invariant
            cs@ == word@,
            cs@.len() == v@.len(),
            i <= v@.len(),
            forall|j: int| 0 <= j < i ==> v@[j] == cs@[j],
        decreases v@.len() - i,
    {
        if v[i] != cs[i] {
            return false;
        }
        i += 1;
    }
    proof {
        assert(v@ =~= word@);
    }
    true
}

fn unit_length(unit: &Vec<char>) -> (r: u128)
    ensures
        r == unit_ns(unit@),
        r <= 31_557_600_000_000_000,
{
    if is_word(unit, "ns") || is_word(unit, "nsec") || is_word(unit, "nanos") {
        1
    } else if is_word(unit, "us") || is_word(unit, "usec") || is_word(unit, "µs") {
        1_000
    } else if is_word(unit, "ms") || is_word(unit, "msec") || is_word(unit, "millis") {
        1_000_000
    } else if is_word(unit, "s") || is_word(unit, "sec") || is_word(unit, "secs")
        || is_word(unit, "second") || is_word(unit, "seconds") {
        1_000_000_000
    } else if is_word(unit, "m") || is_word(unit, "min") || is_word(unit, "mins")
        || is_word(unit, "minute") || is_word(unit, "minutes") {
        60_000_000_000
    } else if is_word(unit, "h") || is_word(unit, "hr") || is_word(unit, "hrs")
        || is_word(unit, "hour") || is_word(unit, "hours") {
        3_600_000_000_000
    } else if is_word(unit, "d") || is_word(unit, "day") || is_word(unit, "days") {
        86_400_000_000_000
    } else if is_word(unit, "w") || is_word(unit, "wk") || is_word(unit, "wks")
        || is_word(unit, "week") || is_word(unit, "weeks") {
        604_800_000_000_000
    } else if is_word(unit, "M") || is_word(unit, "month") || is_word(unit, "months") {
        2_630_016_000_000_000
    } else if is_word(unit, "y") || is_word(unit, "yr") || is_word(unit, "yrs")
        || is_word(unit, "year") || is_word(unit, "years") {
        31_557_600_000_000_000
    } else {
        0
    }
}

impl Spans {
    spec fn wf(&self) -> bool {
        self.total < DURATION_LIMIT && self.numerator < self.denominator
    }

    fn new() -> (r: Self)
        ensures
            r.wf(),
            r@ == no_spans(),
    {
        let r = Spans {
            total: 0,
            number: 0,
            numerator: 0,
            denominator: 1,
            unit: Vec::new(),
            part: Part::Number,
        };
        proof {
            assert(r.unit@ =~= Seq::empty());
        }
        r
    }

    fn over(&self) -> (r: Option<Spans>)
        requires
            self.wf(),
        ensures
            match r {
                Some(s) => s.wf() && span_over(self@) == Some(s@),
                None => span_over(self@) is None,
            },
    {
        let length: u128 = unit_length(&self.unit);
        let n: u128 = self.number as u128;
        let f: u128 = self.numerator as u128;
        let d: u128 = self.denominator as u128;
        assert(n * length <= 18_446_744_073_709_551_615 * 31_557_600_000_000_000)
            by (nonlinear_arith)
            requires
                n <= 18_446_744_073_709_551_615,
                length <= 31_557_600_000_000_000,
        ;
        assert(f * length <= 18_446_744_073_709_551_615 * 31_557_600_000_000_000)
            by (nonlinear_arith)
            requires
                f <= 18_446_744_073_709_551_615,
                length <= 31_557_600_000_000_000,
        ;
        assert((f * length) / (d as int) <= f * length) by (nonlinear_arith)
            requires
                d >= 1,
                f * length >= 0,
        ;
        let total: u128 = self.total + n * length + f * length / d;
        if total >= DURATION_LIMIT {
            return None;
        }
        let mut s = Spans::new();
        s.total = total;
        Some(s)
    }

    fn digit(self, c: char) -> (r: Option<Spans>)
        requires
            self.wf(),
            is_digit(c),
        ensures
            match r {
                Some(s) => s.wf() && with_digit(self@, c) == Some(s@),
                None => with_digit(self@, c) is None,
            },
    {
        let number: u128 = self.number as u128 * 10 + (c as u128 - '0' as u128);
        if number > u64::MAX as u128 {
            return None;
        }
        Some(Spans { number: number as u64, ..self })
    }

    fn step(self, c: char) -> (r: Option<Spans>)
        requires
            self.wf(),
        ensures
            match r {
                Some(s) => s.wf() && span_step(self@, c) == Some(s@),
                None => span_step(self@, c) is None,
            },
    {
        let digit = '0' <= c && c <= '9';
        let letter = ('a' <= c && c <= 'z') || ('A' <= c && c <= 'Z') || c == 'µ';
        match self.part {
            Part::Number => {
                if digit {
                    self.digit(c)
                } else if letter {
                    Some(self.begin_unit(c))
                } else if c == '.' {
                    Some(Spans { part: Part::Fraction, ..self })
                } else {
                    Some(self)
                }
            },
            Part::Fraction => {
                if digit {
                    let denominator: u128 = self.denominator as u128 * 10;
                    if denominator > u64::MAX as u128 {
                        return None;
                    }
                    let numerator: u128 = self.numerator as u128 * 10 + (c as u128 - '0' as u128);
                    Some(
                        Spans {
                            numerator: numerator as u64,
                            denominator: denominator as u64,
                            ..self
                        },
                    )
                } else if letter {
                    Some(self.begin_unit(c))
                } else {
                    Some(self)
                }
            },
            Part::Unit => {
                if letter {
                    let mut s = self;
                    s.unit.push(c);
                    Some(s)
                } else {
                    match self.over() {
                        Some(o) => if digit {
                            o.digit(c)
                        } else {
                            Some(o)
                        },
                        None => None,
                    }
                }
            },
        }
    }

    fn begin_unit(self, c: char) -> (r: Spans)
        requires
            self.wf(),
        ensures
            r.wf(),
            r@ == (SpansView { unit: seq![c], part: Part::Unit, ..self@ }),
    {
        let mut unit: Vec<char> = Vec::new();
        unit.push(c);
        proof {
            assert(unit@ =~= seq![c]);
        }
        Spans { unit, part: Part::Unit, ..self }
    }
}

/// Whether a duration can hold the spans of a text.
pub fn spans_fit(text: &str) -> (r: bool)
    ensures
        r == (spans_ns(text@) is Some),
{
    let cs = chars_of(text);
    let mut s = Spans::new();
    let mut i: usize = 0;
    proof {
        assert(text@.take(0) =~= Seq::empty());
    }
    while i < cs.len()
        invariant
            cs@ == text@,
            i <= cs@.len(),
            s.wf(),
            spans_in(text@.take(i as int)) == Some(s@),
        decreases cs@.len() - i,
    {
        proof {
            assert(text@.take(i + 1).drop_last() =~= text@.take(i as int));
            assert(text@.take(i + 1).last() == cs@[i as int]);
        }
        match s.step(cs[i]) {
            Some(n) => {
                s = n;
            },
            None => {
                proof {
                    lemma_spans_prefix(text@, i + 1);
                }
                return false;
            },
        }
        i += 1;
    }
    proof {
        assert(text@.take(i as int) =~= text@);
    }
    match s.part {
        Part::Unit => s.over().is_some(),
        _ => true,
    }
}

} // verus!
