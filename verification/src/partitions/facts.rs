//! What the host knows of keys when mappings are applied: the present moment, what
//! keys read as, and where keys lie when they are shifted along their grid.
use vstd::prelude::*;
use vstd::string::*;
use crate::errors::{Fault, FaultKind, FaultView};
use crate::moment::Moment;
use crate::partitions::definition::{DefView, PartitionsDefinition};
use crate::partitions::grid::{opt_interval, same_opt_text, GridView, Interval, TimeGrid};
use crate::partitions::readings::Readings;
use crate::text::same_text;

verus! {

/// The key that lies `offset` windows from a key of a grid, or why there is none.
#[derive(Debug)]
pub struct Shift {
    pub grid: TimeGrid,
    pub key: String,
    pub offset: i64,
    pub to: Result<String, String>,
}

/// The shifts that an operation meets: those that the `shifts_to_make` of the mapping
/// lists. A shift that is not listed counts as one that fails.
#[derive(Debug)]
pub struct Shifts {
    pub entries: Vec<Shift>,
}

/// What a shift says.
pub open spec fn shift_view(s: Shift) -> Result<Seq<char>, Seq<char>> {
    match s.to {
        Ok(k) => Ok(k@),
        Err(e) => Err(e@),
    }
}

/// Whether a shift is that of a key by an offset on a grid.
pub open spec fn shift_is(s: Shift, g: GridView, key: Seq<char>, offset: i64) -> bool {
    s.grid@ == g && s.key@ == key && s.offset == offset
}

/// The first shift of a key by an offset on a grid in a list.
pub open spec fn shift_in(s: Seq<Shift>, g: GridView, key: Seq<char>, offset: i64) -> Result<
    Seq<char>,
    Seq<char>,
>
    decreases s.len(),
{
    if s.len() == 0 {
        Err(Seq::empty())
    } else if shift_is(s[0], g, key, offset) {
        shift_view(s[0])
    } else {
        shift_in(s.drop_first(), g, key, offset)
    }
}

proof fn lemma_shift_in(s: Seq<Shift>, g: GridView, key: Seq<char>, offset: i64, n: int)
    requires
        0 <= n <= s.len(),
        forall|i: int| 0 <= i < n ==> !shift_is(#[trigger] s[i], g, key, offset),
        n < s.len() ==> shift_is(s[n], g, key, offset),
    ensures
        shift_in(s, g, key, offset) == if n < s.len() {
            shift_view(s[n])
        } else {
            Err::<Seq<char>, Seq<char>>(Seq::empty())
        },
    decreases n,
{
    if n > 0 {
        assert(!shift_is(s[0], g, key, offset));
        assert forall|i: int| 0 <= i < n - 1 implies !shift_is(
            #[trigger] s.drop_first()[i],
            g,
            key,
            offset,
        ) by {
            assert(!shift_is(s[i + 1], g, key, offset));
        }
        lemma_shift_in(s.drop_first(), g, key, offset, n - 1);
    }
}

/// Whether two optional intervals are written alike.
fn same_opt_interval(a: &Option<Interval>, b: &Option<Interval>) -> (r: bool)
    ensures
        r == (opt_interval(*a) == opt_interval(*b)),
{
    match (a, b) {
        (Some(x), Some(y)) => x.ns == y.ns && x.finite == y.finite && same_text(
            x.text.as_str(),
            y.text.as_str(),
        ),
        (None, None) => true,
        _ => false,
    }
}

/// Whether two grids are written alike.
fn same_grid(a: &TimeGrid, b: &TimeGrid) -> (r: bool)
    ensures
        r == (a@ == b@),
{
    let ends = match (a.end, b.end) {
        (Some(x), Some(y)) => x.total() == y.total(),
        (None, None) => true,
        _ => false,
    };
    ends && a.start.total() == b.start.total() && same_opt_text(
        &a.cron_schedule,
        &b.cron_schedule,
    ) && same_opt_interval(&a.interval_seconds, &b.interval_seconds) && same_text(
        a.fmt.as_str(),
        b.fmt.as_str(),
    )
}

impl Shifts {
    /// Where a key lies when it is shifted along a grid.
    pub open spec fn of(&self, g: GridView, key: Seq<char>, offset: i64) -> Result<
        Seq<char>,
        Seq<char>,
    > {
        shift_in(self.entries@, g, key, offset)
    }

    pub fn new() -> (r: Self)
        ensures
            r.entries@.len() == 0,
    {
        Shifts { entries: Vec::new() }
    }

    /// Where a key lies when it is shifted along a grid.
    pub fn shift(&self, grid: &TimeGrid, key: &str, offset: i64) -> (r: Result<String, String>)
        ensures
            match r {
                Ok(k) => self.of(grid@, key@, offset) == Ok::<Seq<char>, Seq<char>>(k@),
                Err(e) => self.of(grid@, key@, offset) == Err::<Seq<char>, Seq<char>>(e@),
            },
    {
        let mut i: usize = 0;
        while i < self.entries.len()
            invariant
                i <= self.entries@.len(),
                forall|j: int|
                    0 <= j < i ==> !shift_is(#[trigger] self.entries@[j], grid@, key@, offset),
            decreases self.entries@.len() - i,
        {
            if self.entries[i].offset == offset && same_text(self.entries[i].key.as_str(), key)
                && same_grid(&self.entries[i].grid, grid) {
                proof {
                    lemma_shift_in(self.entries@, grid@, key@, offset, i as int);
                }
                return match &self.entries[i].to {
                    Ok(k) => Ok(k.clone()),
                    Err(e) => Err(e.clone()),
                };
            }
            i += 1;
        }
        proof {
            lemma_shift_in(self.entries@, grid@, key@, offset, i as int);
        }
        Err(String::new())
    }
}

/// What the host knows of keys.
#[derive(Debug)]
pub struct KeyFacts {
    /// The present moment, at which open time grids end.
    pub now: Moment,
    pub readings: Readings,
    pub shifts: Shifts,
}

impl KeyFacts {
    pub open spec fn wf(&self) -> bool {
        self.now.wf() && self.readings.wf()
    }
}

/// The key of a time scheme that lies `offset` windows from a key.
pub open spec fn shifted_key(d: DefView, key: Seq<char>, offset: i64, shifts: Shifts) -> Result<
    Seq<char>,
    FaultView,
> {
    match d {
        DefView::TimeWindow(g) => match shifts.of(g, key, offset) {
            Ok(k) => Ok(k),
            Err(e) => Err((FaultKind::Definition, e)),
        },
        _ => Err(
            (
                FaultKind::Definition,
                "time_window mapping requires a TimeWindow partition definition"@,
            ),
        ),
    }
}

impl PartitionsDefinition {
    /// Shift a TimeWindow key by `offset` windows (negative = earlier).
    pub fn shift_time_key(&self, key: &str, offset: i64, shifts: &Shifts) -> (r: Result<
        String,
        Fault,
    >)
        ensures
            match r {
                Ok(k) => shifted_key(self@, key@, offset, *shifts) == Ok::<
                    Seq<char>,
                    FaultView,
                >(k@),
                Err(e) => shifted_key(self@, key@, offset, *shifts) == Err::<
                    Seq<char>,
                    FaultView,
                >(e@),
            },
    {
        match self {
            PartitionsDefinition::TimeWindow { grid } => match shifts.shift(grid, key, offset) {
                Ok(k) => Ok(k),
                Err(e) => Err(Fault::definition(e)),
            },
            _ => Err(
                Fault::definition(
                    "time_window mapping requires a TimeWindow partition definition".to_owned(),
                ),
            ),
        }
    }
}

} // verus!
