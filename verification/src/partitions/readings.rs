//! What the texts of time-partition keys read as. How a key is read under a
//! format is the business of the host, which hands the readings in.
use vstd::prelude::*;
use crate::moment::Moment;
use crate::text::same_text;

verus! {

/// What a key reads as under a format: a moment, or why it cannot be read.
#[derive(Debug)]
pub struct Reading {
    pub key: String,
    pub fmt: String,
    pub at: Result<Moment, String>,
}

/// The readings of the keys that an operation meets: those that the `keys_to_read` of the
/// definition, the range or the mapping lists, and for a definition itself those of its
/// `probe_keys`. A key that is not listed counts as one that cannot be read.
#[derive(Debug)]
pub struct Readings {
    pub entries: Vec<Reading>,
}

/// What a reading says.
pub open spec fn reading_view(r: Reading) -> Result<int, Seq<char>> {
    match r.at {
        Ok(m) => Ok(m.at()),
        Err(e) => Err(e@),
    }
}

/// The first reading of a key under a format in a list.
pub open spec fn read_in(s: Seq<Reading>, key: Seq<char>, fmt: Seq<char>) -> Result<
    int,
    Seq<char>,
>
    decreases s.len(),
{
    if s.len() == 0 {
        Err(Seq::empty())
    } else if s[0].key@ == key && s[0].fmt@ == fmt {
        reading_view(s[0])
    } else {
        read_in(s.drop_first(), key, fmt)
    }
}

proof fn lemma_read_in(s: Seq<Reading>, key: Seq<char>, fmt: Seq<char>, n: int)
    requires
        0 <= n <= s.len(),
        forall|i: int| 0 <= i < n ==> !((#[trigger] s[i]).key@ == key && s[i].fmt@ == fmt),
        n < s.len() ==> s[n].key@ == key && s[n].fmt@ == fmt,
    ensures
        read_in(s, key, fmt) == if n < s.len() {
            reading_view(s[n])
        } else {
            Err::<int, Seq<char>>(Seq::empty())
        },
    decreases n,
{
    if n > 0 {
        assert(!(s[0].key@ == key && s[0].fmt@ == fmt));
        assert forall|i: int| 0 <= i < n - 1 implies !((#[trigger] s.drop_first()[i]).key@ == key
            && s.drop_first()[i].fmt@ == fmt) by {
            assert(!(s[i + 1].key@ == key && s[i + 1].fmt@ == fmt));
        }
        lemma_read_in(s.drop_first(), key, fmt, n - 1);
    }
}

impl Readings {
    /// Every key that can be read reads as a moment of the calendar.
    pub open spec fn wf(&self) -> bool {
        forall|i: int|
            0 <= i < self.entries@.len() ==> ((#[trigger] self.entries@[i]).at matches Ok(m)
                ==> m.wf())
    }

    /// What a key reads as under a format.
    pub open spec fn of(&self, key: Seq<char>, fmt: Seq<char>) -> Result<int, Seq<char>> {
        read_in(self.entries@, key, fmt)
    }

    pub fn new() -> (r: Self)
        ensures
            r.wf(),
            r.entries@.len() == 0,
    {
        Readings { entries: Vec::new() }
    }

    /// Adds the reading of a key under a format.
    pub fn note(&mut self, key: String, fmt: String, at: Result<Moment, String>)
        requires
            old(self).wf(),
            at matches Ok(m) ==> m.wf(),
        ensures
            final(self).wf(),
            final(self).entries@ == old(self).entries@.push(Reading { key, fmt, at }),
    {
        self.entries.push(Reading { key, fmt, at });
    }

    /// What a key reads as under a format.
    pub fn read(&self, key: &str, fmt: &str) -> (r: Result<Moment, String>)
        requires
            self.wf(),
        ensures
            match r {
                Ok(m) => m.wf() && self.of(key@, fmt@) == Ok::<int, Seq<char>>(m.at()),
                Err(e) => self.of(key@, fmt@) == Err::<int, Seq<char>>(e@),
            },
    {
        let mut i: usize = 0;
        while i < self.entries.len()
            invariant
                self.wf(),
                i <= self.entries@.len(),
                forall|j: int|
                    0 <= j < i ==> !((#[trigger] self.entries@[j]).key@ == key@
                        && self.entries@[j].fmt@ == fmt@),
            decreases self.entries@.len() - i,
        {
            if same_text(self.entries[i].key.as_str(), key) && same_text(
                self.entries[i].fmt.as_str(),
                fmt,
            ) {
                proof {
                    lemma_read_in(self.entries@, key@, fmt@, i as int);
                }
                return match &self.entries[i].at {
                    Ok(m) => Ok(*m),
                    Err(e) => Err(e.clone()),
                };
            }
            i += 1;
        }
        proof {
            lemma_read_in(self.entries@, key@, fmt@, i as int);
        }
        Err(String::new())
    }
}

} // verus!
