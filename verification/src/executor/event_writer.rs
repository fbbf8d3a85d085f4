//! How records are batched on their way to the store.
use vstd::prelude::*;

verus! {

/// How many records make a batch.
pub const BATCH_SIZE: usize = 64;

/// How long a batch waits at most, in milliseconds.
pub const FLUSH_INTERVAL_MS: u64 = 200;

/// The queue depth at which a warning is due. It is due again once the depth has
/// fallen under half of it.
pub const HIGH_WATER_MARK: usize = 256;

/// What reaches the writer: a record or a log row, each by its number.
#[derive(Clone, Copy, PartialEq, Eq, Structural, Debug)]
pub enum WriterMsg {
    Event(u64),
    Log(u64),
    /// The senders are gone.
    Closed,
    /// The timer has ticked, with this many messages waiting.
    Tick(usize),
}

/// What is written to the store, in order.
#[derive(Debug)]
pub enum Flush {
    Events(Vec<u64>),
    Logs(Vec<u64>),
}

/// What a flush writes.
pub enum FlushView {
    Events(Seq<u64>),
    Logs(Seq<u64>),
}

impl View for Flush {
    type V = FlushView;

    open spec fn view(&self) -> FlushView {
        match *self {
            Flush::Events(v) => FlushView::Events(v@),
            Flush::Logs(v) => FlushView::Logs(v@),
        }
    }
}

/// What each flush of a list writes.
pub open spec fn flushes_view(s: Seq<Flush>) -> Seq<FlushView> {
    s.map_values(|f: Flush| f@)
}

/// The writer: what waits for its batch, and whether the queue was seen to be long.
#[derive(Debug)]
pub struct BatchWriter {
    pub events: Vec<u64>,
    pub logs: Vec<u64>,
    pub above_high_water: bool,
    pub closed: bool,
}

/// A flush of records, where there are any.
pub open spec fn events_flush(v: Seq<u64>) -> Seq<FlushView> {
    if v.len() == 0 {
        Seq::empty()
    } else {
        seq![FlushView::Events(v)]
    }
}

/// A flush of log rows, where there are any.
pub open spec fn logs_flush(v: Seq<u64>) -> Seq<FlushView> {
    if v.len() == 0 {
        Seq::empty()
    } else {
        seq![FlushView::Logs(v)]
    }
}

/// The records that a list of flushes writes, in order.
pub open spec fn events_written(s: Seq<FlushView>) -> Seq<u64>
    decreases s.len(),
{
    if s.len() == 0 {
        Seq::empty()
    } else {
        match s.last() {
            FlushView::Events(v) => events_written(s.drop_last()) + v,
            FlushView::Logs(_) => events_written(s.drop_last()),
        }
    }
}

/// The log rows that a list of flushes writes, in order.
pub open spec fn logs_written(s: Seq<FlushView>) -> Seq<u64>
    decreases s.len(),
{
    if s.len() == 0 {
        Seq::empty()
    } else {
        match s.last() {
            FlushView::Logs(v) => logs_written(s.drop_last()) + v,
            FlushView::Events(_) => logs_written(s.drop_last()),
        }
    }
}

/// The record that a message carries.
pub open spec fn event_of(m: WriterMsg) -> Seq<u64> {
    match m {
        WriterMsg::Event(e) => seq![e],
        _ => Seq::empty(),
    }
}

/// The log row that a message carries.
pub open spec fn log_of(m: WriterMsg) -> Seq<u64> {
    match m {
        WriterMsg::Log(l) => seq![l],
        _ => Seq::empty(),
    }
}

/// What a message has the writer write.
pub open spec fn flushed(events: Seq<u64>, logs: Seq<u64>, m: WriterMsg) -> Seq<FlushView> {
    match m {
        WriterMsg::Event(e) => if events.len() + 1 >= BATCH_SIZE {
            events_flush(events.push(e))
        } else {
            Seq::empty()
        },
        WriterMsg::Log(l) => if logs.len() + 1 >= BATCH_SIZE {
            logs_flush(logs.push(l))
        } else {
            Seq::empty()
        },
        _ => events_flush(events) + logs_flush(logs),
    }
}

/// Nothing is lost, doubled or put out of order: what was waiting and what has come,
/// in that order, is what is written and what waits now.
pub open spec fn delivered(before: Seq<u64>, came: Seq<u64>, written: Seq<u64>, after: Seq<u64>) -> bool {
    before + came == written + after
}

/// The records that wait after a message.
pub open spec fn events_left(events: Seq<u64>, m: WriterMsg) -> Seq<u64> {
    match m {
        WriterMsg::Event(e) => if events.len() + 1 >= BATCH_SIZE {
            Seq::empty()
        } else {
            events.push(e)
        },
        WriterMsg::Log(_) => events,
        _ => Seq::empty(),
    }
}

/// The log rows that wait after a message.
pub open spec fn logs_left(logs: Seq<u64>, m: WriterMsg) -> Seq<u64> {
    match m {
        WriterMsg::Log(l) => if logs.len() + 1 >= BATCH_SIZE {
            Seq::empty()
        } else {
            logs.push(l)
        },
        WriterMsg::Event(_) => logs,
        _ => Seq::empty(),
    }
}

/// What waits in a new writer after some messages: records, and log rows.
pub open spec fn waiting(msgs: Seq<WriterMsg>) -> (Seq<u64>, Seq<u64>)
    decreases msgs.len(),
{
    if msgs.len() == 0 {
        (Seq::empty(), Seq::empty())
    } else {
        let w = waiting(msgs.drop_last());
        (events_left(w.0, msgs.last()), logs_left(w.1, msgs.last()))
    }
}

/// What a new writer has written after some messages: records, and log rows.
pub open spec fn written(msgs: Seq<WriterMsg>) -> (Seq<u64>, Seq<u64>)
    decreases msgs.len(),
{
    if msgs.len() == 0 {
        (Seq::empty(), Seq::empty())
    } else {
        let w = waiting(msgs.drop_last());
        let before = written(msgs.drop_last());
        let f = flushed(w.0, w.1, msgs.last());
        (before.0 + events_written(f), before.1 + logs_written(f))
    }
}

/// What some messages carry: records, and log rows.
pub open spec fn carried(msgs: Seq<WriterMsg>) -> (Seq<u64>, Seq<u64>)
    decreases msgs.len(),
{
    if msgs.len() == 0 {
        (Seq::empty(), Seq::empty())
    } else {
        let before = carried(msgs.drop_last());
        (before.0 + event_of(msgs.last()), before.1 + log_of(msgs.last()))
    }
}

/// No record or log row is lost: each is written once and in the order in which they
/// came, at the latest with the next tick or with the closing of the writer.
pub proof fn lemma_nothing_lost(msgs: Seq<WriterMsg>)
    ensures
        written(msgs).0 + waiting(msgs).0 == carried(msgs).0,
        written(msgs).1 + waiting(msgs).1 == carried(msgs).1,
        msgs.len() > 0 && (msgs.last() is Closed || msgs.last() is Tick) ==> written(msgs)
            == carried(msgs),
    decreases msgs.len(),
{
    if msgs.len() == 0 {
        assert(written(msgs).0 + waiting(msgs).0 =~= carried(msgs).0);
        assert(written(msgs).1 + waiting(msgs).1 =~= carried(msgs).1);
    } else {
        let m = msgs.last();
        let w = waiting(msgs.drop_last());
        let before = written(msgs.drop_last());
        let f = flushed(w.0, w.1, m);
        lemma_nothing_lost(msgs.drop_last());
        reveal_with_fuel(events_written, 4);
        reveal_with_fuel(logs_written, 4);
        assert(w.0 + event_of(m) =~= events_written(f) + waiting(msgs).0);
        assert(w.1 + log_of(m) =~= logs_written(f) + waiting(msgs).1);
        assert(before.0 + events_written(f) + waiting(msgs).0 =~= before.0 + (events_written(f)
            + waiting(msgs).0));
        assert(before.1 + logs_written(f) + waiting(msgs).1 =~= before.1 + (logs_written(f)
            + waiting(msgs).1));
        assert(before.0 + (w.0 + event_of(m)) =~= (before.0 + w.0) + event_of(m));
        assert(before.1 + (w.1 + log_of(m)) =~= (before.1 + w.1) + log_of(m));
        if m is Closed || m is Tick {
            assert(written(msgs).0 =~= carried(msgs).0);
            assert(written(msgs).1 =~= carried(msgs).1);
        }
    }
}

impl BatchWriter {
    /// A batch is written as soon as it is full, and nothing waits once the writer is
    /// closed.
    pub open spec fn wf(&self) -> bool {
        &&& self.events@.len() < BATCH_SIZE
        &&& self.logs@.len() < BATCH_SIZE
        &&& self.closed ==> self.events@.len() == 0 && self.logs@.len() == 0
    }

    pub fn new() -> (r: Self)
        ensures
            r.wf(),
            r.events@.len() == 0,
            r.logs@.len() == 0,
            !r.above_high_water,
            !r.closed,
    {
        BatchWriter {
            events: Vec::new(),
            logs: Vec::new(),
            above_high_water: false,
            closed: false,
        }
    }

    fn flush_batch(&mut self, out: &mut Vec<Flush>)
        ensures
            final(self).events@.len() == 0,
            final(self).logs == old(self).logs,
            final(self).above_high_water == old(self).above_high_water,
            final(self).closed == old(self).closed,
            flushes_view(final(out)@) == flushes_view(old(out)@) + events_flush(
                old(self).events@,
            ),
    {
        let ghost prev = flushes_view(out@);
        let ghost w = self.events@;
        if self.events.len() == 0 {
            proof {
                assert(prev + events_flush(w) =~= prev);
            }
            return;
        }
        let mut batch: Vec<u64> = Vec::new();
        batch.append(&mut self.events);
        proof {
            assert(batch@ =~= w);
        }
        out.push(Flush::Events(batch));
        proof {
            assert(flushes_view(out@) =~= prev + events_flush(w));
        }
    }

    fn flush_logs(&mut self, out: &mut Vec<Flush>)
        ensures
            final(self).logs@.len() == 0,
            final(self).events == old(self).events,
            final(self).above_high_water == old(self).above_high_water,
            final(self).closed == old(self).closed,
            flushes_view(final(out)@) == flushes_view(old(out)@) + logs_flush(old(self).logs@),
    {
        let ghost prev = flushes_view(out@);
        let ghost w = self.logs@;
        if self.logs.len() == 0 {
            proof {
                assert(prev + logs_flush(w) =~= prev);
            }
            return;
        }
        let mut batch: Vec<u64> = Vec::new();
        batch.append(&mut self.logs);
        proof {
            assert(batch@ =~= w);
        }
        out.push(Flush::Logs(batch));
        proof {
            assert(flushes_view(out@) =~= prev + logs_flush(w));
        }
    }

    /// Takes a message: what is to be written, and whether a warning is due. A full
    /// batch is written at once, everything on a tick and on closing.
    pub fn on_message(&mut self, m: WriterMsg) -> (r: (Vec<Flush>, bool))
        requires
            old(self).wf(),
            !old(self).closed,
        ensures
            final(self).wf(),
            final(self).closed == (m is Closed),
            final(self).events@ == events_left(old(self).events@, m),
            final(self).logs@ == logs_left(old(self).logs@, m),
            flushes_view(r.0@) == flushed(old(self).events@, old(self).logs@, m),
            delivered(
                old(self).events@,
                event_of(m),
                events_written(flushes_view(r.0@)),
                final(self).events@,
            ),
            delivered(
                old(self).logs@,
                log_of(m),
                logs_written(flushes_view(r.0@)),
                final(self).logs@,
            ),
            r.1 == (m matches WriterMsg::Tick(d) && d >= HIGH_WATER_MARK
                && !old(self).above_high_water),
            final(self).above_high_water == match m {
                WriterMsg::Tick(d) => if d >= HIGH_WATER_MARK {
                    true
                } else if d < HIGH_WATER_MARK / 2 {
                    false
                } else {
                    old(self).above_high_water
                },
                _ => old(self).above_high_water,
            },
    {
        let ghost e0 = self.events@;
        let ghost l0 = self.logs@;
        let mut out: Vec<Flush> = Vec::new();
        let mut warn = false;
        proof {
            assert(flushes_view(out@) =~= Seq::empty());
        }
        match m {
            WriterMsg::Event(e) => {
                self.events.push(e);
                if self.events.len() >= BATCH_SIZE {
                    self.flush_batch(&mut out);
                }
            },
            WriterMsg::Log(l) => {
                self.logs.push(l);
                if self.logs.len() >= BATCH_SIZE {
                    self.flush_logs(&mut out);
                }
            },
            WriterMsg::Closed => {
                self.flush_batch(&mut out);
                self.flush_logs(&mut out);
                self.closed = true;
            },
            WriterMsg::Tick(depth) => {
                self.flush_batch(&mut out);
                self.flush_logs(&mut out);
                if depth >= HIGH_WATER_MARK && !self.above_high_water {
                    warn = true;
                    self.above_high_water = true;
                } else if depth < HIGH_WATER_MARK / 2 && self.above_high_water {
                    self.above_high_water = false;
                }
            },
        }
        proof {
            let f = flushed(e0, l0, m);
            assert(flushes_view(out@) =~= f);
            reveal_with_fuel(events_written, 4);
            reveal_with_fuel(logs_written, 4);
            assert(self.events@ =~= events_left(e0, m));
            assert(self.logs@ =~= logs_left(l0, m));
            assert(e0 + event_of(m) =~= events_written(f) + self.events@);
            assert(l0 + log_of(m) =~= logs_written(f) + self.logs@);
        }
        (out, warn)
    }
}

} // verus!
