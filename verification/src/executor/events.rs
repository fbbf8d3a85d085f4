//! The records that steps leave behind.
use vstd::prelude::*;
use vstd::string::*;
use crate::partitions::grid::opt_text;
use crate::partitions::key::{KeyView, PyPartitionKey};
use crate::text::{copy_texts, texts};

verus! {

/// Why a step failed.
#[derive(Clone, Copy, PartialEq, Eq, Structural, Debug)]
pub enum FailureReason {
    Error,
    OutOfMemory,
    Timeout,
    Cancelled,
    Infrastructure,
}

/// The reason of a failure and the class names of its exception, derived first.
#[derive(Debug)]
pub struct Classified {
    pub reason: FailureReason,
    pub exc_types: Vec<String>,
}

/// What a classification says.
pub type ClassView = (FailureReason, Seq<Seq<char>>);

impl View for Classified {
    type V = ClassView;

    open spec fn view(&self) -> ClassView {
        (self.reason, texts(self.exc_types@))
    }
}

impl Classified {
    pub fn copy(&self) -> (r: Self)
        ensures
            r@ == self@,
    {
        Classified { reason: self.reason, exc_types: copy_texts(&self.exc_types) }
    }
}

/// What an optional classification says.
pub open spec fn opt_class(c: Option<Classified>) -> Option<ClassView> {
    match c {
        Some(x) => Some(x@),
        None => None,
    }
}

/// What happened.
#[derive(Debug)]
pub enum EventType {
    StepStart,
    StepSuccess,
    StepFailure { error: String, classified: Option<Classified> },
    /// A step is tried again. Where it runs in a pod, the resources of the next pod are
    /// noted.
    StepRetry {
        attempt: u32,
        reason: FailureReason,
        delay_ms: u64,
        next_compute: Option<String>,
    },
    LogOutput,
    Materialization { data_version: Option<String> },
    Observation { data_version: Option<String> },
    Deletion { action: String },
    ActionCompleted { action: String },
    StepSlotClaimed,
    StepSlotWaiting,
    StepSlotRenewed,
    StepSlotReleased,
}

/// What an event type says.
pub enum TypeView {
    StepStart,
    StepSuccess,
    StepFailure(Seq<char>, Option<ClassView>),
    StepRetry(u32, FailureReason, u64, Option<Seq<char>>),
    LogOutput,
    Materialization(Option<Seq<char>>),
    Observation(Option<Seq<char>>),
    Deletion(Seq<char>),
    ActionCompleted(Seq<char>),
    StepSlotClaimed,
    StepSlotWaiting,
    StepSlotRenewed,
    StepSlotReleased,
}

impl View for EventType {
    type V = TypeView;

    open spec fn view(&self) -> TypeView {
        match *self {
            EventType::StepStart => TypeView::StepStart,
            EventType::StepSuccess => TypeView::StepSuccess,
            EventType::StepFailure { error, classified } => TypeView::StepFailure(
                error@,
                opt_class(classified),
            ),
            EventType::StepRetry { attempt, reason, delay_ms, next_compute } => TypeView::StepRetry(
                attempt,
                reason,
                delay_ms,
                opt_text(next_compute),
            ),
            EventType::LogOutput => TypeView::LogOutput,
            EventType::Materialization { data_version } => TypeView::Materialization(
                opt_text(data_version),
            ),
            EventType::Observation { data_version } => TypeView::Observation(
                opt_text(data_version),
            ),
            EventType::Deletion { action } => TypeView::Deletion(action@),
            EventType::ActionCompleted { action } => TypeView::ActionCompleted(action@),
            EventType::StepSlotClaimed => TypeView::StepSlotClaimed,
            EventType::StepSlotWaiting => TypeView::StepSlotWaiting,
            EventType::StepSlotRenewed => TypeView::StepSlotRenewed,
            EventType::StepSlotReleased => TypeView::StepSlotReleased,
        }
    }
}

/// The texts of a list of pairs.
pub open spec fn pairs_view(v: Seq<(String, String)>) -> Seq<(Seq<char>, Seq<char>)> {
    v.map_values(|p: (String, String)| (p.0@, p.1@))
}

/// A copy of a list of pairs.
pub fn copy_pairs(v: &Vec<(String, String)>) -> (r: Vec<(String, String)>)
    ensures
        pairs_view(r@) == pairs_view(v@),
{
    let mut out: Vec<(String, String)> = Vec::new();
    let mut i: usize = 0;
    while i < v.len()
        invariant
            i <= v@.len(),
            out@.len() == i,
            forall|j: int|
                0 <= j < i ==> (#[trigger] out@[j]).0@ == v@[j].0@ && out@[j].1@ == v@[j].1@,
        decreases v@.len() - i,
    {
        out.push((v[i].0.clone(), v[i].1.clone()));
        i += 1;
    }
    proof {
        assert(pairs_view(out@) =~= pairs_view(v@));
    }
    out
}

/// Where a record comes from: a run, and the code location that it belongs to.
#[derive(Debug)]
pub struct Origin {
    pub code_location_id: String,
    pub run_id: String,
}

/// What an origin says.
pub struct OriginView {
    pub location: Seq<char>,
    pub run: Seq<char>,
}

impl View for Origin {
    type V = OriginView;

    open spec fn view(&self) -> OriginView {
        OriginView { location: self.code_location_id@, run: self.run_id@ }
    }
}

impl Origin {
    pub fn new(code_location_id: String, run_id: String) -> (r: Self)
        ensures
            r.code_location_id == code_location_id,
            r.run_id == run_id,
    {
        Origin { code_location_id, run_id }
    }
}

/// One record.
#[derive(Debug)]
pub struct EventRecord {
    pub code_location_id: String,
    pub event_type: EventType,
    pub asset_key: String,
    pub run_id: String,
    pub partition_key: Option<PyPartitionKey>,
    pub timestamp: i64,
    pub metadata: Vec<(String, String)>,
    pub input_data_versions: Vec<(String, String)>,
}

/// What a record says.
pub struct EventView {
    pub origin: OriginView,
    pub kind: TypeView,
    pub asset: Seq<char>,
    pub partition: Option<KeyView>,
    pub ts: i64,
    pub metadata: Seq<(Seq<char>, Seq<char>)>,
    pub inputs: Seq<(Seq<char>, Seq<char>)>,
}

/// What an optional key stands for.
pub open spec fn key_or_none(k: Option<PyPartitionKey>) -> Option<KeyView> {
    match k {
        Some(x) => Some(x@),
        None => None,
    }
}

impl View for EventRecord {
    type V = EventView;

    open spec fn view(&self) -> EventView {
        EventView {
            origin: OriginView { location: self.code_location_id@, run: self.run_id@ },
            kind: self.event_type@,
            asset: self.asset_key@,
            partition: key_or_none(self.partition_key),
            ts: self.timestamp,
            metadata: pairs_view(self.metadata@),
            inputs: pairs_view(self.input_data_versions@),
        }
    }
}

/// A record of a step without a partition, metadata or inputs.
pub open spec fn plain_event(
    kind: TypeView,
    origin: OriginView,
    step: Seq<char>,
    ts: i64,
) -> EventView {
    EventView {
        origin,
        kind,
        asset: step,
        partition: None,
        ts,
        metadata: Seq::empty(),
        inputs: Seq::empty(),
    }
}

/// A record of a step without a partition or inputs.
pub fn step_event(
    event_type: EventType,
    origin: &Origin,
    step_name: &str,
    metadata: Vec<(String, String)>,
    ts: i64,
) -> (r: EventRecord)
    ensures
        r@ == (EventView {
            metadata: pairs_view(metadata@),
            ..plain_event(event_type@, origin@, step_name@, ts)
        }),
{
    let r = EventRecord {
        code_location_id: origin.code_location_id.clone(),
        event_type,
        asset_key: step_name.to_owned(),
        run_id: origin.run_id.clone(),
        partition_key: None,
        timestamp: ts,
        metadata,
        input_data_versions: Vec::new(),
    };
    proof {
        assert(pairs_view(r.input_data_versions@) =~= Seq::empty());
    }
    r
}

/// A record of a step without a partition, metadata or inputs.
pub fn bare_event(event_type: EventType, origin: &Origin, step_name: &str, ts: i64) -> (r:
    EventRecord)
    ensures
        r@ == plain_event(event_type@, origin@, step_name@, ts),
{
    let none: Vec<(String, String)> = Vec::new();
    proof {
        assert(pairs_view(none@) =~= Seq::empty());
    }
    step_event(event_type, origin, step_name, none, ts)
}

/// What a step wrote to its streams: standard output, standard error and logs.
#[derive(Debug)]
pub struct CapturedLogs {
    pub stdout: String,
    pub stderr: String,
    pub logs: String,
}

/// What captured logs say.
pub type LogsView = (Seq<char>, Seq<char>, Seq<char>);

impl View for CapturedLogs {
    type V = LogsView;

    open spec fn view(&self) -> LogsView {
        (self.stdout@, self.stderr@, self.logs@)
    }
}

/// What optional logs say.
pub open spec fn opt_logs(l: Option<CapturedLogs>) -> Option<LogsView> {
    match l {
        Some(x) => Some(x@),
        None => None,
    }
}

/// A stream of captured logs, unless it is empty.
pub open spec fn stream_pair(name: Seq<char>, text: Seq<char>) -> Seq<(Seq<char>, Seq<char>)> {
    if text.len() == 0 {
        Seq::empty()
    } else {
        seq![(name, text)]
    }
}

/// The record of captured logs: none where every stream is empty, else one with the
/// streams that are not.
pub open spec fn log_event(logs: LogsView, origin: OriginView, step: Seq<char>, ts: i64) -> Option<
    EventView,
> {
    if logs.0.len() == 0 && logs.1.len() == 0 && logs.2.len() == 0 {
        None
    } else {
        Some(
            EventView {
                metadata: stream_pair("stdout"@, logs.0) + stream_pair("stderr"@, logs.1)
                    + stream_pair("logs"@, logs.2),
                ..plain_event(TypeView::LogOutput, origin, step, ts)
            },
        )
    }
}

/// The record of captured logs.
pub fn emit_log_output(logs: &CapturedLogs, origin: &Origin, step_name: &str, ts: i64) -> (r: Option<
    EventRecord,
>)
    ensures
        match r {
            Some(e) => log_event(logs@, origin@, step_name@, ts) == Some(e@),
            None => log_event(logs@, origin@, step_name@, ts) is None,
        },
{
    let out = logs.stdout.as_str();
    let err = logs.stderr.as_str();
    let log = logs.logs.as_str();
    if out.is_empty() && err.is_empty() && log.is_empty() {
        return None;
    }
    let mut metadata: Vec<(String, String)> = Vec::new();
    if !out.is_empty() {
        metadata.push(("stdout".to_owned(), out.to_owned()));
    }
    proof {
        assert(pairs_view(metadata@) =~= stream_pair("stdout"@, out@));
    }
    if !err.is_empty() {
        metadata.push(("stderr".to_owned(), err.to_owned()));
    }
    proof {
        assert(pairs_view(metadata@) =~= stream_pair("stdout"@, out@) + stream_pair(
            "stderr"@,
            err@,
        ));
    }
    if !log.is_empty() {
        metadata.push(("logs".to_owned(), log.to_owned()));
    }
    proof {
        assert(pairs_view(metadata@) =~= stream_pair("stdout"@, out@) + stream_pair(
            "stderr"@,
            err@,
        ) + stream_pair("logs"@, log@));
    }
    Some(step_event(EventType::LogOutput, origin, step_name, metadata, ts))
}

} // verus!
