//! Typed metadata entries of materialization events.
use vstd::prelude::*;
use vstd::string::*;
use crate::errors::{Fault, FaultKind, FaultView};
use crate::moment::Moment;
use crate::partitions::grid::{opt_text, same_opt_text};
use crate::text::{
    decimal, decimal_text, join_texts, joined, quoted, quoted_text, same_text, say3, say5,
    signed_decimal, signed_decimal_text, texts,
};

verus! {

/// A floating-point number: its bit pattern, and how it reads.
#[derive(Debug)]
pub struct Real {
    pub bits: u64,
    pub text: String,
}

/// The bits of a number without its sign.
pub open spec fn magnitude(bits: u64) -> int {
    bits as int % 0x8000_0000_0000_0000
}

/// Whether a bit pattern stands for no number.
pub open spec fn is_nan(bits: u64) -> bool {
    magnitude(bits) > 0x7ff0_0000_0000_0000
}

/// Whether two bit patterns stand for the same number. Both zeros do; what is no
/// number is not even the same as itself.
pub open spec fn same_number(a: u64, b: u64) -> bool {
    !is_nan(a) && !is_nan(b) && (a == b || (magnitude(a) == 0 && magnitude(b) == 0))
}

fn equal_bits(a: u64, b: u64) -> (r: bool)
    ensures
        r == same_number(a, b),
{
    let x: u64 = a % 0x8000_0000_0000_0000;
    let y: u64 = b % 0x8000_0000_0000_0000;
    x <= 0x7ff0_0000_0000_0000 && y <= 0x7ff0_0000_0000_0000 && (a == b || (x == 0 && y == 0))
}

/// A metadata value.
#[allow(inconsistent_fields)]
#[derive(Debug)]
pub enum MetadataValue {
    /// Free-form text.
    Text { value: String },
    /// Integer value.
    Int { value: i64 },
    /// Floating-point value.
    Float { value: Real },
    /// Boolean value.
    Bool { value: bool },
    /// Validated URL.
    Url { value: String },
    /// Filesystem or object-store path.
    Path { value: String },
    /// Serialized JSON string.
    Json { value: String },
    /// Markdown-formatted content.
    Markdown { value: String },
    /// Unix epoch timestamp in seconds.
    Timestamp { value: Real },
    /// Explicit null.
    Null,
    /// Binary data size in bytes.
    Bytes { value: u64 },
    /// Time duration in seconds.
    Duration { value: Real },
    /// SQL query with optional dialect hint.
    Sql { query: String, dialect: Option<String> },
    /// Code snippet with optional language hint.
    CodeBlock { code: String, language: Option<String> },
    /// Image data (base64, URL, or path).
    Image { value: String },
    /// Percentage value (rendered as %).
    Percentage { value: Real },
    /// List of metadata values.
    List { values: Vec<MetadataValue> },
    /// Date range with start and end datetimes.
    DateRange { start: Moment, end: Moment },
    /// Arrow schema: its serialized bytes, and the name and type of each field
    /// where the bytes can be read.
    Schema { ipc_bytes: Vec<u8>, fields: Option<Vec<(String, String)>> },
    /// Data version identifier for an asset materialization or observation.
    DataVersion { value: String },
}

/// Every moment in a value is one of the calendar.
pub open spec fn value_wf(v: MetadataValue) -> bool
    decreases v,
{
    match v {
        MetadataValue::List { values } => values_wf(values@),
        MetadataValue::DateRange { start, end } => start.wf() && end.wf(),
        _ => true,
    }
}

/// Every value of a list is well formed.
pub open spec fn values_wf(s: Seq<MetadataValue>) -> bool
    decreases s,
{
    s.len() == 0 || (values_wf(s.drop_last()) && value_wf(s.last()))
}

proof fn lemma_values_wf(s: Seq<MetadataValue>, i: int)
    requires
        values_wf(s),
        0 <= i < s.len(),
    ensures
        value_wf(s[i]),
    decreases s.len(),
{
    if i < s.len() - 1 {
        lemma_values_wf(s.drop_last(), i);
    }
}

/// A value of a list is smaller than the list.
pub proof fn lemma_value_decreases(v: MetadataValue, i: int)
    requires
        v is List,
        0 <= i < v->values@.len(),
    ensures
        decreases_to!(v => v->values@[i]),
{
    let s = v->values;
    assert(decreases_to!(v => s));
    assert(decreases_to!(s => s@));
    assert(decreases_to!(s@ => s@[i]));
}

/// Whether two values are equal.
pub open spec fn values_equal(a: MetadataValue, b: MetadataValue) -> bool
    decreases a,
{
    match (a, b) {
        (MetadataValue::Text { value: x }, MetadataValue::Text { value: y }) => x@ == y@,
        (MetadataValue::Int { value: x }, MetadataValue::Int { value: y }) => x == y,
        (MetadataValue::Float { value: x }, MetadataValue::Float { value: y }) => same_number(
            x.bits,
            y.bits,
        ),
        (MetadataValue::Bool { value: x }, MetadataValue::Bool { value: y }) => x == y,
        (MetadataValue::Url { value: x }, MetadataValue::Url { value: y }) => x@ == y@,
        (MetadataValue::Path { value: x }, MetadataValue::Path { value: y }) => x@ == y@,
        (MetadataValue::Json { value: x }, MetadataValue::Json { value: y }) => x@ == y@,
        (MetadataValue::Markdown { value: x }, MetadataValue::Markdown { value: y }) => x@ == y@,
        (
            MetadataValue::Timestamp { value: x },
            MetadataValue::Timestamp { value: y },
        ) => same_number(x.bits, y.bits),
        (MetadataValue::Null, MetadataValue::Null) => true,
        (MetadataValue::Bytes { value: x }, MetadataValue::Bytes { value: y }) => x == y,
        (
            MetadataValue::Duration { value: x },
            MetadataValue::Duration { value: y },
        ) => same_number(x.bits, y.bits),
        (
            MetadataValue::Sql { query: x, dialect: d },
            MetadataValue::Sql { query: y, dialect: e },
        ) => x@ == y@ && opt_text(d) == opt_text(e),
        (
            MetadataValue::CodeBlock { code: x, language: d },
            MetadataValue::CodeBlock { code: y, language: e },
        ) => x@ == y@ && opt_text(d) == opt_text(e),
        (MetadataValue::Image { value: x }, MetadataValue::Image { value: y }) => x@ == y@,
        (
            MetadataValue::Percentage { value: x },
            MetadataValue::Percentage { value: y },
        ) => same_number(x.bits, y.bits),
        (MetadataValue::List { values: x }, MetadataValue::List { values: y }) => x@.len()
            == y@.len() && lists_equal(x@, y@),
        (
            MetadataValue::DateRange { start: x, end: d },
            MetadataValue::DateRange { start: y, end: e },
        ) => x.at() == y.at() && d.at() == e.at(),
        (
            MetadataValue::Schema { ipc_bytes: x, .. },
            MetadataValue::Schema { ipc_bytes: y, .. },
        ) => x@ == y@,
        (
            MetadataValue::DataVersion { value: x },
            MetadataValue::DataVersion { value: y },
        ) => x@ == y@,
        _ => false,
    }
}

/// Whether the values of two lists are equal one by one, as far as both go.
pub open spec fn lists_equal(a: Seq<MetadataValue>, b: Seq<MetadataValue>) -> bool
    decreases a,
{
    a.len() == 0 || (b.len() >= a.len() && lists_equal(a.drop_last(), b) && values_equal(
        a.last(),
        b[a.len() - 1],
    ))
}

proof fn lemma_lists_prefix(a: Seq<MetadataValue>, b: Seq<MetadataValue>, n: int)
    requires
        0 <= n <= a.len(),
        !lists_equal(a.take(n), b),
    ensures
        !lists_equal(a, b),
    decreases a.len(),
{
    if n < a.len() {
        assert(a.drop_last().take(n) =~= a.take(n));
        lemma_lists_prefix(a.drop_last(), b, n);
    } else {
        assert(a.take(n) =~= a);
    }
}

/// The year of a moment.
pub uninterp spec fn civil_year(at: int) -> int;

/// The month of a moment, from 1.
pub uninterp spec fn civil_month(at: int) -> int;

/// The day of the month of a moment, from 1.
pub uninterp spec fn civil_day(at: int) -> int;

/// The year that `chrono::Datelike::year` gives for a moment. How the calendar
/// counts years is not stated.
#[verifier::external_body]
fn chrono_year(t: Moment) -> (r: i64)
    requires
        t.wf(),
    ensures
        r == civil_year(t.at()),
{
    let d = chrono::DateTime::from_timestamp(t.secs, t.nanos).unwrap_or_default();
    chrono::Datelike::year(&d) as i64
}

/// The month that `chrono::Datelike::month` gives for a moment. How the calendar
/// counts months is not stated.
#[verifier::external_body]
fn chrono_month(t: Moment) -> (r: i64)
    requires
        t.wf(),
    ensures
        r == civil_month(t.at()),
{
    let d = chrono::DateTime::from_timestamp(t.secs, t.nanos).unwrap_or_default();
    chrono::Datelike::month(&d) as i64
}

/// The day that `chrono::Datelike::day` gives for a moment. How the calendar counts
/// days is not stated.
#[verifier::external_body]
fn chrono_day(t: Moment) -> (r: i64)
    requires
        t.wf(),
    ensures
        r == civil_day(t.at()),
{
    let d = chrono::DateTime::from_timestamp(t.secs, t.nanos).unwrap_or_default();
    chrono::Datelike::day(&d) as i64
}

/// The second of the day of a moment.
pub open spec fn second_of_day(t: Moment) -> int {
    t.secs as int % 86400
}

/// The numbers of a datetime: date, time, and microseconds unless they are zero.
pub open spec fn datetime_parts(t: Moment) -> Seq<Seq<char>> {
    let day = second_of_day(t);
    let base = seq![
        signed_decimal(civil_year(t.at())),
        signed_decimal(civil_month(t.at())),
        signed_decimal(civil_day(t.at())),
        signed_decimal(day / 3600),
        signed_decimal(day / 60 % 60),
        signed_decimal(day % 60),
    ];
    if t.nanos as int / 1000 == 0 {
        base
    } else {
        base.push(signed_decimal(t.nanos as int / 1000))
    }
}

/// The form of a datetime.
pub open spec fn datetime_form(t: Moment) -> Seq<char> {
    "datetime.datetime("@ + joined(datetime_parts(t), ", "@) + ")"@
}

fn fmt_naive_datetime(dt: Moment) -> (r: String)
    requires
        dt.wf(),
    ensures
        r@ == datetime_form(dt),
{
    let whole: i64 = if dt.secs >= 0 {
        dt.secs % 86400
    } else {
        let below: i64 = -dt.secs;
        let rest: i64 = below % 86400;
        if rest == 0 {
            0
        } else {
            86400 - rest
        }
    };
    proof {
        if dt.secs < 0 {
            let b = -(dt.secs as int);
            vstd::arithmetic::div_mod::lemma_fundamental_div_mod(b, 86400);
            let q = b / 86400;
            let m = b % 86400;
            if m == 0 {
                vstd::arithmetic::div_mod::lemma_fundamental_div_mod_converse(
                    dt.secs as int,
                    86400,
                    -q,
                    0,
                );
            } else {
                vstd::arithmetic::div_mod::lemma_fundamental_div_mod_converse(
                    dt.secs as int,
                    86400,
                    -q - 1,
                    86400 - m,
                );
            }
        }
        assert(whole == second_of_day(dt));
    }
    let micro: u32 = dt.nanos / 1000;
    let mut parts: Vec<String> = Vec::new();
    parts.push(signed_decimal_text(chrono_year(dt)));
    parts.push(signed_decimal_text(chrono_month(dt)));
    parts.push(signed_decimal_text(chrono_day(dt)));
    parts.push(signed_decimal_text(whole / 3600));
    parts.push(signed_decimal_text(whole / 60 % 60));
    parts.push(signed_decimal_text(whole % 60));
    if micro != 0 {
        parts.push(signed_decimal_text(micro as i64));
    }
    proof {
        assert(texts(parts@) =~= datetime_parts(dt));
    }
    say3("datetime.datetime(", join_texts(&parts, ", ").as_str(), ")")
}

/// The form of each field of a schema.
pub open spec fn field_forms(s: Seq<(String, String)>) -> Seq<Seq<char>> {
    s.map_values(|f: (String, String)| f.0@ + ": "@ + f.1@)
}

/// The form of an optional hint.
pub open spec fn hint_form(name: Seq<char>, hint: Option<String>) -> Seq<char> {
    match hint {
        Some(h) => ", "@ + name + "="@ + quoted(h@),
        None => Seq::empty(),
    }
}

/// The printed form of a value.
pub open spec fn value_repr(v: MetadataValue) -> Seq<char>
    decreases v,
{
    match v {
        MetadataValue::Text { value } => "MetadataValue.text("@ + quoted(value@) + ")"@,
        MetadataValue::Int { value } => "MetadataValue.int("@ + signed_decimal(value as int)
            + ")"@,
        MetadataValue::Float { value } => "MetadataValue.float_("@ + value.text@ + ")"@,
        MetadataValue::Bool { value } => "MetadataValue.bool_("@ + (if value {
            "true"@
        } else {
            "false"@
        }) + ")"@,
        MetadataValue::Url { value } => "MetadataValue.url("@ + quoted(value@) + ")"@,
        MetadataValue::Path { value } => "MetadataValue.path("@ + quoted(value@) + ")"@,
        MetadataValue::Json { value } => "MetadataValue.json("@ + quoted(value@) + ")"@,
        MetadataValue::Markdown { value } => "MetadataValue.md("@ + quoted(value@) + ")"@,
        MetadataValue::Timestamp { value } => "MetadataValue.timestamp("@ + value.text@ + ")"@,
        MetadataValue::Null => "MetadataValue.null()"@,
        MetadataValue::Bytes { value } => "MetadataValue.bytes("@ + decimal(value as nat) + ")"@,
        MetadataValue::Duration { value } => "MetadataValue.duration("@ + value.text@ + ")"@,
        MetadataValue::Sql { query, dialect } => "MetadataValue.sql("@ + quoted(query@)
            + hint_form("dialect"@, dialect) + ")"@,
        MetadataValue::CodeBlock { code, language } => "MetadataValue.code_block("@ + quoted(
            code@,
        ) + hint_form("language"@, language) + ")"@,
        MetadataValue::Image { value } => "MetadataValue.image("@ + quoted(value@) + ")"@,
        MetadataValue::Percentage { value } => "MetadataValue.percentage("@ + value.text@ + ")"@,
        MetadataValue::List { values } => "MetadataValue.list_(["@ + joined(
            values_repr(values@),
            ", "@,
        ) + "])"@,
        MetadataValue::DateRange { start, end } => "MetadataValue.date_range("@ + datetime_form(
            start,
        ) + ", "@ + datetime_form(end) + ")"@,
        MetadataValue::Schema { ipc_bytes, fields } => match fields {
            Some(f) => "MetadataValue.schema({"@ + joined(field_forms(f@), ", "@) + "})"@,
            None => "MetadataValue.schema(<"@ + decimal(ipc_bytes@.len()) + " bytes>)"@,
        },
        MetadataValue::DataVersion { value } => "MetadataValue.data_version("@ + quoted(value@)
            + ")"@,
    }
}

/// The printed form of each value of a list.
pub open spec fn values_repr(s: Seq<MetadataValue>) -> Seq<Seq<char>>
    decreases s,
{
    if s.len() == 0 {
        Seq::empty()
    } else {
        values_repr(s.drop_last()).push(value_repr(s.last()))
    }
}

fn hint_text(name: &str, hint: &Option<String>) -> (r: String)
    ensures
        r@ == hint_form(name@, *hint),
{
    match hint {
        Some(h) => {
            let mut s = say3(", ", name, "=");
            s.append(quoted_text(h.as_str()).as_str());
            s
        },
        None => String::new(),
    }
}

fn field_texts(v: &Vec<(String, String)>) -> (r: Vec<String>)
    ensures
        texts(r@) == field_forms(v@),
{
    let mut out: Vec<String> = Vec::new();
    let mut i: usize = 0;
    while i < v.len()
        invariant
            i <= v@.len(),
            texts(out@) == field_forms(v@.take(i as int)),
        decreases v@.len() - i,
    {
        let e = say3(v[i].0.as_str(), ": ", v[i].1.as_str());
        let ghost prev = texts(out@);
        let ghost ev = e@;
        out.push(e);
        proof {
            assert(texts(out@) =~= prev.push(ev));
            assert(field_forms(v@.take(i + 1)) =~= field_forms(v@.take(i as int)).push(ev));
        }
        i += 1;
    }
    proof {
        assert(v@.take(i as int) =~= v@);
    }
    out
}

fn same_bytes(a: &Vec<u8>, b: &Vec<u8>) -> (r: bool)
    ensures
        r == (a@ == b@),
{
    if a.len() != b.len() {
        return false;
    }
    let mut i: usize = 0;
    while i < a.len()
        invariant
            a@.len() == b@.len(),
            i <= a@.len(),
            forall|j: int| 0 <= j < i ==> a@[j] == b@[j],
        decreases a@.len() - i,
    {
        if a[i] != b[i] {
            return false;
        }
        i += 1;
    }
    proof {
        assert(a@ =~= b@);
    }
    true
}

/// The canonical form of a URL, or why it cannot be read.
pub uninterp spec fn parsed_url(s: Seq<char>) -> Result<Seq<char>, Seq<char>>;

/// The canonical form that `url::Url::parse` gives a URL, or what it reports. What
/// that form is, is not stated.
#[verifier::external_body]
fn url_parse(s: &str) -> (r: Result<String, String>)
    ensures
        match r {
            Ok(t) => parsed_url(s@) == Ok::<Seq<char>, Seq<char>>(t@),
            Err(e) => parsed_url(s@) == Err::<Seq<char>, Seq<char>>(e@),
        },
{
    url::Url::parse(s).map(|u| u.into()).map_err(|e| e.to_string())
}

/// The plain value of a metadata value, as the host gets it.
#[derive(Debug)]
pub enum RawValue<'a> {
    Text(&'a str),
    Int(i64),
    Float(&'a Real),
    Bool(bool),
    Bytes(u64),
    Null,
    List(&'a Vec<MetadataValue>),
    DateRange(Moment, Moment),
    Schema(&'a Vec<u8>),
}

/// Whether a plain value is that of a metadata value.
pub open spec fn is_raw(v: MetadataValue, r: RawValue<'_>) -> bool {
    match v {
        MetadataValue::Text { value } => r matches RawValue::Text(t) && t@ == value@,
        MetadataValue::Url { value } => r matches RawValue::Text(t) && t@ == value@,
        MetadataValue::Path { value } => r matches RawValue::Text(t) && t@ == value@,
        MetadataValue::Json { value } => r matches RawValue::Text(t) && t@ == value@,
        MetadataValue::Markdown { value } => r matches RawValue::Text(t) && t@ == value@,
        MetadataValue::Image { value } => r matches RawValue::Text(t) && t@ == value@,
        MetadataValue::Sql { query, .. } => r matches RawValue::Text(t) && t@ == query@,
        MetadataValue::CodeBlock { code, .. } => r matches RawValue::Text(t) && t@ == code@,
        MetadataValue::DataVersion { value } => r matches RawValue::Text(t) && t@ == value@,
        MetadataValue::Int { value } => r == RawValue::Int(value),
        MetadataValue::Float { value } => r matches RawValue::Float(x) && *x == value,
        MetadataValue::Timestamp { value } => r matches RawValue::Float(x) && *x == value,
        MetadataValue::Duration { value } => r matches RawValue::Float(x) && *x == value,
        MetadataValue::Percentage { value } => r matches RawValue::Float(x) && *x == value,
        MetadataValue::Bool { value } => r == RawValue::Bool(value),
        MetadataValue::Bytes { value } => r == RawValue::Bytes(value),
        MetadataValue::Null => r == RawValue::Null,
        MetadataValue::List { values } => r matches RawValue::List(x) && *x == values,
        MetadataValue::DateRange { start, end } => r == RawValue::DateRange(start, end),
        MetadataValue::Schema { ipc_bytes, .. } => r matches RawValue::Schema(x) && *x
            == ipc_bytes,
    }
}

impl MetadataValue {
    pub open spec fn wf(&self) -> bool {
        value_wf(*self)
    }

    /// Parse and validate a URL. The stored value is the canonical form produced by
    /// parsing, so equivalent inputs compare equal.
    pub fn url(value: String) -> (r: Result<Self, Fault>)
        ensures
            match r {
                Ok(v) => v matches MetadataValue::Url { value: u } && parsed_url(value@) == Ok::<
                    Seq<char>,
                    Seq<char>,
                >(u@),
                Err(e) => parsed_url(value@) matches Err(why) && e@ == (
                    FaultKind::Metadata,
                    "Invalid URL: "@ + why,
                ),
            },
    {
        match url_parse(value.as_str()) {
            Ok(u) => Ok(MetadataValue::Url { value: u }),
            Err(why) => {
                let mut s = "Invalid URL: ".to_owned();
                s.append(why.as_str());
                Err(Fault::new(FaultKind::Metadata, s))
            },
        }
    }

    /// Unwrap to a plain value.
    pub fn raw_value(&self) -> (r: RawValue<'_>)
        ensures
            is_raw(*self, r),
    {
        match self {
            MetadataValue::Text { value } => RawValue::Text(value.as_str()),
            MetadataValue::Url { value } => RawValue::Text(value.as_str()),
            MetadataValue::Path { value } => RawValue::Text(value.as_str()),
            MetadataValue::Json { value } => RawValue::Text(value.as_str()),
            MetadataValue::Markdown { value } => RawValue::Text(value.as_str()),
            MetadataValue::Image { value } => RawValue::Text(value.as_str()),
            MetadataValue::Sql { query, .. } => RawValue::Text(query.as_str()),
            MetadataValue::CodeBlock { code, .. } => RawValue::Text(code.as_str()),
            MetadataValue::DataVersion { value } => RawValue::Text(value.as_str()),
            MetadataValue::Int { value } => RawValue::Int(*value),
            MetadataValue::Float { value } => RawValue::Float(value),
            MetadataValue::Timestamp { value } => RawValue::Float(value),
            MetadataValue::Duration { value } => RawValue::Float(value),
            MetadataValue::Percentage { value } => RawValue::Float(value),
            MetadataValue::Bool { value } => RawValue::Bool(*value),
            MetadataValue::Bytes { value } => RawValue::Bytes(*value),
            MetadataValue::Null => RawValue::Null,
            MetadataValue::List { values } => RawValue::List(values),
            MetadataValue::DateRange { start, end } => RawValue::DateRange(*start, *end),
            MetadataValue::Schema { ipc_bytes, .. } => RawValue::Schema(ipc_bytes),
        }
    }

    /// The printed form of the value.
    pub fn repr(&self) -> (r: String)
        requires
            self.wf(),
        ensures
            r@ == value_repr(*self),
        decreases self,
    {
        match self {
            MetadataValue::Text { value } => say3(
                "MetadataValue.text(",
                quoted_text(value.as_str()).as_str(),
                ")",
            ),
            MetadataValue::Int { value } => say3(
                "MetadataValue.int(",
                signed_decimal_text(*value).as_str(),
                ")",
            ),
            MetadataValue::Float { value } => say3(
                "MetadataValue.float_(",
                value.text.as_str(),
                ")",
            ),
            MetadataValue::Bool { value } => say3(
                "MetadataValue.bool_(",
                if *value {
                    "true"
                } else {
                    "false"
                },
                ")",
            ),
            MetadataValue::Url { value } => say3(
                "MetadataValue.url(",
                quoted_text(value.as_str()).as_str(),
                ")",
            ),
            MetadataValue::Path { value } => say3(
                "MetadataValue.path(",
                quoted_text(value.as_str()).as_str(),
                ")",
            ),
            MetadataValue::Json { value } => say3(
                "MetadataValue.json(",
                quoted_text(value.as_str()).as_str(),
                ")",
            ),
            MetadataValue::Markdown { value } => say3(
                "MetadataValue.md(",
                quoted_text(value.as_str()).as_str(),
                ")",
            ),
            MetadataValue::Timestamp { value } => say3(
                "MetadataValue.timestamp(",
                value.text.as_str(),
                ")",
            ),
            MetadataValue::Null => "MetadataValue.null()".to_owned(),
            MetadataValue::Bytes { value } => say3(
                "MetadataValue.bytes(",
                decimal_text(*value).as_str(),
                ")",
            ),
            MetadataValue::Duration { value } => say3(
                "MetadataValue.duration(",
                value.text.as_str(),
                ")",
            ),
            MetadataValue::Sql { query, dialect } => {
                let mut s = say3(
                    "MetadataValue.sql(",
                    quoted_text(query.as_str()).as_str(),
                    hint_text("dialect", dialect).as_str(),
                );
                s.append(")");
                s
            },
            MetadataValue::CodeBlock { code, language } => {
                let mut s = say3(
                    "MetadataValue.code_block(",
                    quoted_text(code.as_str()).as_str(),
                    hint_text("language", language).as_str(),
                );
                s.append(")");
                s
            },
            MetadataValue::Image { value } => say3(
                "MetadataValue.image(",
                quoted_text(value.as_str()).as_str(),
                ")",
            ),
            MetadataValue::Percentage { value } => say3(
                "MetadataValue.percentage(",
                value.text.as_str(),
                ")",
            ),
            MetadataValue::List { values } => {
                let ghost s = values@;
                let mut out: Vec<String> = Vec::new();
                let mut i: usize = 0;
                proof {
                    assert(s.take(0) =~= Seq::empty());
                    assert(texts(out@) =~= Seq::empty());
                }
                while i < values.len()
                    invariant
                        self.wf(),
                        self == (MetadataValue::List { values: *values }),
                        s == values@,
                        i <= s.len(),
                        texts(out@) == values_repr(s.take(i as int)),
                    decreases s.len() - i,
                {
                    proof {
                        lemma_values_wf(s, i as int);
                        lemma_value_decreases(*self, i as int);
                        assert(s.take(i + 1).drop_last() =~= s.take(i as int));
                        assert(s.take(i + 1).last() == s[i as int]);
                    }
                    let e = values[i].repr();
                    let ghost prev = texts(out@);
                    let ghost ev = e@;
                    out.push(e);
                    proof {
                        assert(texts(out@) =~= prev.push(ev));
                    }
                    i += 1;
                }
                proof {
                    assert(s.take(i as int) =~= s);
                }
                say3("MetadataValue.list_([", join_texts(&out, ", ").as_str(), "])")
            },
            MetadataValue::DateRange { start, end } => say5(
                "MetadataValue.date_range(",
                fmt_naive_datetime(*start).as_str(),
                ", ",
                fmt_naive_datetime(*end).as_str(),
                ")",
            ),
            MetadataValue::Schema { ipc_bytes, fields } => match fields {
                Some(f) => say3(
                    "MetadataValue.schema({",
                    join_texts(&field_texts(f), ", ").as_str(),
                    "})",
                ),
                None => say3(
                    "MetadataValue.schema(<",
                    decimal_text(ipc_bytes.len() as u64).as_str(),
                    " bytes>)",
                ),
            },
            MetadataValue::DataVersion { value } => say3(
                "MetadataValue.data_version(",
                quoted_text(value.as_str()).as_str(),
                ")",
            ),
        }
    }

    /// Whether two values are equal.
    pub fn same(&self, other: &Self) -> (r: bool)
        ensures
            r == values_equal(*self, *other),
        decreases self,
    {
        match (self, other) {
            (MetadataValue::Text { value: a }, MetadataValue::Text { value: b }) => same_text(
                a.as_str(),
                b.as_str(),
            ),
            (MetadataValue::Int { value: a }, MetadataValue::Int { value: b }) => *a == *b,
            (MetadataValue::Float { value: a }, MetadataValue::Float { value: b }) => equal_bits(
                a.bits,
                b.bits,
            ),
            (MetadataValue::Bool { value: a }, MetadataValue::Bool { value: b }) => *a == *b,
            (MetadataValue::Url { value: a }, MetadataValue::Url { value: b }) => same_text(
                a.as_str(),
                b.as_str(),
            ),
            (MetadataValue::Path { value: a }, MetadataValue::Path { value: b }) => same_text(
                a.as_str(),
                b.as_str(),
            ),
            (MetadataValue::Json { value: a }, MetadataValue::Json { value: b }) => same_text(
                a.as_str(),
                b.as_str(),
            ),
            (MetadataValue::Markdown { value: a }, MetadataValue::Markdown { value: b }) => same_text(
                a.as_str(),
                b.as_str(),
            ),
            (
                MetadataValue::Timestamp { value: a },
                MetadataValue::Timestamp { value: b },
            ) => equal_bits(a.bits, b.bits),
            (MetadataValue::Null, MetadataValue::Null) => true,
            (MetadataValue::Bytes { value: a }, MetadataValue::Bytes { value: b }) => *a == *b,
            (
                MetadataValue::Duration { value: a },
                MetadataValue::Duration { value: b },
            ) => equal_bits(a.bits, b.bits),
            (
                MetadataValue::Sql { query: q1, dialect: d1 },
                MetadataValue::Sql { query: q2, dialect: d2 },
            ) => same_text(q1.as_str(), q2.as_str()) && same_opt_text(d1, d2),
            (
                MetadataValue::CodeBlock { code: c1, language: l1 },
                MetadataValue::CodeBlock { code: c2, language: l2 },
            ) => same_text(c1.as_str(), c2.as_str()) && same_opt_text(l1, l2),
            (MetadataValue::Image { value: a }, MetadataValue::Image { value: b }) => same_text(
                a.as_str(),
                b.as_str(),
            ),
            (
                MetadataValue::Percentage { value: a },
                MetadataValue::Percentage { value: b },
            ) => equal_bits(a.bits, b.bits),
            (MetadataValue::List { values: a }, MetadataValue::List { values: b }) => {
                if a.len() != b.len() {
                    return false;
                }
                let ghost x = a@;
                let ghost y = b@;
                let mut i: usize = 0;
                proof {
                    assert(x.take(0) =~= Seq::empty());
                }
                while i < a.len()
                    invariant
                        self == (MetadataValue::List { values: *a }),
                        other == (MetadataValue::List { values: *b }),
                        x == a@,
                        y == b@,
                        x.len() == y.len(),
                        i <= x.len(),
                        lists_equal(x.take(i as int), y),
                    decreases x.len() - i,
                {
                    proof {
                        lemma_value_decreases(*self, i as int);
                        assert(x.take(i + 1).drop_last() =~= x.take(i as int));
                        assert(x.take(i + 1).last() == x[i as int]);
                    }
                    if !a[i].same(&b[i]) {
                        proof {
                            lemma_lists_prefix(x, y, i + 1);
                        }
                        return false;
                    }
                    i += 1;
                }
                proof {
                    assert(x.take(i as int) =~= x);
                }
                true
            },
            (
                MetadataValue::DateRange { start: s1, end: e1 },
                MetadataValue::DateRange { start: s2, end: e2 },
            ) => s1.total() == s2.total() && e1.total() == e2.total(),
            (
                MetadataValue::Schema { ipc_bytes: a, .. },
                MetadataValue::Schema { ipc_bytes: b, .. },
            ) => same_bytes(a, b),
            (
                MetadataValue::DataVersion { value: a },
                MetadataValue::DataVersion { value: b },
            ) => same_text(a.as_str(), b.as_str()),
            _ => false,
        }
    }
}

/// What a host value can be taken for.
#[derive(Debug)]
pub struct HostValue {
    /// The metadata value that it is.
    pub metadata: Option<MetadataValue>,
    /// Its truth, where it is a boolean.
    pub boolean: Option<bool>,
    pub integer: Option<i64>,
    pub real: Option<Real>,
    pub text: Option<String>,
    pub is_none: bool,
    /// Its Arrow schema, or why that cannot be read, where it offers one.
    pub schema: Option<Result<(Vec<u8>, Option<Vec<(String, String)>>), Fault>>,
    /// The name of its type.
    pub class_name: String,
}

/// The metadata value that a host value is taken for. A boolean counts as a boolean
/// and not as the integer that it also is.
pub open spec fn coerced(v: HostValue) -> Result<MetadataValue, FaultView> {
    if v.metadata is Some {
        Ok(v.metadata->0)
    } else if v.boolean is Some {
        Ok(MetadataValue::Bool { value: v.boolean->0 })
    } else if v.integer is Some {
        Ok(MetadataValue::Int { value: v.integer->0 })
    } else if v.real is Some {
        Ok(MetadataValue::Float { value: v.real->0 })
    } else if v.text is Some {
        Ok(MetadataValue::Text { value: v.text->0 })
    } else if v.is_none {
        Ok(MetadataValue::Null)
    } else {
        match v.schema {
            Some(Ok(s)) => Ok(MetadataValue::Schema { ipc_bytes: s.0, fields: s.1 }),
            Some(Err(e)) => Err(e@),
            None => Err(
                (
                    FaultKind::Type,
                    "Cannot coerce "@ + v.class_name@
                        + " to MetadataValue. Use MetadataValue.text(), .int(), etc."@,
                ),
            ),
        }
    }
}

/// Convert a host value to a metadata value. If already one, returns it as it is.
pub fn coerce_to_metadata_value(value: HostValue) -> (r: Result<MetadataValue, Fault>)
    ensures
        match r {
            Ok(v) => coerced(value) == Ok::<MetadataValue, FaultView>(v),
            Err(e) => coerced(value) == Err::<MetadataValue, FaultView>(e@),
        },
{
    if let Some(mv) = value.metadata {
        return Ok(mv);
    }
    if let Some(b) = value.boolean {
        return Ok(MetadataValue::Bool { value: b });
    }
    if let Some(i) = value.integer {
        return Ok(MetadataValue::Int { value: i });
    }
    if let Some(f) = value.real {
        return Ok(MetadataValue::Float { value: f });
    }
    if let Some(s) = value.text {
        return Ok(MetadataValue::Text { value: s });
    }
    if value.is_none {
        return Ok(MetadataValue::Null);
    }
    match value.schema {
        Some(Ok((ipc_bytes, fields))) => Ok(MetadataValue::Schema { ipc_bytes, fields }),
        Some(Err(e)) => Err(e),
        None => Err(
            Fault::new(
                FaultKind::Type,
                say3(
                    "Cannot coerce ",
                    value.class_name.as_str(),
                    " to MetadataValue. Use MetadataValue.text(), .int(), etc.",
                ),
            ),
        ),
    }
}

} // verus!
