//! Per-output iteration over a step result.
//!
//! A step returns a single value, a dict with one value for each output, or a
//! generator that yields outputs. Each becomes items whose metadata and data version
//! are merged by precedence: what the output's own wrapper says, over what the
//! context of a generator says, over what the step shares between its outputs, over
//! a data version that stands among the metadata.
use vstd::prelude::*;
use vstd::string::*;
use crate::errors::{Fault, FaultKind, FaultView};
use crate::executor::obj::{Obj, NONE_ID};
use crate::metadata::MetadataValue;
use crate::partitions::grid::opt_text;
use crate::text::{has_text, same_text, texts};

verus! {

/// A named metadata value.
pub type Entry = (String, MetadataValue);

/// How an output is recorded.
#[derive(Clone, Copy, PartialEq, Eq, Structural, Debug)]
pub enum ResultKind {
    /// A value that the framework writes.
    Output,
    /// A note about an asset, without a value.
    Observation,
    /// A value that the asset wrote itself.
    Materialization,
}

/// The number that stands for a kind in what a worker sends back.
pub open spec fn kind_number(k: ResultKind) -> u8 {
    match k {
        ResultKind::Output => 0,
        ResultKind::Observation => 1,
        ResultKind::Materialization => 2,
    }
}

/// The kind that a number stands for.
pub open spec fn kind_of_number(n: u8) -> Option<ResultKind> {
    if n == 0 {
        Some(ResultKind::Output)
    } else if n == 1 {
        Some(ResultKind::Observation)
    } else if n == 2 {
        Some(ResultKind::Materialization)
    } else {
        None
    }
}

/// The number of a kind stands for that kind.
pub proof fn lemma_kind_number(k: ResultKind)
    ensures
        kind_of_number(kind_number(k)) == Some(k),
{
}

impl ResultKind {
    /// The number that stands for the kind.
    pub fn as_u8(self) -> (r: u8)
        ensures
            r == kind_number(self),
    {
        match self {
            ResultKind::Output => 0,
            ResultKind::Observation => 1,
            ResultKind::Materialization => 2,
        }
    }

    /// The kind that a number stands for.
    pub fn from_u8(n: u8) -> (r: Option<Self>)
        ensures
            r == kind_of_number(n),
    {
        if n == 0 {
            Some(ResultKind::Output)
        } else if n == 1 {
            Some(ResultKind::Observation)
        } else if n == 2 {
            Some(ResultKind::Materialization)
        } else {
            None
        }
    }
}

/// The entries of a list with another name.
pub open spec fn without(s: Seq<Entry>, name: Seq<char>) -> Seq<Entry>
    decreases s.len(),
{
    if s.len() == 0 {
        s
    } else if s.last().0@ == name {
        without(s.drop_last(), name)
    } else {
        without(s.drop_last(), name).push(s.last())
    }
}

/// A list of entries overlaid by another: each overlay entry takes the place of the
/// entries of its name, at the end.
pub open spec fn merged(target: Seq<Entry>, overlay: Seq<Entry>) -> Seq<Entry>
    decreases overlay.len(),
{
    if overlay.len() == 0 {
        target
    } else {
        without(merged(target, overlay.drop_last()), overlay.last().0@).push(overlay.last())
    }
}

/// The value of each name of a list; the last entry of a name counts.
pub open spec fn entry_map(s: Seq<Entry>) -> Map<Seq<char>, MetadataValue>
    decreases s.len(),
{
    if s.len() == 0 {
        Map::empty()
    } else {
        entry_map(s.drop_last()).insert(s.last().0@, s.last().1)
    }
}

/// Leaving out a name leaves the values of all others.
pub proof fn lemma_without(s: Seq<Entry>, name: Seq<char>)
    ensures
        entry_map(without(s, name)) == entry_map(s).remove(name),
        forall|i: int| 0 <= i < without(s, name).len() ==> (#[trigger] without(s, name)[i]).0@ != name,
        forall|i: int|
            0 <= i < without(s, name).len() ==> s.contains(#[trigger] without(s, name)[i]),
    decreases s.len(),
{
    if s.len() > 0 {
        let w = s.drop_last();
        lemma_without(w, name);
        let r = without(s, name);
        if s.last().0@ == name {
            assert(entry_map(r) =~= entry_map(s).remove(name));
        } else {
            assert(r.drop_last() =~= without(w, name));
            assert(entry_map(r) =~= entry_map(s).remove(name));
        }
        assert forall|i: int| 0 <= i < r.len() implies s.contains(#[trigger] r[i]) by {
            if i < without(w, name).len() {
                assert(w.contains(without(w, name)[i]));
                let j = choose|j: int| 0 <= j < w.len() && w[j] == r[i];
                assert(s[j] == r[i]);
            } else {
                assert(s[s.len() - 1] == r[i]);
            }
        }
    } else {
        assert(entry_map(s).remove(name) =~= entry_map(s));
    }
}

/// The overlay wins: a name that it has takes its value, any other name keeps its
/// own.
pub proof fn lemma_merged(target: Seq<Entry>, overlay: Seq<Entry>)
    ensures
        entry_map(merged(target, overlay)) == entry_map(target).union_prefer_right(
            entry_map(overlay),
        ),
    decreases overlay.len(),
{
    if overlay.len() > 0 {
        let o = overlay.drop_last();
        let m = merged(target, o);
        lemma_merged(target, o);
        lemma_without(m, overlay.last().0@);
        let r = merged(target, overlay);
        assert(r.drop_last() =~= without(m, overlay.last().0@));
        assert(entry_map(r) =~= entry_map(target).union_prefer_right(entry_map(overlay)));
    } else {
        assert(entry_map(target).union_prefer_right(entry_map(overlay)) =~= entry_map(target));
    }
}

/// Merging leaves each name of the overlay once.
pub proof fn lemma_merged_once(target: Seq<Entry>, overlay: Seq<Entry>, i: int, j: int)
    requires
        0 <= i < merged(target, overlay).len(),
        0 <= j < merged(target, overlay).len(),
        i != j,
        exists|k: int| 0 <= k < overlay.len() && (#[trigger] overlay[k]).0@ == merged(
            target,
            overlay,
        )[i].0@,
    ensures
        merged(target, overlay)[i].0@ != merged(target, overlay)[j].0@,
    decreases overlay.len(),
{
    let o = overlay.drop_last();
    let m = merged(target, o);
    let name = overlay.last().0@;
    let r = merged(target, overlay);
    let w = without(m, name);
    lemma_without(m, name);
    assert(r == w.push(overlay.last()));
    if i < w.len() && j < w.len() {
        let k = choose|k: int| 0 <= k < overlay.len() && (#[trigger] overlay[k]).0@ == r[i].0@;
        assert(w[i].0@ != name);
        assert(k < o.len());
        assert(o[k].0@ == r[i].0@);
        lemma_without_keeps_apart(m, name, i, j);
        let (a, b) = choose|a: int, b: int|
            0 <= a < m.len() && 0 <= b < m.len() && a != b && m[a] == w[i] && m[b] == w[j];
        assert(o[k].0@ == m[a].0@);
        lemma_merged_once(target, o, a, b);
    } else if i < w.len() {
        assert(w[i].0@ != name);
    } else {
        assert(w[j].0@ != name);
    }
}

proof fn lemma_without_keeps_apart(s: Seq<Entry>, name: Seq<char>, i: int, j: int)
    requires
        0 <= i < without(s, name).len(),
        0 <= j < without(s, name).len(),
        i != j,
    ensures
        exists|a: int, b: int|
            0 <= a < s.len() && 0 <= b < s.len() && a != b && s[a] == without(s, name)[i] && s[b]
                == without(s, name)[j],
    decreases s.len(),
{
    let w = s.drop_last();
    let u = without(w, name);
    let r = without(s, name);
    if i < u.len() && j < u.len() {
        lemma_without_keeps_apart(w, name, i, j);
        let (a, b) = choose|a: int, b: int|
            0 <= a < w.len() && 0 <= b < w.len() && a != b && w[a] == u[i] && w[b] == u[j];
        assert(s[a] == r[i] && s[b] == r[j]);
    } else {
        lemma_without(w, name);
        if i < u.len() {
            assert(w.contains(u[i]));
            let a = choose|a: int| 0 <= a < w.len() && w[a] == u[i];
            let b = s.len() - 1;
            assert(s[a] == r[i] && s[b] == r[j]);
        } else {
            assert(w.contains(u[j]));
            let b = choose|b: int| 0 <= b < w.len() && w[b] == u[j];
            let a = s.len() - 1;
            assert(s[a] == r[i] && s[b] == r[j]);
        }
    }
}

/// The entries that a list refers to.
pub open spec fn vals(v: Seq<&Entry>) -> Seq<Entry> {
    v.map_values(|e: &Entry| *e)
}

/// References to the entries of a list.
pub fn entry_refs<'a>(v: &'a Vec<Entry>) -> (r: Vec<&'a Entry>)
    ensures
        vals(r@) == v@,
{
    let mut out: Vec<&'a Entry> = Vec::new();
    let mut i: usize = 0;
    while i < v.len()
        invariant
            i <= v@.len(),
            out@.len() == i,
            forall|j: int| 0 <= j < i ==> *(#[trigger] out@[j]) == v@[j],
        decreases v@.len() - i,
    {
        out.push(&v[i]);
        i += 1;
    }
    proof {
        assert(vals(out@) =~= v@);
    }
    out
}

/// Upsert: for each overlay entry, remove any existing entry with the same key, then
/// append.
pub fn merge_metadata<'a>(target: Vec<&'a Entry>, overlay: &Vec<&'a Entry>) -> (r: Vec<&'a Entry>)
    ensures
        vals(r@) == merged(vals(target@), vals(overlay@)),
{
    let ghost t = vals(target@);
    let ghost o = vals(overlay@);
    let mut out = target;
    let mut i: usize = 0;
    proof {
        assert(o.take(0) =~= Seq::empty());
    }
    while i < overlay.len()
        invariant
            o == vals(overlay@),
            i <= o.len(),
            vals(out@) == merged(t, o.take(i as int)),
        decreases o.len() - i,
    {
        proof {
            assert(o.take(i + 1).drop_last() =~= o.take(i as int));
            assert(o.take(i + 1).last() == o[i as int]);
        }
        let ghost s = vals(out@);
        let mut kept: Vec<&'a Entry> = Vec::new();
        let mut j: usize = 0;
        proof {
            assert(s.take(0) =~= Seq::empty());
            assert(vals(kept@) =~= Seq::empty());
        }
        while j < out.len()
            invariant
                s == vals(out@),
                i < overlay@.len(),
                j <= s.len(),
                vals(kept@) == without(s.take(j as int), overlay@[i as int].0@),
            decreases s.len() - j,
        {
            proof {
                assert(s.take(j + 1).drop_last() =~= s.take(j as int));
                assert(s.take(j + 1).last() == s[j as int]);
            }
            if !same_text(out[j].0.as_str(), overlay[i].0.as_str()) {
                let ghost prev = vals(kept@);
                kept.push(out[j]);
                proof {
                    assert(vals(kept@) =~= prev.push(s[j as int]));
                }
            }
            j += 1;
        }
        proof {
            assert(s.take(j as int) =~= s);
        }
        let ghost prev = vals(kept@);
        kept.push(overlay[i]);
        proof {
            assert(vals(kept@) =~= prev.push(o[i as int]));
        }
        out = kept;
        i += 1;
    }
    proof {
        assert(o.take(i as int) =~= o);
    }
    out
}

/// The data version among a list of entries; the last one counts.
pub open spec fn version_among(s: Seq<Entry>) -> Option<Seq<char>>
    decreases s.len(),
{
    if s.len() == 0 {
        None
    } else {
        match s.last().1 {
            MetadataValue::DataVersion { value } => Some(value@),
            _ => version_among(s.drop_last()),
        }
    }
}

/// The entries of a list that are no data version.
pub open spec fn plain_entries(s: Seq<Entry>) -> Seq<Entry>
    decreases s.len(),
{
    if s.len() == 0 {
        s
    } else if s.last().1 is DataVersion {
        plain_entries(s.drop_last())
    } else {
        plain_entries(s.drop_last()).push(s.last())
    }
}

/// Extract any data version from output metadata, removing it from the list.
pub fn extract_data_version<'a>(output_metadata: &Vec<&'a Entry>) -> (r: (
    Option<String>,
    Vec<&'a Entry>,
))
    ensures
        opt_text(r.0) == version_among(vals(output_metadata@)),
        vals(r.1@) == plain_entries(vals(output_metadata@)),
{
    let ghost s = vals(output_metadata@);
    let mut data_version: Option<String> = None;
    let mut remaining: Vec<&'a Entry> = Vec::new();
    let mut i: usize = 0;
    proof {
        assert(s.take(0) =~= Seq::empty());
        assert(vals(remaining@) =~= Seq::empty());
    }
    while i < output_metadata.len()
        invariant
            s == vals(output_metadata@),
            i <= s.len(),
            opt_text(data_version) == version_among(s.take(i as int)),
            vals(remaining@) == plain_entries(s.take(i as int)),
        decreases s.len() - i,
    {
        proof {
            assert(s.take(i + 1).drop_last() =~= s.take(i as int));
            assert(s.take(i + 1).last() == s[i as int]);
        }
        let e = output_metadata[i];
        match &e.1 {
            MetadataValue::DataVersion { value } => {
                data_version = Some(value.clone());
            },
            _ => {
                let ghost prev = vals(remaining@);
                remaining.push(e);
                proof {
                    assert(vals(remaining@) =~= prev.push(s[i as int]));
                }
            },
        }
        i += 1;
    }
    proof {
        assert(s.take(i as int) =~= s);
    }
    (data_version, remaining)
}

/// No data version is left among the metadata of an item.
pub proof fn lemma_plain_entries(s: Seq<Entry>)
    ensures
        version_among(plain_entries(s)) is None,
        version_among(s) is None ==> plain_entries(s) == s,
    decreases s.len(),
{
    if s.len() > 0 {
        let w = s.drop_last();
        lemma_plain_entries(w);
        if !(s.last().1 is DataVersion) {
            assert(plain_entries(s).drop_last() =~= plain_entries(w));
            assert(w.push(s.last()) =~= s);
        }
    }
}

/// The first of two optional versions that is there.
pub open spec fn or_version(a: Option<Seq<char>>, b: Option<Seq<char>>) -> Option<Seq<char>> {
    if a is Some {
        a
    } else {
        b
    }
}

/// The first of two optional versions that is there.
pub fn version_or(a: Option<String>, b: Option<String>) -> (r: Option<String>)
    ensures
        opt_text(r) == or_version(opt_text(a), opt_text(b)),
{
    match a {
        Some(v) => Some(v),
        None => b,
    }
}

/// A copy of an optional text.
pub fn copy_opt(s: &Option<String>) -> (r: Option<String>)
    ensures
        opt_text(r) == opt_text(*s),
{
    match s {
        Some(t) => Some(t.clone()),
        None => None,
    }
}

/// One output produced by a step.
#[derive(Debug)]
pub enum OutputItem<'a> {
    /// Emit a materialization. A value must be written; without one the asset
    /// persisted itself.
    Materialization {
        name: String,
        value: Option<Obj>,
        metadata: Vec<&'a Entry>,
        data_version: Option<String>,
    },
    /// Emit an observation only.
    Observation { name: String, metadata: Vec<&'a Entry>, data_version: Option<String> },
}

/// What an item says.
pub struct ItemView {
    pub observation: bool,
    pub name: Seq<char>,
    pub value: Option<Obj>,
    pub metadata: Seq<Entry>,
    pub version: Option<Seq<char>>,
}

impl<'a> View for OutputItem<'a> {
    type V = ItemView;

    open spec fn view(&self) -> ItemView {
        match *self {
            OutputItem::Materialization { name, value, metadata, data_version } => ItemView {
                observation: false,
                name: name@,
                value,
                metadata: vals(metadata@),
                version: opt_text(data_version),
            },
            OutputItem::Observation { name, metadata, data_version } => ItemView {
                observation: true,
                name: name@,
                value: None,
                metadata: vals(metadata@),
                version: opt_text(data_version),
            },
        }
    }
}

/// The item of an output: an observation and a self-written value carry no value; an
/// output without one carries the object for no value.
pub open spec fn item_of(
    kind: ResultKind,
    name: Seq<char>,
    value: Option<Obj>,
    metadata: Seq<Entry>,
    version: Option<Seq<char>>,
) -> ItemView {
    ItemView {
        observation: kind == ResultKind::Observation,
        name,
        value: if kind == ResultKind::Output {
            match value {
                Some(v) => Some(v),
                None => Some(Obj(NONE_ID)),
            }
        } else {
            None
        },
        metadata,
        version,
    }
}

/// Build an item from the kind of its output.
pub fn item_for_kind<'a>(
    kind: ResultKind,
    name: String,
    value: Option<Obj>,
    metadata: Vec<&'a Entry>,
    data_version: Option<String>,
) -> (r: OutputItem<'a>)
    ensures
        r@ == item_of(kind, name@, value, vals(metadata@), opt_text(data_version)),
{
    match kind {
        ResultKind::Observation => OutputItem::Observation { name, metadata, data_version },
        ResultKind::Materialization => OutputItem::Materialization {
            name,
            value: None,
            metadata,
            data_version,
        },
        ResultKind::Output => OutputItem::Materialization {
            name,
            value: match value {
                Some(v) => Some(v),
                None => Some(Obj(NONE_ID)),
            },
            metadata,
            data_version,
        },
    }
}

/// What the wrapper of an output says.
#[derive(Debug)]
pub struct Extracted {
    pub value: Option<Obj>,
    pub metadata: Vec<Entry>,
    pub data_version: Option<String>,
    pub kind: ResultKind,
    pub output_name: Option<String>,
}

/// The item of an output whose metadata and versions come in layers, the lowest
/// first.
pub open spec fn layered_item(
    kind: ResultKind,
    name: Seq<char>,
    value: Option<Obj>,
    under: Seq<Entry>,
    over: Seq<Entry>,
    over_version: Option<Seq<char>>,
    under_version: Option<Seq<char>>,
) -> ItemView {
    item_of(
        kind,
        name,
        value,
        plain_entries(merged(under, over)),
        or_version(or_version(over_version, under_version), version_among(merged(under, over))),
    )
}

/// The item of a dict entry: what its wrapper says over what the step shares.
pub open spec fn dict_item_view(
    name: Seq<char>,
    slice: Obj,
    ext: Option<Extracted>,
    shared: Seq<Entry>,
    own: Seq<Entry>,
    shared_version: Option<Seq<char>>,
) -> ItemView {
    match ext {
        Some(e) => layered_item(
            e.kind,
            name,
            e.value,
            shared,
            own,
            opt_text(e.data_version),
            shared_version,
        ),
        None => layered_item(
            ResultKind::Output,
            name,
            Some(slice),
            shared,
            Seq::empty(),
            None,
            shared_version,
        ),
    }
}

/// The own metadata of an extraction.
pub open spec fn own_entries(ext: Option<&Extracted>) -> Seq<Entry> {
    match ext {
        Some(e) => e.metadata@,
        None => Seq::empty(),
    }
}

/// What an optional extraction is.
pub open spec fn opt_ext(ext: Option<&Extracted>) -> Option<Extracted> {
    match ext {
        Some(e) => Some(*e),
        None => None,
    }
}

/// The item of the entry `name` of a dict: `slice` is the entry, `ext` what its
/// wrapper says, where it has one.
pub fn dict_item<'a>(
    name: &str,
    slice: Obj,
    ext: Option<&'a Extracted>,
    shared: &'a Vec<Entry>,
    shared_version: &Option<String>,
) -> (r: OutputItem<'a>)
    ensures
        r@ == dict_item_view(
            name@,
            slice,
            opt_ext(ext),
            shared@,
            own_entries(ext),
            opt_text(*shared_version),
        ),
{
    let (value, own, version, kind) = match ext {
        Some(e) => (e.value, entry_refs(&e.metadata), copy_opt(&e.data_version), e.kind),
        None => (Some(slice), Vec::new(), None, ResultKind::Output),
    };
    proof {
        assert(vals(own@) =~= own_entries(ext));
    }
    let all = merge_metadata(entry_refs(shared), &own);
    let (among, plain) = extract_data_version(&all);
    let resolved = version_or(version_or(version, copy_opt(shared_version)), among);
    item_for_kind(kind, name.to_owned(), value, plain, resolved)
}

/// What a generator yielded is worth.
#[derive(Debug)]
pub enum YieldTarget {
    /// It is an output that is not selected.
    Skip,
    /// It is the selected output of this name.
    Take(String),
}

/// Which output a yield is for, or why it is none.
pub open spec fn yield_target_of(ext: Option<Extracted>, selected: Seq<Seq<char>>) -> Result<
    Option<Seq<char>>,
    FaultView,
> {
    match ext {
        None => Err(
            (
                FaultKind::Execution,
                "Generator multi-asset must yield Output(...), Observation(...), or Materialization(...)"@,
            ),
        ),
        Some(e) => match e.output_name {
            None => Err(
                (FaultKind::Execution, "yield in multi-asset must include output_name"@),
            ),
            Some(n) => Ok(
                if selected.contains(n@) {
                    Some(n@)
                } else {
                    None
                },
            ),
        },
    }
}

/// Which output a yield is for. The context of the generator is read only for a
/// selected one.
pub fn yield_target(ext: Option<&Extracted>, selected: &Vec<String>) -> (r: Result<
    YieldTarget,
    Fault,
>)
    ensures
        match r {
            Ok(YieldTarget::Take(n)) => yield_target_of(opt_ext(ext), texts(selected@)) == Ok::<
                Option<Seq<char>>,
                FaultView,
            >(Some(n@)),
            Ok(YieldTarget::Skip) => yield_target_of(opt_ext(ext), texts(selected@)) == Ok::<
                Option<Seq<char>>,
                FaultView,
            >(None),
            Err(e) => yield_target_of(opt_ext(ext), texts(selected@)) == Err::<
                Option<Seq<char>>,
                FaultView,
            >(e@),
        },
{
    match ext {
        None => Err(
            Fault::execution(
                "Generator multi-asset must yield Output(...), Observation(...), or Materialization(...)".to_owned(),
            ),
        ),
        Some(e) => match &e.output_name {
            None => Err(
                Fault::execution("yield in multi-asset must include output_name".to_owned()),
            ),
            Some(n) => {
                if has_text(selected, n.as_str()) {
                    Ok(YieldTarget::Take(n.clone()))
                } else {
                    Ok(YieldTarget::Skip)
                }
            },
        },
    }
}

/// The item of a yield: what its wrapper says over what the context of the generator
/// says. What the step shares plays no part.
pub fn yield_item<'a>(
    name: String,
    ext: &'a Extracted,
    ctx_metadata: &'a Vec<Entry>,
    ctx_version: Option<String>,
) -> (r: OutputItem<'a>)
    ensures
        r@ == layered_item(
            ext.kind,
            name@,
            ext.value,
            ctx_metadata@,
            ext.metadata@,
            opt_text(ext.data_version),
            opt_text(ctx_version),
        ),
{
    let all = merge_metadata(entry_refs(ctx_metadata), &entry_refs(&ext.metadata));
    let (among, plain) = extract_data_version(&all);
    let resolved = version_or(version_or(copy_opt(&ext.data_version), ctx_version), among);
    item_for_kind(ext.kind, name, ext.value, plain, resolved)
}

/// The item of a single output.
pub fn single_item<'a>(
    step_name: &str,
    kind: ResultKind,
    result: Obj,
    metadata: &'a Vec<Entry>,
    data_version: &Option<String>,
) -> (r: OutputItem<'a>)
    ensures
        r@ == item_of(
            kind,
            step_name@,
            Some(result),
            plain_entries(metadata@),
            or_version(opt_text(*data_version), version_among(metadata@)),
        ),
{
    let (among, plain) = extract_data_version(&entry_refs(metadata));
    let resolved = version_or(copy_opt(data_version), among);
    item_for_kind(kind, step_name.to_owned(), Some(result), plain, resolved)
}

/// The shape of a step result.
#[derive(Clone, Copy, PartialEq, Eq, Structural, Debug)]
pub enum OutputShape {
    Single,
    Dict,
    Generator,
}

/// What the host does next on the way through the outputs of a step.
#[derive(Clone, Copy, PartialEq, Eq, Structural, Debug)]
pub enum OutputRequest {
    /// Hand over the item of the single output.
    Whole,
    /// Take the dict entry of the selected output of this number.
    Slice(usize),
    /// Ask the generator for its next yield.
    Next,
    /// There are no more outputs.
    Done,
}

/// The way through the outputs of a step: how many requests were met, and whether
/// the generator has ended.
#[derive(Debug)]
pub struct OutputWalk {
    pub shape: OutputShape,
    pub selected: usize,
    pub met: usize,
    pub ended: bool,
}

/// The next request of a walk.
pub open spec fn walk_request(w: OutputWalk) -> OutputRequest {
    match w.shape {
        OutputShape::Single => if w.met == 0 {
            OutputRequest::Whole
        } else {
            OutputRequest::Done
        },
        OutputShape::Dict => if w.met < w.selected {
            OutputRequest::Slice(w.met)
        } else {
            OutputRequest::Done
        },
        OutputShape::Generator => if w.ended {
            OutputRequest::Done
        } else {
            OutputRequest::Next
        },
    }
}

impl OutputWalk {
    /// A walk through the outputs of a step: a generator is asked for them, a dict
    /// has one entry for each selected output, and anything else is one output.
    pub fn new(generator: bool, selected: &Vec<String>) -> (r: Self)
        ensures
            r.shape == if generator {
                OutputShape::Generator
            } else if selected@.len() > 0 {
                OutputShape::Dict
            } else {
                OutputShape::Single
            },
            r.selected == selected@.len(),
            r.met == 0,
            !r.ended,
    {
        OutputWalk {
            shape: if generator {
                OutputShape::Generator
            } else if selected.len() > 0 {
                OutputShape::Dict
            } else {
                OutputShape::Single
            },
            selected: selected.len(),
            met: 0,
            ended: false,
        }
    }

    /// What the host does next.
    pub fn request(&self) -> (r: OutputRequest)
        ensures
            r == walk_request(*self),
    {
        match self.shape {
            OutputShape::Single => if self.met == 0 {
                OutputRequest::Whole
            } else {
                OutputRequest::Done
            },
            OutputShape::Dict => if self.met < self.selected {
                OutputRequest::Slice(self.met)
            } else {
                OutputRequest::Done
            },
            OutputShape::Generator => if self.ended {
                OutputRequest::Done
            } else {
                OutputRequest::Next
            },
        }
    }

    /// The single output, or a dict entry, was handed over.
    pub fn handed(&mut self)
        requires
            walk_request(*old(self)) is Whole || walk_request(*old(self)) is Slice,
        ensures
            *final(self) == (OutputWalk { met: (old(self).met + 1) as usize, ..*old(self) }),
    {
        self.met = self.met + 1;
    }

    /// The generator has ended.
    pub fn exhausted(&mut self)
        ensures
            *final(self) == (OutputWalk { ended: true, ..*old(self) }),
    {
        self.ended = true;
    }
}

/// The walk of a result that is no generator after `n` requests were met.
pub open spec fn walk_at(shape: OutputShape, selected: usize, n: usize) -> OutputWalk {
    OutputWalk { shape, selected, met: n, ended: false }
}

/// A walk hands over each selected output of a dict once, in order, and a single
/// output once.
pub proof fn lemma_walk(shape: OutputShape, selected: usize, n: usize)
    requires
        shape is Dict || shape is Single,
    ensures
        shape is Dict ==> walk_request(walk_at(shape, selected, n)) == if n < selected {
            OutputRequest::Slice(n)
        } else {
            OutputRequest::Done
        },
        shape is Single ==> walk_request(walk_at(shape, selected, n)) == if n == 0 {
            OutputRequest::Whole
        } else {
            OutputRequest::Done
        },
{
}

} // verus!
