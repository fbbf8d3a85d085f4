//! How metadata values compare and are made, how hooks are named, and how numbers and lists
//! are written.
use vstd::prelude::*;
use crate::errors::{fault_text, FaultKind};
use crate::hooks::{derived_name, hook_func, rebind_fault, PyHook};
use crate::log_capture::captured_text;
use crate::metadata::{
    coerced, is_nan, is_raw, lists_equal, magnitude, same_number, value_repr, values_equal, values_repr,
    HostValue, MetadataValue, RawValue,
};
use crate::text::{
    decimal, digit, in_order, joined, lemma_sorted_texts, quoted, signed_decimal, sorted_texts,
    text_at_most, text_before,
};

verus! {

/// Two numbers are the same where they have the same bits, or are both zero; one that is
/// not a number is the same as none.
pub proof fn lemma_same_number(a: u64, b: u64)
    ensures
        same_number(a, b) == same_number(b, a),
        same_number(a, a) <==> !is_nan(a),
        is_nan(a) || is_nan(b) ==> !same_number(a, b),
        same_number(a, b) && a != b ==> magnitude(a) == 0 && magnitude(b) == 0,
        magnitude(a) == 0 && magnitude(b) == 0 ==> same_number(a, b),
        a == b && !is_nan(a) ==> same_number(a, b),
{
}

/// Two lists are equal where they are as long and equal place by place.
pub proof fn lemma_lists_equal(a: Vec<MetadataValue>, b: Vec<MetadataValue>)
    ensures
        values_equal(MetadataValue::List { values: a }, MetadataValue::List { values: b })
            <==> a@.len() == b@.len() && forall|i: int|
            0 <= i < a@.len() ==> values_equal(#[trigger] a@[i], b@[i]),
{
    lemma_places_equal(a@, b@);
    assert(values_equal(MetadataValue::List { values: a }, MetadataValue::List { values: b }) == (
    a@.len() == b@.len() && lists_equal(a@, b@)));
}

proof fn lemma_places_equal(a: Seq<MetadataValue>, b: Seq<MetadataValue>)
    ensures
        lists_equal(a, b) <==> a.len() == 0 || (b.len() >= a.len() && forall|i: int|
            0 <= i < a.len() ==> values_equal(#[trigger] a[i], b[i])),
    decreases a.len(),
{
    if a.len() > 0 {
        let w = a.drop_last();
        lemma_places_equal(w, b);
        if lists_equal(a, b) {
            assert forall|i: int| 0 <= i < a.len() implies values_equal(#[trigger] a[i], b[i]) by {
                if i < w.len() {
                    assert(w[i] == a[i]);
                }
            }
        }
        if b.len() >= a.len() && forall|i: int|
            0 <= i < a.len() ==> values_equal(#[trigger] a[i], b[i]) {
            assert forall|i: int| 0 <= i < w.len() implies values_equal(#[trigger] w[i], b[i]) by {
                assert(w[i] == a[i]);
            }
            assert(values_equal(a[a.len() - 1], b[a.len() - 1]));
        }
    }
}

/// Whether a value equals another does not depend on which is asked.
pub proof fn lemma_values_symmetric(a: MetadataValue, b: MetadataValue)
    ensures
        values_equal(a, b) == values_equal(b, a),
    decreases a,
{
    match (a, b) {
        (MetadataValue::List { values: x }, MetadataValue::List { values: y }) => {
            lemma_lists_equal(x, y);
            lemma_lists_equal(y, x);
            if x@.len() == y@.len() {
                assert forall|i: int| 0 <= i < x@.len() implies values_equal(x@[i], y@[i])
                    == values_equal(y@[i], x@[i]) by {
                    crate::metadata::lemma_value_decreases(a, i);
                    lemma_values_symmetric(x@[i], y@[i]);
                }
                if values_equal(a, b) {
                    assert forall|i: int| 0 <= i < y@.len() implies values_equal(
                        #[trigger] y@[i],
                        x@[i],
                    ) by {
                        assert(values_equal(x@[i], y@[i]));
                    }
                }
                if values_equal(b, a) {
                    assert forall|i: int| 0 <= i < x@.len() implies values_equal(
                        #[trigger] x@[i],
                        y@[i],
                    ) by {
                        assert(values_equal(y@[i], x@[i]));
                    }
                }
            }
        },
        _ => {},
    }
}

/// Whether two hints are the same: both left out, or both the same text.
pub open spec fn same_hint(a: Option<String>, b: Option<String>) -> bool {
    (a is Some <==> b is Some) && (a is Some && b is Some ==> a->0@ == b->0@)
}

/// Values of different kinds are never equal, texts and whole numbers are equal where they
/// are the same, and of a query or a code block the hint counts too.
pub proof fn lemma_values_kinds(a: MetadataValue, b: MetadataValue)
    ensures
        values_equal(a, b) ==> (a is Text <==> b is Text) && (a is Int <==> b is Int) && (a is Float
            <==> b is Float) && (a is Bool <==> b is Bool) && (a is Url <==> b is Url) && (a is Path
            <==> b is Path) && (a is Json <==> b is Json) && (a is Markdown <==> b is Markdown) && (
        a is Timestamp <==> b is Timestamp) && (a is Null <==> b is Null) && (a is Bytes
            <==> b is Bytes) && (a is Duration <==> b is Duration) && (a is Sql <==> b is Sql) && (
        a is CodeBlock <==> b is CodeBlock) && (a is Image <==> b is Image) && (a is Percentage
            <==> b is Percentage) && (a is List <==> b is List) && (a is DateRange
            <==> b is DateRange) && (a is Schema <==> b is Schema) && (a is DataVersion
            <==> b is DataVersion),
        a is Text && b is Text ==> (values_equal(a, b) <==> a->Text_value@ == b->Text_value@),
        a is Url && b is Url ==> (values_equal(a, b) <==> a->Url_value@ == b->Url_value@),
        a is Int && b is Int ==> (values_equal(a, b) <==> a->Int_value == b->Int_value),
        a is Bool && b is Bool ==> (values_equal(a, b) <==> a->Bool_value == b->Bool_value),
        a is Bytes && b is Bytes ==> (values_equal(a, b) <==> a->Bytes_value == b->Bytes_value),
        a is Null && b is Null ==> values_equal(a, b),
        a is DataVersion && b is DataVersion ==> (values_equal(a, b) <==> a->DataVersion_value@
            == b->DataVersion_value@),
        a is DateRange && b is DateRange ==> (values_equal(a, b) <==> a->start.at()
            == b->start.at() && a->end.at() == b->end.at()),
        a is Schema && b is Schema ==> (values_equal(a, b) <==> a->ipc_bytes@ == b->ipc_bytes@),
        a is Sql && b is Sql ==> (values_equal(a, b) <==> a->query@ == b->query@ && same_hint(
            a->dialect,
            b->dialect,
        )),
        a is CodeBlock && b is CodeBlock ==> (values_equal(a, b) <==> a->code@ == b->code@
            && same_hint(a->language, b->language)),
        a is Path && b is Path ==> (values_equal(a, b) <==> a->Path_value@ == b->Path_value@),
        a is Json && b is Json ==> (values_equal(a, b) <==> a->Json_value@ == b->Json_value@),
        a is Markdown && b is Markdown ==> (values_equal(a, b) <==> a->Markdown_value@
            == b->Markdown_value@),
        a is Image && b is Image ==> (values_equal(a, b) <==> a->Image_value@ == b->Image_value@),
        a is Float && b is Float ==> values_equal(a, b) == same_number(
            a->Float_value.bits,
            b->Float_value.bits,
        ),
        a is Timestamp && b is Timestamp ==> values_equal(a, b) == same_number(
            a->Timestamp_value.bits,
            b->Timestamp_value.bits,
        ),
        a is Duration && b is Duration ==> values_equal(a, b) == same_number(
            a->Duration_value.bits,
            b->Duration_value.bits,
        ),
        a is Percentage && b is Percentage ==> values_equal(a, b) == same_number(
            a->Percentage_value.bits,
            b->Percentage_value.bits,
        ),
{
}

/// What a host value becomes: itself where it is one already, else by the first kind it is
/// of. A truth value comes before a whole number, that before any other number.
pub proof fn lemma_coerced(v: HostValue)
    ensures
        ({
            let r = coerced(v);
            let own = v.metadata is Some;
            let truth = !own && v.boolean is Some;
            let whole = !own && !truth && v.integer is Some;
            let number = !own && !truth && !whole && v.real is Some;
            let text = !own && !truth && !whole && !number && v.text is Some;
            let none = !own && !truth && !whole && !number && !text && v.is_none;
            let rest = !own && !truth && !whole && !number && !text && !none;
            &&& own ==> r is Ok && r->Ok_0 == v.metadata->0
            &&& truth ==> r is Ok && r->Ok_0 == (MetadataValue::Bool { value: v.boolean->0 })
            &&& whole ==> r is Ok && r->Ok_0 == (MetadataValue::Int { value: v.integer->0 })
            &&& number ==> r is Ok && r->Ok_0 == (MetadataValue::Float { value: v.real->0 })
            &&& text ==> r is Ok && r->Ok_0 == (MetadataValue::Text { value: v.text->0 })
            &&& none ==> r is Ok && r->Ok_0 is Null
            &&& rest ==> (r is Ok <==> v.schema is Some && v.schema->0 is Ok)
            &&& rest && r is Ok ==> r->Ok_0 is Schema && r->Ok_0->ipc_bytes == (
            v.schema->0->Ok_0).0
            &&& rest && v.schema is None ==> r->Err_0.0 == FaultKind::Type
            &&& rest && v.schema is Some && v.schema->0 is Err ==> r->Err_0 == v.schema->0->Err_0@
        }),
{
}

/// A hook goes by the name it is given, else by that of its function.
pub proof fn lemma_hook_name(func: Option<Seq<char>>, name: Option<Seq<char>>)
    ensures
        name is Some ==> derived_name(func, name) == name->0,
        name is None && func is Some ==> derived_name(func, name) == func->0,
        name is None && func is None ==> derived_name(func, name).len() == 0,
{
}

/// A hook can be bound once, and to exactly one function.
pub proof fn lemma_hook_bound(h: PyHook, args: nat)
    ensures
        rebind_fault(h, args) is None <==> hook_func(h) is None && args == 1,
        rebind_fault(h, args) is Some ==> (rebind_fault(h, args)->0).0
            == FaultKind::AssetDefinition,
{
}

/// The text of a capture is that of its bytes; without bytes, and where they are no text,
/// there is none.
pub proof fn lemma_captured(c: Option<Seq<u8>>)
    ensures
        c is None ==> captured_text(c).len() == 0,
        c is Some && !vstd::utf8::valid_utf8(c->0) ==> captured_text(c).len() == 0,
        c is Some && vstd::utf8::valid_utf8(c->0) ==> captured_text(c) == vstd::utf8::decode_utf8(
            c->0,
        ),
{
}

/// The number that a row of digits stands for.
pub open spec fn number_of(s: Seq<char>) -> int
    decreases s.len(),
{
    if s.len() == 0 {
        0
    } else {
        10 * number_of(s.drop_last()) + (s.last() as int - '0' as int)
    }
}

/// The decimal form of a number stands for it, has only digits, and begins with none that
/// could be left out.
pub proof fn lemma_decimal(n: nat)
    ensures
        number_of(decimal(n)) == n,
        decimal(n).len() > 0,
        forall|i: int| 0 <= i < decimal(n).len() ==> '0' <= #[trigger] decimal(n)[i] <= '9',
        n > 0 ==> decimal(n)[0] != '0',
    decreases n,
{
    let d = digit(n % 10);
    if n < 10 {
        assert(decimal(n).drop_last() =~= Seq::empty());
        assert(number_of(Seq::<char>::empty()) == 0);
    } else {
        lemma_decimal(n / 10);
        assert(decimal(n).drop_last() =~= decimal(n / 10));
        assert(decimal(n)[0] == decimal(n / 10)[0]);
    }
}

/// A negative number has a minus sign before its size, any other stands alone.
pub proof fn lemma_signed_decimal(n: int)
    ensures
        n >= 0 ==> number_of(signed_decimal(n)) == n,
        n < 0 ==> signed_decimal(n)[0] == '-' && number_of(signed_decimal(n).skip(1)) == -n,
{
    if n >= 0 {
        lemma_decimal(n as nat);
    } else {
        lemma_decimal((-n) as nat);
        assert(signed_decimal(n).skip(1) =~= decimal((-n) as nat));
    }
}

/// A list is written with the separator between its texts, and nowhere else.
pub proof fn lemma_joined(v: Seq<Seq<char>>, x: Seq<char>, sep: Seq<char>)
    ensures
        joined(Seq::empty(), sep).len() == 0,
        joined(seq![x], sep) == x,
        v.len() > 0 ==> joined(v.push(x), sep) == joined(v, sep) + sep + x,
{
    assert(v.push(x).drop_last() =~= v);
}

/// The plain value of a metadata value: its text, its number, its truth value, or its list.
pub proof fn lemma_raw(v: MetadataValue, r: RawValue<'_>)
    requires
        is_raw(v, r),
    ensures
        r is Text <==> v is Text || v is Url || v is Path || v is Json || v is Markdown || v is Image
            || v is Sql || v is CodeBlock || v is DataVersion,
        r is Float <==> v is Float || v is Timestamp || v is Duration || v is Percentage,
        r is Int <==> v is Int,
        r is Bool <==> v is Bool,
        r is Null <==> v is Null,
        r is Bytes <==> v is Bytes,
        r is List <==> v is List,
        v is Text ==> r->Text_0@ == v->Text_value@,
        v is Url ==> r->Text_0@ == v->Url_value@,
        v is Sql ==> r->Text_0@ == v->query@,
        v is CodeBlock ==> r->Text_0@ == v->code@,
        v is DataVersion ==> r->Text_0@ == v->DataVersion_value@,
        v is Int ==> r->Int_0 == v->Int_value,
        v is Bool ==> r->Bool_0 == v->Bool_value,
        v is Bytes ==> r->Bytes_0 == v->Bytes_value,
        v is List ==> *r->List_0 == v->values,
        v is Float ==> *r->Float_0 == v->Float_value,
{
}

/// How a metadata value is printed: by its kind, and by its text or number; a list prints
/// its values one after the other.
pub proof fn lemma_value_printed(v: MetadataValue, s: Seq<MetadataValue>, x: MetadataValue)
    ensures
        v is Text ==> value_repr(v) == "MetadataValue.text("@ + quoted(v->Text_value@) + ")"@,
        v is Int ==> value_repr(v) == "MetadataValue.int("@ + signed_decimal(v->Int_value as int)
            + ")"@,
        v is Url ==> value_repr(v) == "MetadataValue.url("@ + quoted(v->Url_value@) + ")"@,
        v is Path ==> value_repr(v) == "MetadataValue.path("@ + quoted(v->Path_value@) + ")"@,
        v is Json ==> value_repr(v) == "MetadataValue.json("@ + quoted(v->Json_value@) + ")"@,
        v is Markdown ==> value_repr(v) == "MetadataValue.md("@ + quoted(v->Markdown_value@) + ")"@,
        v is Null ==> value_repr(v) == "MetadataValue.null()"@,
        v is Bytes ==> value_repr(v) == "MetadataValue.bytes("@ + decimal(v->Bytes_value as nat)
            + ")"@,
        v is DataVersion ==> value_repr(v) == "MetadataValue.data_version("@ + quoted(
            v->DataVersion_value@,
        ) + ")"@,
        v is List ==> value_repr(v) == "MetadataValue.list_(["@ + joined(
            values_repr(v->values@),
            ", "@,
        ) + "])"@,
        values_repr(Seq::empty()).len() == 0,
        values_repr(s.push(x)) == values_repr(s).push(value_repr(x)),
{
    assert(s.push(x).drop_last() =~= s);
}

/// Texts are ordered by the first character in which they differ, and a text comes before
/// every longer one that begins with it.
pub proof fn lemma_text_order(a: Seq<char>, x: char, y: char, b: Seq<char>, c: Seq<char>)
    ensures
        x < y ==> text_before(a + seq![x] + b, a + seq![y] + c),
        b.len() > 0 ==> text_before(a, a + b),
        !text_before(a + b, a),
    decreases a.len(),
{
    let l = a + seq![x] + b;
    let r = a + seq![y] + c;
    if a.len() > 0 {
        let w = a.drop_first();
        lemma_text_order(w, x, y, b, c);
        assert(l.drop_first() =~= w + seq![x] + b);
        assert(r.drop_first() =~= w + seq![y] + c);
        assert((a + b).drop_first() =~= w + b);
        assert(l[0] == a[0] && r[0] == a[0] && (a + b)[0] == a[0]);
    } else {
        assert(l[0] == x && r[0] == y);
    }
}

/// A list that is put in order has the same texts, as often as before, and none of them
/// comes before the one that stands ahead of it.
pub proof fn lemma_put_in_order(v: Seq<Seq<char>>, i: int, j: int)
    requires
        0 <= i < j < sorted_texts(v).len(),
    ensures
        !text_before(sorted_texts(v)[j], sorted_texts(v)[i]),
        sorted_texts(v).to_multiset() == v.to_multiset(),
{
    lemma_sorted_texts(v);
    lemma_ordered_apart(sorted_texts(v), i, j);
}

proof fn lemma_ordered_apart(v: Seq<Seq<char>>, i: int, j: int)
    requires
        in_order(v),
        0 <= i < j < v.len(),
    ensures
        !text_before(v[j], v[i]),
{
    assert(text_at_most(v[i], v[j]));
}

/// A fault says the name of its class and its message.
pub proof fn lemma_fault_text(message: Seq<char>)
    ensures
        fault_text((FaultKind::Definition, message)) == "PartitionDefinitionError"@ + ": "@
            + message,
        fault_text((FaultKind::Validation, message)) == "PartitionValidationError"@ + ": "@
            + message,
        fault_text((FaultKind::Execution, message)) == "ExecutionError"@ + ": "@ + message,
        fault_text((FaultKind::Configuration, message)) == "ConfigurationError"@ + ": "@ + message,
        fault_text((FaultKind::NodeNotFound, message)) == "NodeNotFoundError"@ + ": "@ + message,
        fault_text((FaultKind::GraphValidation, message)) == "GraphValidationError"@ + ": "@
            + message,
        fault_text((FaultKind::Type, message)) == "TypeError"@ + ": "@ + message,
        fault_text((FaultKind::Value, message)) == "ValueError"@ + ": "@ + message,
        fault_text((FaultKind::Key, message)) == "KeyError"@ + ": "@ + message,
        fault_text((FaultKind::Metadata, message)) == "InvalidMetadataError"@ + ": "@ + message,
        fault_text((FaultKind::AssetDefinition, message)) == "AssetDefinitionError"@ + ": "@
            + message,
        fault_text((FaultKind::OutputValidation, message)) == "AssetOutputValidationError"@ + ": "@
            + message,
{
}

} // verus!
