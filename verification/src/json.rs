//! The JSON value tree: a lossless decimal number type, the recursive
//! value type with its accessors, and the serializer for both.

use vstd::prelude::*;

use crate::text::{
    lemma_digits_len_le, pow10, push_decimal_digits, decimal_digit_count, push_new_line_indent,
    push_string, spec_digits, spec_new_line_indent, spec_quoted, spec_zeros,
};
use crate::traits::Serialize;

verus! {

/// A lossless decimal number: sign, integer magnitude, fractional digits
/// with an explicit digit count, and a power-of-ten exponent.
///
/// `fraction_length` records how many digits stand right of the decimal
/// point, which `fraction` alone cannot: `0.001` is held as `fraction == 1`
/// with `fraction_length == 3`.
#[derive(Debug, Clone, PartialEq, Copy)]
pub struct NumberValue {
    pub integer: u128,
    pub fraction: u128,
    pub fraction_length: u32,
    pub exponent: i32,
    pub negative: bool,
}

/// The magnitude of `x`.
pub open spec fn spec_abs(x: int) -> nat {
    if x < 0 {
        (-x) as nat
    } else {
        x as nat
    }
}

/// The byte text of a number: `-` iff negative; the decimal digits of the
/// integer part; if the fraction is non-zero, a `.` and the fraction digits
/// left-padded with zeros to `fraction_length`; if the exponent is
/// non-zero, `e`, a `-` for a negative exponent, and its magnitude.
pub open spec fn spec_number(n: NumberValue) -> Seq<u8> {
    (if n.negative {
        seq![45u8]
    } else {
        Seq::<u8>::empty()
    }) + spec_digits(n.integer as nat) + (if n.fraction > 0 {
        seq![46u8] + spec_zeros(
            (n.fraction_length as nat - spec_digits(n.fraction as nat).len()) as nat,
        ) + spec_digits(n.fraction as nat)
    } else {
        Seq::<u8>::empty()
    }) + (if n.exponent != 0 {
        seq![101u8] + (if n.exponent < 0 {
            seq![45u8]
        } else {
            Seq::<u8>::empty()
        }) + spec_digits(spec_abs(n.exponent as int))
    } else {
        Seq::<u8>::empty()
    })
}

/// Appends `.`, the zero padding that restores leading zeros, and the
/// digits of the fractional part.
#[verifier::loop_isolation(false)]
fn push_fraction(buffer: &mut Vec<u8>, fraction: u128, fraction_length: u32)
    requires
        fraction > 0,
        (fraction as nat) < pow10(fraction_length as nat),
    ensures
        final(buffer)@ == old(buffer)@ + seq![46u8] + spec_zeros(
            (fraction_length as nat - spec_digits(fraction as nat).len()) as nat,
        ) + spec_digits(fraction as nat),
{
    buffer.push(46u8);
    proof {
        if fraction_length == 0 {
            assert(pow10(0) == 1);
        }
        lemma_digits_len_le(fraction as nat, fraction_length as nat);
    }
    let digit_count = decimal_digit_count(fraction);
    let pad = fraction_length as usize - digit_count;
    let ghost mark = buffer@;
    let mut j: usize = 0;
    while j < pad
        invariant
            0 <= j <= pad,
            buffer@ == mark + spec_zeros(j as nat),
        decreases pad - j,
    {
        buffer.push(48u8);
        assert(buffer@ =~= mark + spec_zeros((j + 1) as nat));
        j = j + 1;
    }
    push_decimal_digits(buffer, fraction);
    assert(final(buffer)@ =~= old(buffer)@ + seq![46u8] + spec_zeros(
        (fraction_length as nat - spec_digits(fraction as nat).len()) as nat,
    ) + spec_digits(fraction as nat));
}

/// Appends `e`, a `-` for a negative exponent, and the decimal digits of
/// the exponent's magnitude.
fn push_exponent(buffer: &mut Vec<u8>, exponent: i32)
    requires
        exponent != 0,
    ensures
        final(buffer)@ == old(buffer)@ + seq![101u8] + (if exponent < 0 {
            seq![45u8]
        } else {
            Seq::<u8>::empty()
        }) + spec_digits(spec_abs(exponent as int)),
{
    buffer.push(101u8);
    if exponent < 0 {
        buffer.push(45u8);
    }
    let magnitude: u64 = if exponent < 0 {
        (-(exponent as i64)) as u64
    } else {
        exponent as u64
    };
    assert(magnitude as nat == spec_abs(exponent as int));
    push_decimal_digits(buffer, magnitude as u128);
    assert(final(buffer)@ =~= old(buffer)@ + seq![101u8] + (if exponent < 0 {
        seq![45u8]
    } else {
        Seq::<u8>::empty()
    }) + spec_digits(spec_abs(exponent as int)));
}

impl Serialize for NumberValue {
    /// The fraction digits must fit in `fraction_length` decimal places.
    open spec fn wf(&self) -> bool {
        (self.fraction as nat) < pow10(self.fraction_length as nat)
    }

    open spec fn depth(&self) -> nat {
        0
    }

    open spec fn encoded(&self, indent: nat, level: nat) -> Seq<u8> {
        spec_number(*self)
    }

    #[verifier::rlimit(100)]
    fn serialize_to(&self, buffer: &mut Vec<u8>, _indent: u32, _level: u32) {
        if self.negative {
            buffer.push(45u8);
        }
        assert(buffer@ =~= old(buffer)@ + (if self.negative {
            seq![45u8]
        } else {
            Seq::<u8>::empty()
        }));
        push_decimal_digits(buffer, self.integer);
        if self.fraction > 0 {
            push_fraction(buffer, self.fraction, self.fraction_length);
        }
        if self.exponent != 0 {
            push_exponent(buffer, self.exponent);
        }
        assert(final(buffer)@ =~= old(buffer)@ + spec_number(*self));
    }
}

/// An object's ordered key-value pairs; duplicate keys are permitted and
/// insertion order is preserved.
pub type JsonObject = Vec<(Vec<char>, JsonValue)>;

/// A JSON value: a recursive tagged union over objects, arrays, strings,
/// lossless numbers, booleans and null.
#[derive(Debug, PartialEq)]
pub enum JsonValue {
    Object(JsonObject),
    Array(Vec<JsonValue>),
    String(Vec<char>),
    Number(NumberValue),
    Boolean(bool),
    Null,
}

/// The mathematical model of a JSON tree: the same six variants over
/// sequences instead of vectors.
pub enum JsonModel {
    Object(Seq<(Seq<char>, JsonModel)>),
    Array(Seq<JsonModel>),
    String(Seq<char>),
    Number(NumberValue),
    Boolean(bool),
    Null,
}

/// The model of a tree of object entries.
pub open spec fn spec_entries_model(entries: Seq<(Vec<char>, JsonValue)>) -> Seq<
    (Seq<char>, JsonModel),
>
    decreases entries,
{
    if entries.len() == 0 {
        Seq::empty()
    } else {
        spec_entries_model(entries.drop_last()).push(
            (entries.last().0@, spec_model(entries.last().1)),
        )
    }
}

/// The model of a sequence of array items.
pub open spec fn spec_items_model(items: Seq<JsonValue>) -> Seq<JsonModel>
    decreases items,
{
    if items.len() == 0 {
        Seq::empty()
    } else {
        spec_items_model(items.drop_last()).push(spec_model(items.last()))
    }
}

/// The model of a value.
pub open spec fn spec_model(v: JsonValue) -> JsonModel
    decreases v,
{
    match v {
        JsonValue::Object(obj) => JsonModel::Object(spec_entries_model(obj@)),
        JsonValue::Array(arr) => JsonModel::Array(spec_items_model(arr@)),
        JsonValue::String(s) => JsonModel::String(s@),
        JsonValue::Number(n) => JsonModel::Number(n),
        JsonValue::Boolean(b) => JsonModel::Boolean(b),
        JsonValue::Null => JsonModel::Null,
    }
}

impl View for JsonValue {
    type V = JsonModel;

    open spec fn view(&self) -> JsonModel {
        spec_model(*self)
    }
}

/// The entry models stand in one-to-one correspondence with the entries.
pub proof fn lemma_entries_model(entries: Seq<(Vec<char>, JsonValue)>)
    ensures
        spec_entries_model(entries).len() == entries.len(),
        forall|i: int|
            0 <= i < entries.len() ==> #[trigger] spec_entries_model(entries)[i] == (
                entries[i].0@,
                spec_model(entries[i].1),
            ),
    decreases entries,
{
    if entries.len() > 0 {
        lemma_entries_model(entries.drop_last());
        assert forall|i: int| 0 <= i < entries.len() implies #[trigger] spec_entries_model(
            entries,
        )[i] == (entries[i].0@, spec_model(entries[i].1)) by {
            if i < entries.len() - 1 {
                assert(entries.drop_last()[i] == entries[i]);
            }
        }
    }
}

/// The item models stand in one-to-one correspondence with the items.
pub proof fn lemma_items_model(items: Seq<JsonValue>)
    ensures
        spec_items_model(items).len() == items.len(),
        forall|i: int|
            0 <= i < items.len() ==> #[trigger] spec_items_model(items)[i] == spec_model(
                items[i],
            ),
    decreases items,
{
    if items.len() > 0 {
        lemma_items_model(items.drop_last());
        assert forall|i: int| 0 <= i < items.len() implies #[trigger] spec_items_model(
            items,
        )[i] == spec_model(items[i]) by {
            if i < items.len() - 1 {
                assert(items.drop_last()[i] == items[i]);
            }
        }
    }
}

/// Every number in the tree satisfies the `NumberValue` invariant.
pub open spec fn spec_wf(m: JsonModel) -> bool
    decreases m,
{
    match m {
        JsonModel::Object(entries) => forall|i: int|
            0 <= i < entries.len() ==> spec_wf(#[trigger] entries[i].1),
        JsonModel::Array(items) => forall|i: int|
            0 <= i < items.len() ==> spec_wf(#[trigger] items[i]),
        JsonModel::Number(n) => (n.fraction as nat) < pow10(n.fraction_length as nat),
        _ => true,
    }
}

/// The nesting depth of a value: zero for leaves, one more than the
/// deepest child for objects and arrays.
pub open spec fn spec_depth(m: JsonModel) -> nat
    decreases m,
{
    match m {
        JsonModel::Object(entries) => 1 + spec_entries_depth(entries),
        JsonModel::Array(items) => 1 + spec_items_depth(items),
        _ => 0,
    }
}

/// The deepest value among an object's entries.
pub open spec fn spec_entries_depth(entries: Seq<(Seq<char>, JsonModel)>) -> nat
    decreases entries,
{
    if entries.len() == 0 {
        0
    } else {
        let rest = spec_entries_depth(entries.drop_last());
        let last = spec_depth(entries.last().1);
        if rest >= last {
            rest
        } else {
            last
        }
    }
}

/// The deepest value among an array's items.
pub open spec fn spec_items_depth(items: Seq<JsonModel>) -> nat
    decreases items,
{
    if items.len() == 0 {
        0
    } else {
        let rest = spec_items_depth(items.drop_last());
        let last = spec_depth(items.last());
        if rest >= last {
            rest
        } else {
            last
        }
    }
}

/// Each entry's value is at most as deep as the deepest entry.
pub proof fn lemma_entries_depth_le(entries: Seq<(Seq<char>, JsonModel)>, i: int)
    requires
        0 <= i < entries.len(),
    ensures
        spec_depth(entries[i].1) <= spec_entries_depth(entries),
    decreases entries,
{
    if i < entries.len() - 1 {
        assert(entries.drop_last()[i] == entries[i]);
        lemma_entries_depth_le(entries.drop_last(), i);
    }
}

/// Each item is at most as deep as the deepest item.
pub proof fn lemma_items_depth_le(items: Seq<JsonModel>, i: int)
    requires
        0 <= i < items.len(),
    ensures
        spec_depth(items[i]) <= spec_items_depth(items),
    decreases items,
{
    if i < items.len() - 1 {
        assert(items.drop_last()[i] == items[i]);
        lemma_items_depth_le(items.drop_last(), i);
    }
}

/// The byte text of a value: `{}`/`[]` for empty containers; otherwise the
/// bracketed, comma-separated entries or items with closing padding; quoted
/// strings; numbers; and the fixed literals `true`, `false` and `null`.
pub open spec fn spec_value(m: JsonModel, indent: nat, level: nat) -> Seq<u8>
    decreases m,
{
    match m {
        JsonModel::Object(entries) => {
            if entries.len() == 0 {
                seq![123u8, 125u8]
            } else {
                seq![123u8] + spec_entries(entries, indent, level) + spec_new_line_indent(
                    indent,
                    level,
                ) + seq![125u8]
            }
        },
        JsonModel::Array(items) => {
            if items.len() == 0 {
                seq![91u8, 93u8]
            } else {
                seq![91u8] + spec_items(items, indent, level) + spec_new_line_indent(
                    indent,
                    level,
                ) + seq![93u8]
            }
        },
        JsonModel::String(s) => spec_quoted(s),
        JsonModel::Number(n) => spec_number(n),
        JsonModel::Boolean(b) => {
            if b {
                seq![116u8, 114u8, 117u8, 101u8]
            } else {
                seq![102u8, 97u8, 108u8, 115u8, 101u8]
            }
        },
        JsonModel::Null => seq![110u8, 117u8, 108u8, 108u8],
    }
}

/// One object entry: padding, the quoted key, `:`, one space in pretty
/// mode, and the value one level deeper.
pub open spec fn spec_entry(entry: (Seq<char>, JsonModel), indent: nat, level: nat) -> Seq<u8>
    decreases entry,
{
    spec_new_line_indent(indent, level + 1) + spec_quoted(entry.0) + seq![58u8] + (if indent > 0 {
        seq![32u8]
    } else {
        Seq::<u8>::empty()
    }) + spec_value(entry.1, indent, level + 1)
}

/// An object's entries in order, separated by commas.
pub open spec fn spec_entries(entries: Seq<(Seq<char>, JsonModel)>, indent: nat, level: nat) -> Seq<
    u8,
>
    decreases entries,
{
    if entries.len() == 0 {
        Seq::empty()
    } else {
        spec_entries(entries.drop_last(), indent, level) + (if entries.len() > 1 {
            seq![44u8]
        } else {
            Seq::<u8>::empty()
        }) + spec_entry(entries.last(), indent, level)
    }
}

/// An array's items in order, each with its padding, separated by commas.
pub open spec fn spec_items(items: Seq<JsonModel>, indent: nat, level: nat) -> Seq<u8>
    decreases items,
{
    if items.len() == 0 {
        Seq::empty()
    } else {
        spec_items(items.drop_last(), indent, level) + (if items.len() > 1 {
            seq![44u8]
        } else {
            Seq::<u8>::empty()
        }) + spec_new_line_indent(indent, level + 1) + spec_value(items.last(), indent, level + 1)
    }
}

/// Extending a serialized run of entries by one entry.
pub proof fn lemma_entries_snoc(
    entries: Seq<(Seq<char>, JsonModel)>,
    i: int,
    indent: nat,
    level: nat,
)
    requires
        0 <= i < entries.len(),
    ensures
        spec_entries(entries.subrange(0, i + 1), indent, level) == spec_entries(
            entries.subrange(0, i),
            indent,
            level,
        ) + (if i > 0 {
            seq![44u8]
        } else {
            Seq::<u8>::empty()
        }) + spec_entry(entries[i], indent, level),
{
    let t = entries.subrange(0, i + 1);
    assert(t.drop_last() =~= entries.subrange(0, i));
    assert(t.last() == entries[i]);
}

/// Extending a serialized run of items by one item.
pub proof fn lemma_items_snoc(items: Seq<JsonModel>, i: int, indent: nat, level: nat)
    requires
        0 <= i < items.len(),
    ensures
        spec_items(items.subrange(0, i + 1), indent, level) == spec_items(
            items.subrange(0, i),
            indent,
            level,
        ) + (if i > 0 {
            seq![44u8]
        } else {
            Seq::<u8>::empty()
        }) + spec_new_line_indent(indent, level + 1) + spec_value(items[i], indent, level + 1),
{
    let t = items.subrange(0, i + 1);
    assert(t.drop_last() =~= items.subrange(0, i));
    assert(t.last() == items[i]);
}

impl JsonValue {
    /// Returns a boolean indicating whether this value is an object or not.
    pub fn is_object(&self) -> (r: bool)
        ensures
            r <==> self@ is Object,
    {
        match self {
            JsonValue::Object(_) => true,
            _ => false,
        }
    }

    /// Returns a reference to the key-value pairs if this value is an
    /// object, otherwise returns None.
    pub fn as_object(&self) -> (r: Option<&[(Vec<char>, JsonValue)]>)
        ensures
            r is Some <==> self@ is Object,
            r is Some ==> spec_entries_model(r->0@) == self@->Object_0,
    {
        match self {
            JsonValue::Object(obj) => Some(obj.as_slice()),
            _ => None,
        }
    }

    /// Returns the wrapped object if the value is an object, otherwise
    /// returns None.
    pub fn to_object(self) -> (r: Option<JsonObject>)
        ensures
            r is Some <==> self@ is Object,
            r is Some ==> spec_entries_model(r->0@) == self@->Object_0,
    {
        match self {
            JsonValue::Object(obj) => Some(obj),
            _ => None,
        }
    }

    /// Returns a boolean indicating whether this value is an array or not.
    pub fn is_array(&self) -> (r: bool)
        ensures
            r <==> self@ is Array,
    {
        match self {
            JsonValue::Array(_) => true,
            _ => false,
        }
    }

    /// Returns a reference to the wrapped array if this value is an array,
    /// otherwise returns None.
    pub fn as_array(&self) -> (r: Option<&[JsonValue]>)
        ensures
            r is Some <==> self@ is Array,
            r is Some ==> spec_items_model(r->0@) == self@->Array_0,
    {
        match self {
            JsonValue::Array(arr) => Some(arr.as_slice()),
            _ => None,
        }
    }

    /// Returns the wrapped vector if the value is an array, otherwise
    /// returns None.
    pub fn to_array(self) -> (r: Option<Vec<JsonValue>>)
        ensures
            r is Some <==> self@ is Array,
            r is Some ==> spec_items_model(r->0@) == self@->Array_0,
    {
        match self {
            JsonValue::Array(arr) => Some(arr),
            _ => None,
        }
    }

    /// Returns a boolean indicating whether this value is a string or not.
    pub fn is_string(&self) -> (r: bool)
        ensures
            r <==> self@ is String,
    {
        match self {
            JsonValue::String(_) => true,
            _ => false,
        }
    }

    /// Returns a char slice if this value is a string, otherwise returns
    /// None.
    pub fn as_string(&self) -> (r: Option<&[char]>)
        ensures
            r is Some <==> self@ is String,
            r is Some ==> r->0@ == self@->String_0,
    {
        match self {
            JsonValue::String(s) => Some(s.as_slice()),
            _ => None,
        }
    }

    /// Returns the wrapped vector if the value is a string, otherwise
    /// returns None.
    pub fn to_string(self) -> (r: Option<Vec<char>>)
        ensures
            r is Some <==> self@ is String,
            r is Some ==> r->0@ == self@->String_0,
    {
        match self {
            JsonValue::String(s) => Some(s),
            _ => None,
        }
    }

    /// Returns a boolean indicating whether this value is a number or not.
    pub fn is_number(&self) -> (r: bool)
        ensures
            r <==> self@ is Number,
    {
        match self {
            JsonValue::Number(_) => true,
            _ => false,
        }
    }

    /// Returns a reference to the wrapped `NumberValue` if this value is a
    /// number, otherwise returns None.
    pub fn as_number(&self) -> (r: Option<&NumberValue>)
        ensures
            r is Some <==> self@ is Number,
            r is Some ==> *r->0 == self@->Number_0,
    {
        match self {
            JsonValue::Number(n) => Some(n),
            _ => None,
        }
    }

    /// Returns the wrapped `NumberValue` if the value is a number,
    /// otherwise returns None.
    pub fn to_number(self) -> (r: Option<NumberValue>)
        ensures
            r is Some <==> self@ is Number,
            r is Some ==> r->0 == self@->Number_0,
    {
        match self {
            JsonValue::Number(n) => Some(n),
            _ => None,
        }
    }

    /// Returns a boolean indicating whether this value is a boolean or not.
    pub fn is_bool(&self) -> (r: bool)
        ensures
            r <==> self@ is Boolean,
    {
        match self {
            JsonValue::Boolean(_) => true,
            _ => false,
        }
    }

    /// Returns a reference to the wrapped boolean if this value is a
    /// boolean, otherwise returns None.
    pub fn as_bool(&self) -> (r: Option<&bool>)
        ensures
            r is Some <==> self@ is Boolean,
            r is Some ==> *r->0 == self@->Boolean_0,
    {
        match self {
            JsonValue::Boolean(b) => Some(b),
            _ => None,
        }
    }

    /// Returns the wrapped boolean if the value is a boolean, otherwise
    /// returns None.
    pub fn to_bool(self) -> (r: Option<bool>)
        ensures
            r is Some <==> self@ is Boolean,
            r is Some ==> r->0 == self@->Boolean_0,
    {
        match self {
            JsonValue::Boolean(b) => Some(b),
            _ => None,
        }
    }

    /// Returns a boolean indicating whether this value is null or not.
    pub fn is_null(&self) -> (r: bool)
        ensures
            r <==> self@ is Null,
    {
        match self {
            JsonValue::Null => true,
            _ => false,
        }
    }
}

/// Appending an entry extends the entry models by that entry's model.
pub proof fn lemma_entries_model_push(
    entries: Seq<(Vec<char>, JsonValue)>,
    entry: (Vec<char>, JsonValue),
)
    ensures
        spec_entries_model(entries.push(entry)) == spec_entries_model(entries).push(
            (entry.0@, spec_model(entry.1)),
        ),
{
    let t = entries.push(entry);
    assert(t.drop_last() =~= entries);
    assert(t.last() == entry);
}

/// Appending an item extends the item models by that item's model.
pub proof fn lemma_items_model_push(items: Seq<JsonValue>, item: JsonValue)
    ensures
        spec_items_model(items.push(item)) == spec_items_model(items).push(spec_model(item)),
{
    let t = items.push(item);
    assert(t.drop_last() =~= items);
    assert(t.last() == item);
}

/// Copies a character sequence.
fn clone_chars(chars: &Vec<char>) -> (out: Vec<char>)
    ensures
        out@ == chars@,
{
    let mut out: Vec<char> = Vec::new();
    let mut i: usize = 0;
    while i < chars.len()
        invariant
            0 <= i <= chars@.len(),
            out@ == chars@.subrange(0, i as int),
        decreases chars@.len() - i,
    {
        out.push(chars[i]);
        assert(out@ =~= chars@.subrange(0, i as int + 1));
        i = i + 1;
    }
    assert(chars@.subrange(0, chars@.len() as int) =~= chars@);
    out
}

impl Clone for JsonValue {
    /// A deep copy with the same model.
    #[verifier::loop_isolation(false)]
    fn clone(&self) -> (res: Self)
        ensures
            res@ == self@,
        decreases self,
    {
        match self {
            JsonValue::Object(obj) => {
                let mut out: JsonObject = Vec::new();
                let mut i: usize = 0;
                while i < obj.len()
                    invariant
                        0 <= i <= obj@.len(),
                        spec_entries_model(out@) == spec_entries_model(
                            obj@.subrange(0, i as int),
                        ),
                    decreases obj@.len() - i,
                {
                    let entry = &obj[i];
                    let key = clone_chars(&entry.0);
                    let val = entry.1.clone();
                    proof {
                        lemma_entries_model_push(out@, (key, val));
                        lemma_entries_model_push(obj@.subrange(0, i as int), obj@[i as int]);
                        assert(obj@.subrange(0, i as int + 1) =~= obj@.subrange(
                            0,
                            i as int,
                        ).push(obj@[i as int]));
                    }
                    out.push((key, val));
                    i = i + 1;
                }
                assert(obj@.subrange(0, obj@.len() as int) =~= obj@);
                JsonValue::Object(out)
            },
            JsonValue::Array(arr) => {
                let mut out: Vec<JsonValue> = Vec::new();
                let mut i: usize = 0;
                while i < arr.len()
                    invariant
                        0 <= i <= arr@.len(),
                        spec_items_model(out@) == spec_items_model(arr@.subrange(0, i as int)),
                    decreases arr@.len() - i,
                {
                    let item = arr[i].clone();
                    proof {
                        lemma_items_model_push(out@, item);
                        lemma_items_model_push(arr@.subrange(0, i as int), arr@[i as int]);
                        assert(arr@.subrange(0, i as int + 1) =~= arr@.subrange(0, i as int).push(
                            arr@[i as int],
                        ));
                    }
                    out.push(item);
                    i = i + 1;
                }
                assert(arr@.subrange(0, arr@.len() as int) =~= arr@);
                JsonValue::Array(out)
            },
            JsonValue::String(s) => JsonValue::String(clone_chars(s)),
            JsonValue::Number(n) => JsonValue::Number(*n),
            JsonValue::Boolean(b) => JsonValue::Boolean(*b),
            JsonValue::Null => JsonValue::Null,
        }
    }
}

impl Serialize for JsonValue {
    /// Every number in the tree satisfies the `NumberValue` invariant.
    open spec fn wf(&self) -> bool {
        spec_wf(self@)
    }

    open spec fn depth(&self) -> nat {
        spec_depth(self@)
    }

    open spec fn encoded(&self, indent: nat, level: nat) -> Seq<u8> {
        spec_value(self@, indent, level)
    }

    #[verifier::loop_isolation(false)]
    #[verifier::rlimit(100)]
    fn serialize_to(&self, buffer: &mut Vec<u8>, indent: u32, level: u32)
        decreases self,
    {
        match self {
            JsonValue::Object(obj) => {
                proof {
                    lemma_entries_model(obj@);
                }
                let ghost entries = spec_entries_model(obj@);
                buffer.push(123u8);
                if obj.len() > 0 {
                    let mut i: usize = 0;
                    assert(buffer@ =~= old(buffer)@ + seq![123u8] + spec_entries(
                        entries.subrange(0, 0),
                        indent as nat,
                        level as nat,
                    ));
                    while i < obj.len()
                        invariant
                            0 <= i <= obj@.len(),
                            buffer@ == old(buffer)@ + seq![123u8] + spec_entries(
                                entries.subrange(0, i as int),
                                indent as nat,
                                level as nat,
                            ),
                        decreases obj@.len() - i,
                    {
                        if i > 0 {
                            buffer.push(44u8);
                        }
                        push_new_line_indent(buffer, indent, level + 1);
                        let entry = &obj[i];
                        push_string(buffer, &entry.0);
                        buffer.push(58u8);
                        if indent > 0 {
                            buffer.push(32u8);
                        }
                        proof {
                            lemma_entries_depth_le(entries, i as int);
                        }
                        entry.1.serialize_to(buffer, indent, level + 1);
                        proof {
                            lemma_entries_snoc(entries, i as int, indent as nat, level as nat);
                        }
                        assert(buffer@ =~= old(buffer)@ + seq![123u8] + spec_entries(
                            entries.subrange(0, i as int + 1),
                            indent as nat,
                            level as nat,
                        ));
                        i = i + 1;
                    }
                    assert(entries.subrange(0, entries.len() as int) =~= entries);
                    push_new_line_indent(buffer, indent, level);
                    buffer.push(125u8);
                    assert(final(buffer)@ =~= old(buffer)@ + spec_value(
                        self@,
                        indent as nat,
                        level as nat,
                    ));
                } else {
                    buffer.push(125u8);
                    assert(final(buffer)@ =~= old(buffer)@ + spec_value(
                        self@,
                        indent as nat,
                        level as nat,
                    ));
                }
            },
            JsonValue::Array(arr) => {
                proof {
                    lemma_items_model(arr@);
                }
                let ghost items = spec_items_model(arr@);
                buffer.push(91u8);
                if arr.len() > 0 {
                    let mut i: usize = 0;
                    assert(buffer@ =~= old(buffer)@ + seq![91u8] + spec_items(
                        items.subrange(0, 0),
                        indent as nat,
                        level as nat,
                    ));
                    while i < arr.len()
                        invariant
                            0 <= i <= arr@.len(),
                            buffer@ == old(buffer)@ + seq![91u8] + spec_items(
                                items.subrange(0, i as int),
                                indent as nat,
                                level as nat,
                            ),
                        decreases arr@.len() - i,
                    {
                        if i > 0 {
                            buffer.push(44u8);
                        }
                        push_new_line_indent(buffer, indent, level + 1);
                        proof {
                            lemma_items_depth_le(items, i as int);
                        }
                        let item = &arr[i];
                        item.serialize_to(buffer, indent, level + 1);
                        proof {
                            lemma_items_snoc(items, i as int, indent as nat, level as nat);
                        }
                        assert(buffer@ =~= old(buffer)@ + seq![91u8] + spec_items(
                            items.subrange(0, i as int + 1),
                            indent as nat,
                            level as nat,
                        ));
                        i = i + 1;
                    }
                    assert(items.subrange(0, items.len() as int) =~= items);
                    push_new_line_indent(buffer, indent, level);
                    buffer.push(93u8);
                    assert(final(buffer)@ =~= old(buffer)@ + spec_value(
                        self@,
                        indent as nat,
                        level as nat,
                    ));
                } else {
                    buffer.push(93u8);
                    assert(final(buffer)@ =~= old(buffer)@ + spec_value(
                        self@,
                        indent as nat,
                        level as nat,
                    ));
                }
            },
            JsonValue::String(s) => {
                push_string(buffer, s);
            },
            JsonValue::Number(num) => {
                num.serialize_to(buffer, indent, level);
            },
            JsonValue::Boolean(b) => {
                if *b {
                    buffer.push(116u8);
                    buffer.push(114u8);
                    buffer.push(117u8);
                    buffer.push(101u8);
                } else {
                    buffer.push(102u8);
                    buffer.push(97u8);
                    buffer.push(108u8);
                    buffer.push(115u8);
                    buffer.push(101u8);
                }
                assert(final(buffer)@ =~= old(buffer)@ + spec_value(
                    self@,
                    indent as nat,
                    level as nat,
                ));
            },
            JsonValue::Null => {
                buffer.push(110u8);
                buffer.push(117u8);
                buffer.push(108u8);
                buffer.push(108u8);
                assert(final(buffer)@ =~= old(buffer)@ + spec_value(
                    self@,
                    indent as nat,
                    level as nat,
                ));
            },
        }
    }
}

} // verus!
