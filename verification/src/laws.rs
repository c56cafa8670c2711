//! General properties of the serializer, stated and proved once over the
//! model: the shape of pretty padding, and the level-independence of the
//! compact form.

use vstd::prelude::*;

use crate::json::{
    spec_abs, spec_entries, spec_entry, spec_items, spec_number, spec_value, JsonModel,
    NumberValue,
};
use crate::text::{
    spec_digits, spec_escaped, spec_escaped_char, spec_new_line_indent, spec_quoted, spec_spaces,
    spec_zeros,
};

verus! {

/// Padding consists of spaces alone, and exactly `n` of them.
pub proof fn lemma_spaces_bytes(n: nat)
    ensures
        spec_spaces(n).len() == n,
        forall|i: int| 0 <= i < n ==> spec_spaces(n)[i] == 32u8,
    decreases n,
{
    if n > 0 {
        lemma_spaces_bytes((n - 1) as nat);
    }
}

/// Pretty mode writes one newline followed by exactly `indent * level`
/// spaces; compact mode writes nothing at all.
pub proof fn lemma_new_line_indent_shape(indent: nat, level: nat)
    ensures
        indent == 0 ==> spec_new_line_indent(indent, level) == Seq::<u8>::empty(),
        indent > 0 ==> spec_new_line_indent(indent, level).len() == 1 + indent * level,
        indent > 0 ==> spec_new_line_indent(indent, level)[0] == 10u8,
        indent > 0 ==> forall|i: int|
            1 <= i < 1 + indent * level ==> spec_new_line_indent(indent, level)[i] == 32u8,
{
    lemma_spaces_bytes(indent * level);
    if indent == 0 {
        assert(spec_new_line_indent(indent, level) =~= Seq::<u8>::empty());
    }
}

/// The compact form of a value does not depend on the nesting level.
pub proof fn lemma_compact_level_independent(m: JsonModel, l1: nat, l2: nat)
    ensures
        spec_value(m, 0, l1) == spec_value(m, 0, l2),
    decreases m,
{
    match m {
        JsonModel::Object(entries) => {
            if entries.len() > 0 {
                lemma_compact_entries_level_independent(entries, l1, l2);
                assert(spec_new_line_indent(0, l1) =~= spec_new_line_indent(0, l2));
            }
        },
        JsonModel::Array(items) => {
            if items.len() > 0 {
                lemma_compact_items_level_independent(items, l1, l2);
                assert(spec_new_line_indent(0, l1) =~= spec_new_line_indent(0, l2));
            }
        },
        _ => {},
    }
}

/// The compact form of an object's entries does not depend on the nesting
/// level.
pub proof fn lemma_compact_entries_level_independent(
    entries: Seq<(Seq<char>, JsonModel)>,
    l1: nat,
    l2: nat,
)
    ensures
        spec_entries(entries, 0, l1) == spec_entries(entries, 0, l2),
    decreases entries,
{
    if entries.len() > 0 {
        lemma_compact_entries_level_independent(entries.drop_last(), l1, l2);
        lemma_compact_level_independent(entries.last().1, l1 + 1, l2 + 1);
        assert(spec_new_line_indent(0, l1 + 1) =~= spec_new_line_indent(0, l2 + 1));
        assert(spec_entry(entries.last(), 0, l1) == spec_entry(entries.last(), 0, l2));
    }
}

/// The compact form of an array's items does not depend on the nesting
/// level.
pub proof fn lemma_compact_items_level_independent(items: Seq<JsonModel>, l1: nat, l2: nat)
    ensures
        spec_items(items, 0, l1) == spec_items(items, 0, l2),
    decreases items,
{
    if items.len() > 0 {
        lemma_compact_items_level_independent(items.drop_last(), l1, l2);
        lemma_compact_level_independent(items.last(), l1 + 1, l2 + 1);
        assert(spec_new_line_indent(0, l1 + 1) =~= spec_new_line_indent(0, l2 + 1));
    }
}

/// True when no byte of `s` is a newline.
pub open spec fn no_newline(s: Seq<u8>) -> bool {
    forall|i: int| 0 <= i < s.len() ==> s[i] != 10u8
}

/// Freedom from newlines is preserved by concatenation.
pub proof fn lemma_no_newline_concat(a: Seq<u8>, b: Seq<u8>)
    requires
        no_newline(a),
        no_newline(b),
    ensures
        no_newline(a + b),
{
    assert forall|i: int| 0 <= i < (a + b).len() implies (a + b)[i] != 10u8 by {
        if i < a.len() {
            assert((a + b)[i] == a[i]);
        } else {
            assert((a + b)[i] == b[i - a.len()]);
        }
    }
}

/// Decimal digits hold no newline.
pub proof fn lemma_digits_no_newline(n: nat)
    ensures
        no_newline(spec_digits(n)),
    decreases n,
{
    if n >= 10 {
        lemma_digits_no_newline(n / 10);
        lemma_no_newline_concat(spec_digits(n / 10), seq![(48 + n % 10) as u8]);
    }
}

/// Zero padding holds no newline.
pub proof fn lemma_zeros_no_newline(n: nat)
    ensures
        no_newline(spec_zeros(n)),
    decreases n,
{
    if n > 0 {
        lemma_zeros_no_newline((n - 1) as nat);
    }
}

/// The escaped form of a character holds no newline byte: the newline
/// character itself is written as the two-byte escape, and every byte of a
/// multi-byte UTF-8 encoding has its high bit set.
pub proof fn lemma_escaped_char_no_newline(c: char)
    ensures
        no_newline(spec_escaped_char(c)),
{
    if c == '\u{8}' || c == '\u{c}' || c == '\n' || c == '\r' || c == '\t' || c == '"'
        || c == '\\' {
    } else {
        let x = c as u32;
        vstd::utf8::char_is_scalar(c);
        if x <= 0x7F {
            assert(x & 0x7F == x) by (bit_vector)
                requires
                    x <= 0x7F,
            ;
            if x == 10 {
                vstd::utf8::char_u32_cast(c, 10);
                vstd::utf8::char_u32_cast('\n', 10);
                assert(false);
            }
        } else {
            assert((0xC0u8 | (((x >> 6) & 0x1F) as u8)) >= 0x80) by (bit_vector);
            assert((0xE0u8 | (((x >> 12) & 0x0F) as u8)) >= 0x80) by (bit_vector);
            assert((0xF0u8 | (((x >> 18) & 0x7) as u8)) >= 0x80) by (bit_vector);
            assert((0x80u8 | ((x & 0x3F) as u8)) >= 0x80) by (bit_vector);
            assert((0x80u8 | (((x >> 6) & 0x3F) as u8)) >= 0x80) by (bit_vector);
            assert((0x80u8 | (((x >> 12) & 0x3F) as u8)) >= 0x80) by (bit_vector);
        }
    }
}

/// An escaped character sequence holds no newline.
pub proof fn lemma_escaped_no_newline(s: Seq<char>)
    ensures
        no_newline(spec_escaped(s)),
    decreases s.len(),
{
    if s.len() > 0 {
        lemma_escaped_no_newline(s.drop_last());
        lemma_escaped_char_no_newline(s.last());
        lemma_no_newline_concat(spec_escaped(s.drop_last()), spec_escaped_char(s.last()));
    }
}

/// A quoted string literal holds no newline.
pub proof fn lemma_quoted_no_newline(s: Seq<char>)
    ensures
        no_newline(spec_quoted(s)),
{
    lemma_escaped_no_newline(s);
    lemma_no_newline_concat(seq![34u8], spec_escaped(s));
    lemma_no_newline_concat(seq![34u8] + spec_escaped(s), seq![34u8]);
}

/// A serialized number holds no newline.
pub proof fn lemma_number_no_newline(n: NumberValue)
    ensures
        no_newline(spec_number(n)),
{
    let sign = if n.negative {
        seq![45u8]
    } else {
        Seq::<u8>::empty()
    };
    let frac = if n.fraction > 0 {
        seq![46u8] + spec_zeros(
            (n.fraction_length as nat - spec_digits(n.fraction as nat).len()) as nat,
        ) + spec_digits(n.fraction as nat)
    } else {
        Seq::<u8>::empty()
    };
    let exp = if n.exponent != 0 {
        seq![101u8] + (if n.exponent < 0 {
            seq![45u8]
        } else {
            Seq::<u8>::empty()
        }) + spec_digits(spec_abs(n.exponent as int))
    } else {
        Seq::<u8>::empty()
    };
    lemma_digits_no_newline(n.integer as nat);
    if n.fraction > 0 {
        lemma_zeros_no_newline(
            (n.fraction_length as nat - spec_digits(n.fraction as nat).len()) as nat,
        );
        lemma_digits_no_newline(n.fraction as nat);
        lemma_no_newline_concat(
            seq![46u8],
            spec_zeros((n.fraction_length as nat - spec_digits(n.fraction as nat).len()) as nat),
        );
        lemma_no_newline_concat(
            seq![46u8] + spec_zeros(
                (n.fraction_length as nat - spec_digits(n.fraction as nat).len()) as nat,
            ),
            spec_digits(n.fraction as nat),
        );
    }
    if n.exponent != 0 {
        lemma_digits_no_newline(spec_abs(n.exponent as int));
        let esign = if n.exponent < 0 {
            seq![45u8]
        } else {
            Seq::<u8>::empty()
        };
        lemma_no_newline_concat(seq![101u8], esign);
        lemma_no_newline_concat(seq![101u8] + esign, spec_digits(spec_abs(n.exponent as int)));
    }
    lemma_no_newline_concat(sign, spec_digits(n.integer as nat));
    lemma_no_newline_concat(sign + spec_digits(n.integer as nat), frac);
    lemma_no_newline_concat(sign + spec_digits(n.integer as nat) + frac, exp);
}

/// The compact form of a value never contains a newline byte: every line
/// break in the output comes from pretty mode alone.
pub proof fn lemma_compact_no_newline(m: JsonModel, level: nat)
    ensures
        no_newline(spec_value(m, 0, level)),
    decreases m,
{
    match m {
        JsonModel::Object(entries) => {
            if entries.len() > 0 {
                lemma_compact_entries_no_newline(entries, level);
                lemma_new_line_indent_shape(0, level);
                lemma_no_newline_concat(seq![123u8], spec_entries(entries, 0, level));
                lemma_no_newline_concat(
                    seq![123u8] + spec_entries(entries, 0, level),
                    spec_new_line_indent(0, level),
                );
                lemma_no_newline_concat(
                    seq![123u8] + spec_entries(entries, 0, level) + spec_new_line_indent(0, level),
                    seq![125u8],
                );
            }
        },
        JsonModel::Array(items) => {
            if items.len() > 0 {
                lemma_compact_items_no_newline(items, level);
                lemma_new_line_indent_shape(0, level);
                lemma_no_newline_concat(seq![91u8], spec_items(items, 0, level));
                lemma_no_newline_concat(
                    seq![91u8] + spec_items(items, 0, level),
                    spec_new_line_indent(0, level),
                );
                lemma_no_newline_concat(
                    seq![91u8] + spec_items(items, 0, level) + spec_new_line_indent(0, level),
                    seq![93u8],
                );
            }
        },
        JsonModel::String(s) => {
            lemma_quoted_no_newline(s);
        },
        JsonModel::Number(n) => {
            lemma_number_no_newline(n);
        },
        _ => {},
    }
}

/// The compact form of an object's entries never contains a newline byte.
pub proof fn lemma_compact_entries_no_newline(
    entries: Seq<(Seq<char>, JsonModel)>,
    level: nat,
)
    ensures
        no_newline(spec_entries(entries, 0, level)),
    decreases entries,
{
    if entries.len() > 0 {
        let entry = entries.last();
        lemma_compact_entries_no_newline(entries.drop_last(), level);
        lemma_compact_no_newline(entry.1, level + 1);
        lemma_quoted_no_newline(entry.0);
        lemma_new_line_indent_shape(0, level + 1);
        lemma_no_newline_concat(spec_new_line_indent(0, level + 1), spec_quoted(entry.0));
        lemma_no_newline_concat(
            spec_new_line_indent(0, level + 1) + spec_quoted(entry.0),
            seq![58u8],
        );
        lemma_no_newline_concat(
            spec_new_line_indent(0, level + 1) + spec_quoted(entry.0) + seq![58u8],
            Seq::<u8>::empty(),
        );
        lemma_no_newline_concat(
            spec_new_line_indent(0, level + 1) + spec_quoted(entry.0) + seq![58u8]
                + Seq::<u8>::empty(),
            spec_value(entry.1, 0, level + 1),
        );
        assert(no_newline(spec_entry(entry, 0, level)));
        let comma = if entries.len() > 1 {
            seq![44u8]
        } else {
            Seq::<u8>::empty()
        };
        lemma_no_newline_concat(spec_entries(entries.drop_last(), 0, level), comma);
        lemma_no_newline_concat(
            spec_entries(entries.drop_last(), 0, level) + comma,
            spec_entry(entry, 0, level),
        );
    }
}

/// The compact form of an array's items never contains a newline byte.
pub proof fn lemma_compact_items_no_newline(items: Seq<JsonModel>, level: nat)
    ensures
        no_newline(spec_items(items, 0, level)),
    decreases items,
{
    if items.len() > 0 {
        lemma_compact_items_no_newline(items.drop_last(), level);
        lemma_compact_no_newline(items.last(), level + 1);
        lemma_new_line_indent_shape(0, level + 1);
        let comma = if items.len() > 1 {
            seq![44u8]
        } else {
            Seq::<u8>::empty()
        };
        lemma_no_newline_concat(spec_items(items.drop_last(), 0, level), comma);
        lemma_no_newline_concat(
            spec_items(items.drop_last(), 0, level) + comma,
            spec_new_line_indent(0, level + 1),
        );
        lemma_no_newline_concat(
            spec_items(items.drop_last(), 0, level) + comma + spec_new_line_indent(0, level + 1),
            spec_value(items.last(), 0, level + 1),
        );
    }
}

} // verus!
