//! Low-level text building blocks of the serializer: decimal digits,
//! zero padding, indentation, and JSON string escaping.

use vstd::prelude::*;

verus! {

/// 10 raised to the power `k`.
pub open spec fn pow10(k: nat) -> nat
    decreases k,
{
    if k == 0 {
        1
    } else {
        10 * pow10((k - 1) as nat)
    }
}

/// The decimal digit bytes of `n`, most significant first; `"0"` for zero,
/// no leading zeros otherwise.
pub open spec fn spec_digits(n: nat) -> Seq<u8>
    decreases n,
{
    if n < 10 {
        seq![(48 + n) as u8]
    } else {
        spec_digits(n / 10) + seq![(48 + n % 10) as u8]
    }
}

/// `n` zero digit bytes.
pub open spec fn spec_zeros(n: nat) -> Seq<u8>
    decreases n,
{
    if n == 0 {
        Seq::empty()
    } else {
        spec_zeros((n - 1) as nat).push(48u8)
    }
}

/// `n` space bytes.
pub open spec fn spec_spaces(n: nat) -> Seq<u8>
    decreases n,
{
    if n == 0 {
        Seq::empty()
    } else {
        spec_spaces((n - 1) as nat).push(32u8)
    }
}

/// Appends the decimal digits of `n` to `buffer`.
pub fn push_decimal_digits(buffer: &mut Vec<u8>, n: u128)
    ensures
        final(buffer)@ == old(buffer)@ + spec_digits(n as nat),
    decreases n,
{
    if n < 10 {
        buffer.push(48 + n as u8);
        assert(buffer@ =~= old(buffer)@ + spec_digits(n as nat));
    } else {
        push_decimal_digits(buffer, n / 10);
        buffer.push(48 + (n % 10) as u8);
        assert(buffer@ =~= old(buffer)@ + spec_digits(n as nat));
    }
}

/// The digit sequence of a number below `pow10(k)` is at most `k` digits long.
pub proof fn lemma_digits_len_le(n: nat, k: nat)
    requires
        n < pow10(k),
        k >= 1,
    ensures
        spec_digits(n).len() <= k,
    decreases k,
{
    if n < 10 {
    } else {
        assert(pow10(k) == 10 * pow10((k - 1) as nat));
        assert(n / 10 < pow10((k - 1) as nat)) by (nonlinear_arith)
            requires
                n < 10 * pow10((k - 1) as nat),
        ;
        assert((k - 1) as nat >= 1) by {
            if k == 1 {
                assert(pow10(1nat) == 10);
            }
        }
        lemma_digits_len_le(n / 10, (k - 1) as nat);
    }
}

/// Every `u128` has at most 39 decimal digits.
pub proof fn lemma_digits_len_u128(n: u128)
    ensures
        1 <= spec_digits(n as nat).len() <= 39,
{
    assert(pow10(39) > u128::MAX) by {
        reveal_with_fuel(pow10, 40);
    }
    lemma_digits_len_le(n as nat, 39);
}

/// The number of decimal digits of `n`.
pub fn decimal_digit_count(n: u128) -> (count: usize)
    ensures
        count == spec_digits(n as nat).len(),
        1 <= count <= 39,
    decreases n,
{
    proof {
        lemma_digits_len_u128(n);
    }
    if n < 10 {
        1
    } else {
        1 + decimal_digit_count(n / 10)
    }
}

/// The byte form of one string character inside a JSON string literal:
/// the seven short escapes of JSON, and the raw UTF-8 bytes for every
/// other character.
pub open spec fn spec_escaped_char(c: char) -> Seq<u8> {
    if c == '\u{8}' {
        seq![92u8, 98u8]
    } else if c == '\u{c}' {
        seq![92u8, 102u8]
    } else if c == '\n' {
        seq![92u8, 110u8]
    } else if c == '\r' {
        seq![92u8, 114u8]
    } else if c == '\t' {
        seq![92u8, 116u8]
    } else if c == '"' {
        seq![92u8, 34u8]
    } else if c == '\\' {
        seq![92u8, 92u8]
    } else {
        vstd::utf8::encode_scalar(c as u32)
    }
}

/// The escaped byte form of a whole character sequence.
pub open spec fn spec_escaped(s: Seq<char>) -> Seq<u8>
    decreases s.len(),
{
    if s.len() == 0 {
        Seq::empty()
    } else {
        spec_escaped(s.drop_last()) + spec_escaped_char(s.last())
    }
}

/// A quoted, escaped JSON string literal.
pub open spec fn spec_quoted(s: Seq<char>) -> Seq<u8> {
    seq![34u8] + spec_escaped(s) + seq![34u8]
}

/// Extending an escaped prefix by one character.
pub proof fn lemma_escaped_snoc(s: Seq<char>, i: int)
    requires
        0 <= i < s.len(),
    ensures
        spec_escaped(s.subrange(0, i + 1)) == spec_escaped(s.subrange(0, i))
            + spec_escaped_char(s[i]),
{
    let t = s.subrange(0, i + 1);
    assert(t.drop_last() =~= s.subrange(0, i));
    assert(t.last() == s[i]);
}

/// Appends the escaped byte form of the character `c`.
fn push_escaped_char(buffer: &mut Vec<u8>, c: char)
    ensures
        final(buffer)@ == old(buffer)@ + spec_escaped_char(c),
{
    match c {
        '\u{8}' => {
            buffer.push(92u8);
            buffer.push(98u8);
        },
        '\u{c}' => {
            buffer.push(92u8);
            buffer.push(102u8);
        },
        '\n' => {
            buffer.push(92u8);
            buffer.push(110u8);
        },
        '\r' => {
            buffer.push(92u8);
            buffer.push(114u8);
        },
        '\t' => {
            buffer.push(92u8);
            buffer.push(116u8);
        },
        '"' => {
            buffer.push(92u8);
            buffer.push(34u8);
        },
        '\\' => {
            buffer.push(92u8);
            buffer.push(92u8);
        },
        _ => {
            let x = c as u32;
            proof {
                vstd::utf8::char_is_scalar(c);
            }
            if x < 0x80 {
                buffer.push((x & 0x7F) as u8);
            } else if x < 0x800 {
                buffer.push(0xC0 | (((x >> 6) & 0x1F) as u8));
                buffer.push(0x80 | ((x & 0x3F) as u8));
            } else if x < 0x10000 {
                buffer.push(0xE0 | (((x >> 12) & 0x0F) as u8));
                buffer.push(0x80 | (((x >> 6) & 0x3F) as u8));
                buffer.push(0x80 | ((x & 0x3F) as u8));
            } else {
                buffer.push(0xF0 | (((x >> 18) & 0x7) as u8));
                buffer.push(0x80 | (((x >> 12) & 0x3F) as u8));
                buffer.push(0x80 | (((x >> 6) & 0x3F) as u8));
                buffer.push(0x80 | ((x & 0x3F) as u8));
            }
        },
    }
    assert(final(buffer)@ =~= old(buffer)@ + spec_escaped_char(c));
}

/// Appends a quoted, escaped JSON string literal built from `chars`.
pub fn push_string(buffer: &mut Vec<u8>, chars: &Vec<char>)
    ensures
        final(buffer)@ == old(buffer)@ + spec_quoted(chars@),
{
    buffer.push(34u8);
    assert(buffer@ =~= old(buffer)@ + seq![34u8] + spec_escaped(chars@.subrange(0, 0)));
    let mut i: usize = 0;
    while i < chars.len()
        invariant
            0 <= i <= chars@.len(),
            buffer@ == old(buffer)@ + seq![34u8] + spec_escaped(chars@.subrange(0, i as int)),
        decreases chars@.len() - i,
    {
        push_escaped_char(buffer, chars[i]);
        proof {
            lemma_escaped_snoc(chars@, i as int);
        }
        i = i + 1;
    }
    assert(chars@.subrange(0, chars@.len() as int) =~= chars@);
    buffer.push(34u8);
    assert(final(buffer)@ =~= old(buffer)@ + spec_quoted(chars@));
}

/// The newline-and-padding written before an element at nesting depth
/// `level` when pretty-printing with width `indent`; empty in compact mode.
pub open spec fn spec_new_line_indent(indent: nat, level: nat) -> Seq<u8> {
    (if indent > 0 {
        seq![10u8]
    } else {
        Seq::empty()
    }) + spec_spaces(indent * level)
}

/// Appends a newline (in pretty mode) and `indent * level` spaces.
pub fn push_new_line_indent(buffer: &mut Vec<u8>, indent: u32, level: u32)
    ensures
        final(buffer)@ == old(buffer)@ + spec_new_line_indent(indent as nat, level as nat),
{
    if indent > 0 {
        buffer.push(10u8);
    }
    let ghost mark = buffer@;
    assert((indent as nat) * (level as nat) < 0x10000000000000000) by (nonlinear_arith)
        requires
            (indent as nat) < 0x100000000,
            (level as nat) < 0x100000000,
    ;
    let count: u64 = (indent as u64) * (level as u64);
    buffer.reserve(#[verifier::truncate] (count as usize));
    let mut i: u64 = 0;
    assert(buffer@ =~= mark + spec_spaces(0));
    while i < count
        invariant
            0 <= i <= count,
            buffer@ == mark + spec_spaces(i as nat),
        decreases count - i,
    {
        buffer.push(32u8);
        assert(buffer@ =~= mark + spec_spaces((i + 1) as nat));
        i = i + 1;
    }
    assert(final(buffer)@ =~= old(buffer)@ + spec_new_line_indent(indent as nat, level as nat));
}

} // verus!

