//! UTF-16 measures of model-facing text and human-readable byte sizes.

use vstd::prelude::*;
use vstd::utf8::*;
use crate::text::{
    decimal, digit_char, lemma_encode_concat, prefix_string, push_decimal, push_str,
    string_of_encoding,
};
use vstd::string::StringExecFns;

verus! {

broadcast use vstd::string::group_string_axioms;

/// UTF-16 code units of one character: two for characters outside the
/// Basic Multilingual Plane, one otherwise.
pub open spec fn char_utf16_units(c: char) -> nat {
    if (c as u32) >= 0x10000 {
        2
    } else {
        1
    }
}

/// JavaScript string length of a character sequence: its UTF-16 code units.
pub open spec fn utf16_units(s: Seq<char>) -> nat
    decreases s.len(),
{
    if s.len() == 0 {
        0
    } else {
        utf16_units(s.drop_last()) + char_utf16_units(s.last())
    }
}

/// UTF-8 bytes of one character.
pub open spec fn char_utf8_len(c: char) -> nat {
    encode_utf8(seq![c]).len()
}

proof fn lemma_char_widths(c: char)
    ensures
        char_utf8_len(c) == (if (c as u32) < 0x80 {
            1nat
        } else if (c as u32) < 0x800 {
            2nat
        } else if (c as u32) < 0x10000 {
            3nat
        } else {
            4nat
        }),
        char_utf16_units(c) <= char_utf8_len(c),
        char_utf8_len(c) >= 1,
{
    assert(seq![c].drop_first() == Seq::<char>::empty());
    assert(encode_utf8(Seq::<char>::empty()) == Seq::<u8>::empty());
    assert(seq![c][0] == c);
}

pub proof fn lemma_utf16_units_concat(a: Seq<char>, b: Seq<char>)
    ensures
        utf16_units(a + b) == utf16_units(a) + utf16_units(b),
    decreases b.len(),
{
    if b.len() == 0 {
        assert(a + b == a);
    } else {
        lemma_utf16_units_concat(a, b.drop_last());
        assert((a + b).drop_last() == a + b.drop_last());
    }
}

proof fn lemma_utf16_units_bound(s: Seq<char>)
    ensures
        utf16_units(s) <= encode_utf8(s).len(),
        s.len() <= encode_utf8(s).len(),
    decreases s.len(),
{
    if s.len() > 0 {
        lemma_utf16_units_bound(s.drop_last());
        lemma_char_widths(s.last());
        assert(s == s.drop_last() + seq![s.last()]);
        lemma_encode_concat(s.drop_last(), seq![s.last()]);
    }
}

/// The UTF-8 byte count of a character, from its code point.
fn utf8_width(c: char) -> (r: usize)
    ensures
        r == char_utf8_len(c),
{
    proof {
        lemma_char_widths(c);
    }
    let u = c as u32;
    if u < 0x80 {
        1
    } else if u < 0x800 {
        2
    } else if u < 0x10000 {
        3
    } else {
        4
    }
}

/// JavaScript string length: UTF-16 code units, not UTF-8 bytes or Unicode
/// scalar values.
pub fn utf16_len(text: &str) -> (r: usize)
    ensures
        r == utf16_units(text@),
{
    let mut units: usize = 0;
    let ghost chars = text@;
    let bytes = text.as_bytes();
    let byte_len = bytes.len();
    assert(bytes@.len() <= usize::MAX);
    proof {
        lemma_utf16_units_bound(chars);
    }
    for c in it: text.chars()
        invariant
            it.seq() == chars,
            units == utf16_units(chars.take(it.index())),
            utf16_units(chars) <= encode_utf8(chars).len(),
            encode_utf8(chars).len() <= usize::MAX,
    {
        proof {
            let k = it.index();
            assert(chars.take(k + 1) == chars.take(k) + seq![c]);
            lemma_utf16_units_concat(chars.take(k), seq![c]);
            lemma_utf16_units_concat(chars.take(k + 1), chars.skip(k + 1));
            assert(chars.take(k + 1) + chars.skip(k + 1) == chars);
            assert(seq![c].drop_last() == Seq::<char>::empty());
            assert(seq![c].last() == c);
            assert(utf16_units(Seq::<char>::empty()) == 0);
            assert(utf16_units(seq![c]) == char_utf16_units(c));
        }
        if (c as u32) >= 0x10000 {
            units = units + 2;
        } else {
            units = units + 1;
        }
    }
    proof {
        assert(chars.take(chars.len() as int) == chars);
    }
    units
}


/// The largest `k <= m` such that the first `k` characters take at most
/// `max_units` UTF-16 code units.
pub open spec fn fitting_chars(s: Seq<char>, m: nat, max_units: nat) -> nat
    decreases m,
{
    if m == 0 {
        0
    } else if utf16_units(s.take(m as int)) <= max_units {
        m
    } else {
        fitting_chars(s, (m - 1) as nat, max_units)
    }
}

/// What JavaScript `slice(0, max_units)` leaves of `s`, rendered as UTF-8:
/// the whole characters that fit, then U+FFFD when the cut splits a
/// surrogate pair.
pub open spec fn utf16_prefix(s: Seq<char>, max_units: nat) -> Seq<char> {
    let k = fitting_chars(s, s.len(), max_units);
    if k < s.len() && utf16_units(s.take(k as int)) < max_units {
        s.take(k as int).push('\u{fffd}')
    } else {
        s.take(k as int)
    }
}

proof fn lemma_utf16_units_monotone(s: Seq<char>, i: int, j: int)
    requires
        0 <= i <= j <= s.len(),
    ensures
        utf16_units(s.take(i)) <= utf16_units(s.take(j)),
{
    assert(s.take(j) == s.take(i) + s.take(j).skip(i));
    lemma_utf16_units_concat(s.take(i), s.take(j).skip(i));
}

proof fn lemma_fitting_chars(s: Seq<char>, m: nat, max_units: nat, k: nat)
    requires
        k <= m <= s.len(),
        utf16_units(s.take(k as int)) <= max_units,
        k == m || utf16_units(s.take(k + 1 as int)) > max_units,
    ensures
        fitting_chars(s, m, max_units) == k,
    decreases m,
{
    if m > k {
        lemma_utf16_units_monotone(s, k + 1 as int, m as int);
        lemma_fitting_chars(s, (m - 1) as nat, max_units, k);
    }
}

/// The encoding of a character prefix ends on a character boundary of the
/// encoding of the whole.
proof fn lemma_prefix_boundary(s: Seq<char>, k: int)
    requires
        0 <= k <= s.len(),
    ensures
        is_char_boundary(encode_utf8(s), encode_utf8(s.take(k)).len() as int),
        encode_utf8(s).subrange(0, encode_utf8(s.take(k)).len() as int) == encode_utf8(s.take(k)),
    decreases k,
{
    let b = encode_utf8(s);
    encode_utf8_valid_utf8(s);
    assert(s == s.take(k) + s.skip(k));
    lemma_encode_concat(s.take(k), s.skip(k));
    if k > 0 {
        encode_utf8_first_scalar(s);
        let rest = s.drop_first();
        assert(b == encode_scalar(s[0] as u32) + encode_utf8(rest));
        assert(pop_first_scalar(b) == encode_utf8(rest));
        lemma_prefix_boundary(rest, k - 1);
        assert(s.take(k) == seq![s[0]] + rest.take(k - 1));
        lemma_encode_concat(seq![s[0]], rest.take(k - 1));
        assert(seq![s[0]].drop_first() == Seq::<char>::empty());
        assert(encode_utf8(seq![s[0]]) == encode_scalar(s[0] as u32) + encode_utf8(
            Seq::<char>::empty(),
        ));
        assert(encode_utf8(Seq::<char>::empty()) == Seq::<u8>::empty());
    }
}

/// JavaScript `slice(0, max_units)` for model-facing text. A split surrogate
/// pair is rendered as U+FFFD, since a Rust string cannot hold an unpaired
/// surrogate.
pub fn truncate_utf16(text: &str, max_units: usize) -> (r: (String, bool))
    ensures
        utf16_units(text@) <= max_units ==> r.0@ == text@ && !r.1,
        utf16_units(text@) > max_units ==> r.0@ == utf16_prefix(text@, max_units as nat) && r.1,
{
    let total = utf16_len(text);
    if total <= max_units {
        return (text.to_owned(), false);
    }
    let ghost chars = text@;
    let bytes = text.as_bytes();
    let byte_len = bytes.len();
    proof {
        lemma_utf16_units_bound(chars);
    }
    let mut kept_units: usize = 0;
    let mut kept_chars: usize = 0;
    let mut kept_bytes: usize = 0;
    let mut stopped = false;
    for c in it: text.chars()
        invariant
            it.seq() == chars,
            utf16_units(chars) > max_units,
            encode_utf8(chars).len() <= usize::MAX,
            utf16_units(chars) <= encode_utf8(chars).len(),
            chars.len() <= encode_utf8(chars).len(),
            kept_chars <= it.index(),
            kept_units <= max_units,
            kept_units == utf16_units(chars.take(kept_chars as int)),
            kept_bytes == encode_utf8(chars.take(kept_chars as int)).len(),
            !stopped ==> kept_chars == it.index(),
            stopped ==> kept_chars < chars.len() && utf16_units(chars.take(kept_chars + 1))
                > max_units,
    {
        if !stopped {
            let units: usize = if (c as u32) >= 0x10000 {
                2
            } else {
                1
            };
            proof {
                let k = kept_chars as int;
                assert(chars.take(k + 1) == chars.take(k) + seq![c]);
                lemma_utf16_units_concat(chars.take(k), seq![c]);
                lemma_encode_concat(chars.take(k), seq![c]);
                assert(seq![c].drop_last() == Seq::<char>::empty());
                assert(seq![c].last() == c);
                assert(utf16_units(Seq::<char>::empty()) == 0);
                assert(utf16_units(seq![c]) == char_utf16_units(c));
                assert(chars == chars.take(k + 1) + chars.skip(k + 1));
                lemma_encode_concat(chars.take(k + 1), chars.skip(k + 1));
                lemma_utf16_units_monotone(chars, k + 1, chars.len() as int);
                assert(chars.take(chars.len() as int) == chars);
            }
            if kept_units + units <= max_units {
                let width = utf8_width(c);
                kept_units = kept_units + units;
                kept_chars = kept_chars + 1;
                kept_bytes = kept_bytes + width;
            } else {
                stopped = true;
            }
        }
    }
    proof {
        if !stopped {
            assert(chars.take(chars.len() as int) == chars);
        }
        lemma_fitting_chars(chars, chars.len(), max_units as nat, kept_chars as nat);
        lemma_prefix_boundary(chars, kept_chars as int);
        encode_utf8_decode_utf8(chars.take(kept_chars as int));
    }
    let mut kept = prefix_string(text, kept_bytes);
    if kept_units < max_units {
        kept.append("\u{fffd}");
        proof {
            reveal_strlit("\u{fffd}");
        }
    }
    (kept, true)
}


/// Two to the power `e`.
pub open spec fn two_pow(e: nat) -> nat
    decreases e,
{
    if e == 0 {
        1
    } else {
        2 * two_pow((e - 1) as nat)
    }
}

/// Number of binary digits of `n` (zero for zero).
pub open spec fn bit_length(n: nat) -> nat
    decreases n,
{
    if n == 0 {
        0
    } else {
        1 + bit_length(n / 2)
    }
}

/// `num / den` rounded to the nearest integer, ties to even.
pub open spec fn round_half_even(num: nat, den: nat) -> nat {
    let q = num / den;
    let r = num % den;
    if r * 2 > den || (r * 2 == den && q % 2 == 1) {
        q + 1
    } else {
        q
    }
}

/// The integer value of `n as f64`: `n` rounded to 53 significant bits,
/// ties to even.
pub open spec fn f64_value(n: nat) -> nat {
    if bit_length(n) <= 53 {
        n
    } else {
        let unit = two_pow((bit_length(n) - 53) as nat);
        round_half_even(n, unit) * unit
    }
}

/// `num / den` printed with one decimal, as `{:.1}` prints the exact
/// quotient: rounded to tenths, ties to even.
pub open spec fn one_decimal(num: nat, den: nat) -> Seq<char> {
    let tenths = round_half_even(num * 10, den);
    decimal(tenths / 10) + seq!['.', digit_char(tenths % 10)]
}

/// A byte count as `123B`, `1.5KB` or `2.0MB`.
pub open spec fn size_text(bytes: nat) -> Seq<char> {
    if bytes < 1024 {
        decimal(bytes) + seq!['B']
    } else if bytes < 1024 * 1024 {
        one_decimal(bytes, 1024) + seq!['K', 'B']
    } else {
        one_decimal(f64_value(bytes), 1024 * 1024) + seq!['M', 'B']
    }
}

fn round_half_even_exec(num: u128, den: u128) -> (r: u128)
    requires
        den > 0,
        num / den < u128::MAX,
    ensures
        r == round_half_even(num as nat, den as nat),
{
    let q = num / den;
    let rem = num % den;
    if rem > den - rem || (rem == den - rem && q % 2 == 1) {
        q + 1
    } else {
        q
    }
}

proof fn lemma_two_pow_succ(e: nat)
    ensures
        two_pow(e + 1) == 2 * two_pow(e),
        two_pow(e) >= 1,
    decreases e,
{
    if e > 0 {
        lemma_two_pow_succ((e - 1) as nat);
    }
}

proof fn lemma_bit_length_bound(n: nat, k: nat)
    requires
        n < two_pow(k),
    ensures
        bit_length(n) <= k,
    decreases k,
{
    if n > 0 {
        if k == 0 {
        } else {
            lemma_two_pow_succ((k - 1) as nat);
            lemma_bit_length_bound(n / 2, (k - 1) as nat);
        }
    }
}

proof fn lemma_two_pow_64()
    ensures
        two_pow(64) == 0x1_0000_0000_0000_0000,
        two_pow(11) == 2048,
{
    reveal_with_fuel(two_pow, 65);
}

/// `n as f64`, as an integer.
fn f64_value_exec(n: u64) -> (r: u128)
    ensures
        r == f64_value(n as nat),
        r <= 0x2_0000_0000_0000_0000,
{
    proof {
        lemma_two_pow_64();
        lemma_bit_length_bound(n as nat, 64);
    }
    let mut len: u64 = 0;
    let mut v: u64 = n;
    while v > 0
        invariant
            len + bit_length(v as nat) == bit_length(n as nat),
            bit_length(n as nat) <= 64,
        decreases v,
    {
        v = v / 2;
        len = len + 1;
    }
    if len <= 53 {
        return n as u128;
    }
    let shift = len - 53;
    let mut unit: u128 = 1;
    let mut i: u64 = 0;
    while i < shift
        invariant
            i <= shift,
            shift <= 11,
            unit == two_pow(i as nat),
            two_pow(11) == 2048,
        decreases shift - i,
    {
        proof {
            lemma_two_pow_succ(i as nat);
            lemma_two_pow_mono((i + 1) as nat, 11);
        }
        unit = unit * 2;
        i = i + 1;
    }
    proof {
        lemma_two_pow_mono(shift as nat, 11);
        lemma_two_pow_succ(shift as nat);
    }
    let q = round_half_even_exec(n as u128, unit);
    proof {
        let d = (n as u128) / unit;
        assert(d * unit <= n) by (nonlinear_arith)
            requires
                d == (n as u128) / unit,
                unit > 0,
        ;
        assert(q <= d + 1);
        assert(q * unit <= d * unit + unit) by (nonlinear_arith)
            requires
                q <= d + 1,
        ;
    }
    q * unit
}

proof fn lemma_two_pow_mono(a: nat, b: nat)
    requires
        a <= b,
    ensures
        two_pow(a) <= two_pow(b),
    decreases b,
{
    if a < b {
        lemma_two_pow_mono(a, (b - 1) as nat);
        lemma_two_pow_succ((b - 1) as nat);
    }
}


/// Appends `num / den` with one decimal.
fn push_one_decimal(buf: &mut Vec<u8>, num: u128, den: u128)
    requires
        den > 0,
        num <= 0x2_0000_0000_0000_0000,
    ensures
        final(buf)@ == old(buf)@ + encode_utf8(one_decimal(num as nat, den as nat)),
{
    let tenths = round_half_even_exec(num * 10, den);
    push_decimal(buf, tenths / 10);
    let ghost mid = buf@;
    push_str(buf, ".");
    push_decimal(buf, tenths % 10);
    proof {
        reveal_strlit(".");
        let d = decimal((tenths / 10) as nat);
        let last = decimal((tenths % 10) as nat);
        assert(last == seq![digit_char((tenths % 10) as nat)]);
        assert(seq!['.'] + last == seq!['.', digit_char((tenths % 10) as nat)]);
        lemma_encode_concat(seq!['.'], last);
        lemma_encode_concat(d, seq!['.', digit_char((tenths % 10) as nat)]);
        assert("."@ == seq!['.']);
        assert(final(buf)@ =~= old(buf)@ + (encode_utf8(d) + (encode_utf8(seq!['.']) + encode_utf8(last))));
    }
}

/// Format a byte count the way the tools report sizes: bytes below 1 KiB,
/// then KB and MB with one decimal.
pub fn format_size(bytes: usize) -> (r: String)
    ensures
        r@ == size_text(bytes as nat),
{
    let mut buf: Vec<u8> = Vec::new();
    if bytes < 1024 {
        push_decimal(&mut buf, bytes as u128);
        push_str(&mut buf, "B");
        proof {
            reveal_strlit("B");
            lemma_encode_concat(decimal(bytes as nat), seq!['B']);
            assert("B"@ == seq!['B']);
            assert(buf@ =~= encode_utf8(size_text(bytes as nat)));
        }
    } else if bytes < 1024 * 1024 {
        push_one_decimal(&mut buf, bytes as u128, 1024);
        push_str(&mut buf, "KB");
        proof {
            reveal_strlit("KB");
            lemma_encode_concat(one_decimal(bytes as nat, 1024), seq!['K', 'B']);
            assert("KB"@ == seq!['K', 'B']);
            assert(buf@ =~= encode_utf8(size_text(bytes as nat)));
        }
    } else {
        let value = f64_value_exec(bytes as u64);
        push_one_decimal(&mut buf, value, 1024 * 1024);
        push_str(&mut buf, "MB");
        proof {
            reveal_strlit("MB");
            lemma_encode_concat(one_decimal(f64_value(bytes as nat), 1024 * 1024), seq!['M', 'B']);
            assert("MB"@ == seq!['M', 'B']);
            assert(buf@ =~= encode_utf8(size_text(bytes as nat)));
        }
    }
    string_of_encoding(buf, Ghost(size_text(bytes as nat)))
}

} // verus!
