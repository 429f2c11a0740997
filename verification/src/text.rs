//! Building text: UTF-8 facts, decimal rendering, and byte buffers that
//! become `String`s.

use vstd::prelude::*;
use vstd::utf8::*;
use vstd::string::StringExecFns;
use crate::lines::{lemma_split_concat, lemma_split_no_sep, lemma_split_push, split_on};

verus! {

/// The newline byte.
pub const NEWLINE: u8 = 10;

/// The character for one decimal digit.
pub open spec fn digit_char(d: nat) -> char {
    if d == 0 {
        '0'
    } else if d == 1 {
        '1'
    } else if d == 2 {
        '2'
    } else if d == 3 {
        '3'
    } else if d == 4 {
        '4'
    } else if d == 5 {
        '5'
    } else if d == 6 {
        '6'
    } else if d == 7 {
        '7'
    } else if d == 8 {
        '8'
    } else {
        '9'
    }
}

/// The decimal rendering of a natural number, without leading zeros.
pub open spec fn decimal(n: nat) -> Seq<char>
    decreases n,
{
    if n < 10 {
        seq![digit_char(n)]
    } else {
        decimal(n / 10).push(digit_char(n % 10))
    }
}

/// The decimal rendering of an integer, with a leading `-` when negative.
pub open spec fn signed_decimal(n: int) -> Seq<char> {
    if n < 0 {
        seq!['-'] + decimal((-n) as nat)
    } else {
        decimal(n as nat)
    }
}

/// The UTF-8 encoding of a concatenation is the concatenation of encodings.
pub proof fn lemma_encode_concat(a: Seq<char>, b: Seq<char>)
    ensures
        encode_utf8(a + b) == encode_utf8(a) + encode_utf8(b),
    decreases a.len(),
{
    if a.len() == 0 {
        assert(a + b == b);
        assert(encode_utf8(a) + encode_utf8(b) == encode_utf8(b));
    } else {
        lemma_encode_concat(a.drop_first(), b);
        assert((a + b).drop_first() == a.drop_first() + b);
        assert((a + b)[0] == a[0]);
    }
}

/// The encoding of a single ASCII character is that character's byte.
pub proof fn lemma_encode_ascii_char(c: char)
    requires
        (c as u32) < 0x80,
    ensures
        encode_utf8(seq![c]) == seq![(c as u32) as u8],
{
    assert(seq![c].drop_first() == Seq::<char>::empty());
    assert(encode_utf8(Seq::<char>::empty()) == Seq::<u8>::empty());
    assert(seq![c][0] == c);
    assert(has_width_1_encoding(c as u32));
    let u = c as u32;
    assert(leading_byte_width_1(u) == u as u8) by (bit_vector)
        requires
            u < 0x80,
    ;
}

pub proof fn lemma_encode_push(a: Seq<char>, c: char)
    ensures
        encode_utf8(a.push(c)) == encode_utf8(a) + encode_utf8(seq![c]),
{
    assert(a.push(c) == a + seq![c]);
    lemma_encode_concat(a, seq![c]);
}

/// An ASCII character encodes to its own byte; every byte of any other
/// character's encoding is at least 0x80.
pub proof fn lemma_encode_char_bytes(x: char)
    ensures
        (x as u32) < 0x80 ==> encode_utf8(seq![x]) == seq![(x as u32) as u8],
        (x as u32) >= 0x80 ==> forall|i: int|
            0 <= i < encode_utf8(seq![x]).len() ==> #[trigger] encode_utf8(seq![x])[i] >= 0x80,
{
    let u = x as u32;
    if u < 0x80 {
        lemma_encode_ascii_char(x);
    } else {
        assert(seq![x].drop_first() == Seq::<char>::empty());
        assert(encode_utf8(Seq::<char>::empty()) == Seq::<u8>::empty());
        assert(seq![x][0] == x);
        assert(encode_utf8(seq![x]) == encode_scalar(u) + Seq::<u8>::empty());
        assert(encode_scalar(u) + Seq::<u8>::empty() == encode_scalar(u));
        assert(leading_byte_width_2(u) >= 0x80 && leading_byte_width_3(u) >= 0x80
            && leading_byte_width_4(u) >= 0x80 && last_continuation_byte(u) >= 0x80
            && second_last_continuation_byte(u) >= 0x80 && third_last_continuation_byte(u) >= 0x80)
            by (bit_vector);
    }
}

/// Splitting an encoding at an ASCII character's byte gives the encodings
/// of the pieces of the characters split at that character.
pub proof fn lemma_split_encode(t: Seq<char>, c: char)
    requires
        (c as u32) < 0x80,
    ensures
        split_on(encode_utf8(t), (c as u32) as u8) == split_on(t, c).map_values(
            |p: Seq<char>| encode_utf8(p),
        ),
    decreases t.len(),
{
    let sep = (c as u32) as u8;
    if t.len() == 0 {
        assert(encode_utf8(t) == Seq::<u8>::empty());
        assert(split_on(t, c).map_values(|p: Seq<char>| encode_utf8(p)) =~= seq![
            Seq::<u8>::empty(),
        ]);
    } else {
        let t0 = t.drop_last();
        let x = t.last();
        assert(t0.push(x) == t);
        lemma_split_encode(t0, c);
        lemma_encode_push(t0, x);
        lemma_encode_char_bytes(x);
        lemma_split_push(t0, x, c);
        let e = encode_utf8(seq![x]);
        let pc = split_on(t0, c);
        let pb = split_on(encode_utf8(t0), sep);
        crate::lines::lemma_split_shape(t0, c);
        if x == c {
            assert(encode_utf8(t) == encode_utf8(t0).push(sep));
            lemma_split_push(encode_utf8(t0), sep, sep);
            assert(encode_utf8(Seq::<char>::empty()) == Seq::<u8>::empty());
            assert(split_on(t, c).map_values(|p: Seq<char>| encode_utf8(p)) =~= pb.push(
                Seq::<u8>::empty(),
            ));
        } else {
            assert forall|i: int| 0 <= i < e.len() implies e[i] != sep by {
                let u = x as u32;
                let v = c as u32;
                if u < 0x80 {
                    assert(e[i] == u as u8);
                    char_u32_cast(x, u);
                    char_u32_cast(c, v);
                    assert(u != v);
                    assert(u as u8 != v as u8) by (bit_vector)
                        requires
                            u < 0x80,
                            v < 0x80,
                            u != v,
                    ;
                }
            }
            lemma_split_no_sep(e, sep);
            lemma_split_concat(encode_utf8(t0), e, sep);
            lemma_encode_push(pc.last(), x);
            assert(pb.drop_last() + seq![pb.last() + e] + seq![e].drop_first() =~= pb.update(
                pb.len() - 1,
                pb.last() + e,
            ));
            assert(split_on(t, c).map_values(|p: Seq<char>| encode_utf8(p)) =~= pb.update(
                pb.len() - 1,
                pb.last() + e,
            ));
        }
    }
}

/// An encoding holds an ASCII character's byte exactly when the
/// characters hold that character.
pub proof fn lemma_encode_contains_ascii(t: Seq<char>, c: char)
    requires
        (c as u32) < 0x80,
    ensures
        encode_utf8(t).contains((c as u32) as u8) == t.contains(c),
    decreases t.len(),
{
    if t.len() > 0 {
        let t0 = t.drop_last();
        let x = t.last();
        assert(t0.push(x) == t);
        lemma_encode_contains_ascii(t0, c);
        lemma_encode_push(t0, x);
        lemma_encode_char_bytes(x);
        let e = encode_utf8(seq![x]);
        let whole = encode_utf8(t);
        let b = (c as u32) as u8;
        if whole.contains(b) {
            let k = choose|k: int| 0 <= k < whole.len() && whole[k] == b;
            if k < encode_utf8(t0).len() {
                assert(encode_utf8(t0)[k] == b);
                let j = choose|j: int| 0 <= j < t0.len() && t0[j] == c;
                assert(t[j] == c);
            } else {
                assert(e[k - encode_utf8(t0).len()] == b);
                let u = x as u32;
                let v = c as u32;
                assert(u < 0x80);
                assert(e == seq![u as u8]);
                assert(u == v) by (bit_vector)
                    requires
                        u < 0x80,
                        v < 0x80,
                        u as u8 == v as u8,
                ;
                char_u32_cast(x, u);
                char_u32_cast(c, v);
                assert(t[t.len() - 1] == c);
            }
        }
        if t.contains(c) {
            let j = choose|j: int| 0 <= j < t.len() && t[j] == c;
            if j < t0.len() {
                assert(t0[j] == c);
                let k = choose|k: int| 0 <= k < encode_utf8(t0).len() && encode_utf8(t0)[k] == b;
                assert(whole[k] == b);
            } else {
                assert(x == c);
                assert(whole[encode_utf8(t0).len() as int] == b);
            }
        }
    }
}

/// A character sequence with only ASCII characters encodes to its bytes.
pub open spec fn is_ascii_seq(s: Seq<char>) -> bool {
    forall|i: int| 0 <= i < s.len() ==> (#[trigger] s[i] as u32) < 0x80
}

pub proof fn lemma_decimal_ascii(n: nat)
    ensures
        is_ascii_seq(decimal(n)),
        decimal(n).len() >= 1,
    decreases n,
{
    if n >= 10 {
        lemma_decimal_ascii(n / 10);
    }
}

/// The bytes of a UTF-8 encoded sequence, cut just before or after an ASCII
/// byte, are again whole characters.
pub proof fn lemma_ascii_is_boundary(chars: Seq<char>, i: int)
    requires
        0 <= i < encode_utf8(chars).len(),
        encode_utf8(chars)[i] < 0x80,
    ensures
        is_char_boundary(encode_utf8(chars), i),
        is_char_boundary(encode_utf8(chars), i + 1),
{
    let b = encode_utf8(chars);
    encode_utf8_valid_utf8(chars);
    is_char_boundary_iff_not_is_continuation_byte(b, i);
    is_char_boundary_start_end_of_seq(b);
    if i + 1 < b.len() {
        lemma_after_ascii_boundary(b, i);
    }
}

/// In valid UTF-8, the byte after an ASCII byte starts a character.
pub proof fn lemma_after_ascii_boundary(b: Seq<u8>, i: int)
    requires
        valid_utf8(b),
        0 <= i,
        i + 1 < b.len(),
        b[i] < 0x80,
    ensures
        is_char_boundary(b, i + 1),
    decreases b.len(),
{
    let k = length_of_first_scalar(b);
    if i == 0 {
        assert(is_leading_byte_width_1(b[0]));
        assert(k == 1);
        let rest = pop_first_scalar(b);
        is_char_boundary_start_end_of_seq(rest);
        reveal_with_fuel(is_char_boundary, 2);
    } else {
        is_char_boundary_iff_not_is_continuation_byte(b, i);
        // b[i] starts a character, so it is not inside the first one
        if i < k {
            reveal_with_fuel(is_char_boundary, 2);
            assert(is_continuation_byte(b[i]));
        }
        let rest = pop_first_scalar(b);
        assert(rest[i - k] == b[i]);
        lemma_after_ascii_boundary(rest, i - k);
        reveal_with_fuel(is_char_boundary, 2);
    }
}

/// The prefix of `s` ending at byte `end`, which must fall between
/// characters.
pub fn prefix_string(s: &str, end: usize) -> (r: String)
    requires
        is_char_boundary(encode_utf8(s@), end as int),
    ensures
        encode_utf8(r@) == encode_utf8(s@).subrange(0, end as int),
        r@ == decode_utf8(encode_utf8(s@).subrange(0, end as int)),
{
    proof {
        encode_utf8_valid_utf8(s@);
    }
    let (head, _tail) = s.split_at(end);
    let r = head.to_owned();
    proof {
        valid_utf8_split(encode_utf8(s@), end as int);
        decode_utf8_encode_utf8(encode_utf8(s@).subrange(0, end as int));
        encode_utf8_decode_utf8(r@);
        assert(encode_utf8(r@) == encode_utf8(head@));
        decode_utf8_encode_utf8(encode_utf8(head@));
    }
    r
}

/// `String::from_utf8`: the bytes as a `String` when they are valid UTF-8.
/// The standard library documents that it succeeds exactly on valid UTF-8
/// and then holds those bytes unchanged.
#[verifier::external_body]
fn string_from_utf8(bytes: Vec<u8>) -> (r: Option<String>)
    ensures
        r is Some <==> valid_utf8(bytes@),
        r matches Some(s) ==> s@ == decode_utf8(bytes@),
{
    String::from_utf8(bytes).ok()
}

/// The characters whose encoding `bytes` is.
pub fn string_of_encoding(bytes: Vec<u8>, Ghost(chars): Ghost<Seq<char>>) -> (r: String)
    requires
        bytes@ == encode_utf8(chars),
    ensures
        r@ == chars,
{
    proof {
        encode_utf8_valid_utf8(chars);
        encode_utf8_decode_utf8(chars);
    }
    match string_from_utf8(bytes) {
        Some(s) => s,
        None => {
            proof {
                assert(false);
            }
            String::new()
        },
    }
}

/// The string whose encoding is `bytes[start..end]`, given the characters it
/// holds.
pub fn string_of_range(bytes: &[u8], start: usize, end: usize, Ghost(chars): Ghost<Seq<char>>) -> (r: String)
    requires
        start <= end <= bytes@.len(),
        bytes@.subrange(start as int, end as int) == encode_utf8(chars),
    ensures
        r@ == chars,
{
    let mut buf: Vec<u8> = Vec::new();
    push_bytes(&mut buf, &bytes[start..end]);
    proof {
        assert(buf@ =~= bytes@.subrange(start as int, end as int));
    }
    string_of_encoding(buf, Ghost(chars))
}

/// A name for `String::from_utf8_lossy`: the characters the standard library
/// decodes from arbitrary bytes, with U+FFFD for each invalid sequence.
pub uninterp spec fn utf8_lossy(bytes: Seq<u8>) -> Seq<char>;

/// `String::from_utf8_lossy`. Its documentation says that valid UTF-8 comes
/// back unchanged; what invalid input turns into is left to the name.
#[verifier::external_body]
pub(crate) fn lossy_string(bytes: &[u8]) -> (r: String)
    ensures
        r@ == utf8_lossy(bytes@),
        valid_utf8(bytes@) ==> r@ == decode_utf8(bytes@),
{
    String::from_utf8_lossy(bytes).into_owned()
}

/// A name for the text `format!("{:?}", s)` gives for a string: `s` in
/// double quotes with the standard library's escapes.
pub uninterp spec fn debug_quoted(s: Seq<char>) -> Seq<char>;

/// `<str as Debug>::fmt`, through `format!`. The contract claims that the
/// text depends on the string alone, through [`debug_quoted`]; the escapes
/// are left to the name.
#[verifier::external_body]
pub(crate) fn debug_text(s: &str) -> (r: String)
    ensures
        r@ == debug_quoted(s@),
{
    format!("{:?}", s)
}

/// `std::str::from_utf8`, which its documentation says succeeds exactly on
/// valid UTF-8.
#[verifier::external_body]
pub(crate) fn is_valid_utf8(bytes: &[u8]) -> (r: bool)
    ensures
        r == valid_utf8(bytes@),
{
    std::str::from_utf8(bytes).is_ok()
}

/// Appends `s` to `buf`.
pub fn push_bytes(buf: &mut Vec<u8>, s: &[u8])
    ensures
        final(buf)@ == old(buf)@ + s@,
{
    let mut i: usize = 0;
    while i < s.len()
        invariant
            0 <= i <= s@.len(),
            buf@ == old(buf)@ + s@.subrange(0, i as int),
        decreases s@.len() - i,
    {
        buf.push(s[i]);
        i = i + 1;
        assert(s@.subrange(0, i as int) == s@.subrange(0, i - 1).push(s@[i - 1]));
    }
    assert(s@.subrange(0, s@.len() as int) == s@);
}

/// Appends the encoding of `s` to `buf`.
pub fn push_str(buf: &mut Vec<u8>, s: &str)
    ensures
        final(buf)@ == old(buf)@ + encode_utf8(s@),
{
    push_bytes(buf, s.as_bytes());
}

/// Appends the decimal rendering of `n`.
pub fn push_decimal(buf: &mut Vec<u8>, n: u128)
    ensures
        final(buf)@ == old(buf)@ + encode_utf8(decimal(n as nat)),
    decreases n,
{
    if n >= 10 {
        push_decimal(buf, n / 10);
    }
    let d = (n % 10) as u8;
    buf.push(48 + d);
    proof {
        let c = digit_char((n % 10) as nat);
        assert((c as u32) as u8 == 48 + d);
        lemma_encode_ascii_char(c);
        if n >= 10 {
            lemma_encode_push(decimal((n / 10) as nat), c);
        } else {
            assert(decimal(n as nat) == seq![c]);
        }
    }
}

/// Appends the decimal rendering of a signed `n`.
pub fn push_signed_decimal(buf: &mut Vec<u8>, n: i128)
    ensures
        final(buf)@ == old(buf)@ + encode_utf8(signed_decimal(n as int)),
{
    if n < 0 {
        buf.push(45);
        let magnitude: u128 = if n == i128::MIN {
            170141183460469231731687303715884105728u128
        } else {
            (-n) as u128
        };
        push_decimal(buf, magnitude);
        proof {
            lemma_encode_ascii_char('-');
            lemma_encode_concat(seq!['-'], decimal((-n) as nat));
        }
    } else {
        push_decimal(buf, n as u128);
    }
}


/// Appends the UTF-8 encoding of one character.
pub fn push_char(buf: &mut Vec<u8>, c: char)
    ensures
        final(buf)@ == old(buf)@ + encode_utf8(seq![c]),
{
    let u = c as u32;
    proof {
        char_is_scalar(c);
        assert(seq![c].drop_first() == Seq::<char>::empty());
        assert(encode_utf8(Seq::<char>::empty()) == Seq::<u8>::empty());
        assert(seq![c][0] == c);
        assert(encode_utf8(seq![c]) == encode_scalar(u));
    }
    if u <= 0x7F {
        buf.push((u & 0x7F) as u8);
    } else if u <= 0x7FF {
        buf.push(0xC0 | ((u >> 6) & 0x1F) as u8);
        buf.push(0x80 | (u & 0x3F) as u8);
    } else if u <= 0xFFFF {
        buf.push(0xE0 | ((u >> 12) & 0x0F) as u8);
        buf.push(0x80 | ((u >> 6) & 0x3F) as u8);
        buf.push(0x80 | (u & 0x3F) as u8);
    } else {
        buf.push(0xF0 | ((u >> 18) & 0x7) as u8);
        buf.push(0x80 | ((u >> 12) & 0x3F) as u8);
        buf.push(0x80 | ((u >> 6) & 0x3F) as u8);
        buf.push(0x80 | (u & 0x3F) as u8);
    }
}


/// `a` followed by `b`.
pub fn cat(a: &str, b: &str) -> (r: String)
    ensures
        r@ == a@ + b@,
{
    let mut s = a.to_owned();
    s.append(b);
    s
}

/// The decimal rendering of `n`.
pub fn decimal_string(n: u128) -> (r: String)
    ensures
        r@ == decimal(n as nat),
{
    let mut buf: Vec<u8> = Vec::new();
    push_decimal(&mut buf, n);
    string_of_encoding(buf, Ghost(decimal(n as nat)))
}

/// The decimal rendering of a signed `n`.
pub fn signed_decimal_string(n: i128) -> (r: String)
    ensures
        r@ == signed_decimal(n as int),
{
    let mut buf: Vec<u8> = Vec::new();
    push_signed_decimal(&mut buf, n);
    string_of_encoding(buf, Ghost(signed_decimal(n as int)))
}


/// Texts joined with `sep` between consecutive ones.
pub open spec fn join_texts(parts: Seq<Seq<char>>, sep: Seq<char>) -> Seq<char>
    decreases parts.len(),
{
    if parts.len() == 0 {
        Seq::<char>::empty()
    } else if parts.len() == 1 {
        parts[0]
    } else {
        join_texts(parts.drop_last(), sep) + sep + parts.last()
    }
}

/// The character sequences of a list of strings.
pub open spec fn texts_of(parts: Seq<String>) -> Seq<Seq<char>> {
    parts.map_values(|s: String| s@)
}

/// The strings joined with `sep` between consecutive ones.
pub fn join_strings(parts: &Vec<String>, sep: &str) -> (r: String)
    ensures
        r@ == join_texts(texts_of(parts@), sep@),
{
    let mut out = String::new();
    let mut i: usize = 0;
    while i < parts.len()
        invariant
            0 <= i <= parts@.len(),
            out@ == join_texts(texts_of(parts@.take(i as int)), sep@),
        decreases parts@.len() - i,
    {
        let ghost before = out@;
        if i > 0 {
            out.append(sep);
        }
        out.append(parts[i].as_str());
        proof {
            let t = parts@.take(i + 1);
            assert(t.drop_last() == parts@.take(i as int));
            assert(texts_of(t).drop_last() == texts_of(parts@.take(i as int)));
            assert(texts_of(t).last() == parts@[i as int]@);
            if i == 0 {
                assert(texts_of(t).len() == 1);
                assert(out@ =~= parts@[0]@);
            }
        }
        i = i + 1;
    }
    proof {
        assert(parts@.take(parts@.len() as int) == parts@);
    }
    out
}

} // verus!
