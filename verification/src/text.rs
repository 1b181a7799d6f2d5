//! Byte-level text primitives shared by the codec: ASCII case folding,
//! decimal rendering and parsing, and the bridge from bytes to `String`.

use vstd::prelude::*;
use vstd::utf8::*;
use vstd::string::StringSliceAdditionalSpecFns;

verus! {

/// The UTF-8 bytes of a string's characters.
pub open spec fn bytes_of(s: Seq<char>) -> Seq<u8> {
    encode_utf8(s)
}

pub open spec fn is_ascii_bytes(b: Seq<u8>) -> bool {
    forall|i: int| 0 <= i < b.len() ==> #[trigger] b[i] < 128
}

/// ASCII lower-casing of one byte; every other byte is left alone.
pub open spec fn ascii_lower(b: u8) -> u8 {
    if 65 <= b <= 90 { (b + 32) as u8 } else { b }
}

/// ASCII case-insensitive equality of two byte strings.
pub open spec fn eq_ignore_ascii_case(a: Seq<u8>, b: Seq<u8>) -> bool {
    &&& a.len() == b.len()
    &&& forall|i: int| 0 <= i < a.len() ==> ascii_lower(#[trigger] a[i]) == ascii_lower(b[i])
}

pub open spec fn lowercase_bytes(a: Seq<u8>) -> Seq<u8> {
    a.map_values(|b: u8| ascii_lower(b))
}

pub open spec fn digit(n: int) -> u8 {
    (48 + n) as u8
}

/// The shortest decimal rendering of `n`.
pub open spec fn decimal(n: nat) -> Seq<u8>
    decreases n,
{
    if n < 10 {
        seq![digit(n as int)]
    } else {
        decimal(n / 10).push(digit((n % 10) as int))
    }
}

/// `s` left-padded with `0` to at least `width` bytes.
pub open spec fn zero_padded(s: Seq<u8>, width: nat) -> Seq<u8> {
    if s.len() >= width {
        s
    } else {
        Seq::new((width - s.len()) as nat, |_i: int| 48u8) + s
    }
}

pub open spec fn is_digit(b: u8) -> bool {
    48 <= b <= 57
}

/// The value of a non-empty string of decimal digits.
pub open spec fn digits_value(s: Seq<u8>) -> nat
    decreases s.len(),
{
    if s.len() == 0 {
        0
    } else {
        digits_value(s.drop_last()) * 10 + (s.last() - 48) as nat
    }
}

/// What `str::parse::<T>` accepts for an unsigned integer type whose largest
/// value is `max`: an optional `+`, then one or more ASCII digits, with a
/// value no larger than `max`.
pub open spec fn unsigned_parse(s: Seq<u8>, max: nat) -> Option<nat> {
    digits_parse(if s.len() > 0 && s[0] == 43u8 { s.drop_first() } else { s }, max)
}

/// One or more decimal digits worth at most `max`.
pub open spec fn digits_parse(body: Seq<u8>, max: nat) -> Option<nat> {
    if body.len() > 0 && (forall|i: int| 0 <= i < body.len() ==> is_digit(#[trigger] body[i]))
        && digits_value(body) <= max {
        Some(digits_value(body))
    } else {
        None
    }
}

pub proof fn lemma_decimal_ascii(n: nat)
    ensures
        is_ascii_bytes(decimal(n)),
        decimal(n).len() >= 1,
    decreases n,
{
    if n >= 10 {
        lemma_decimal_ascii(n / 10);
    }
}

pub proof fn lemma_ascii_concat(a: Seq<u8>, b: Seq<u8>)
    requires
        is_ascii_bytes(a),
        is_ascii_bytes(b),
    ensures
        is_ascii_bytes(a + b),
{
    assert forall|i: int| 0 <= i < (a + b).len() implies #[trigger] (a + b)[i] < 128 by {
        if i < a.len() {
            assert((a + b)[i] == a[i]);
        } else {
            assert((a + b)[i] == b[i - a.len()]);
        }
    }
}

/// Appends the decimal rendering of `n` to `out`.
pub fn push_decimal(out: &mut Vec<u8>, n: u128)
    ensures
        final(out)@ == old(out)@ + decimal(n as nat),
    decreases n,
{
    if n >= 10 {
        push_decimal(out, n / 10);
    }
    out.push(48u8 + (n % 10) as u8);
    proof {
        assert(final(out)@ =~= old(out)@ + decimal(n as nat));
    }
}

/// Appends the bytes of `s` to `out`.
pub fn push_slice(out: &mut Vec<u8>, s: &[u8])
    ensures
        final(out)@ == old(out)@ + s@,
{
    out.extend_from_slice(s);
    proof {
        assert(final(out)@ =~= old(out)@ + s@);
    }
}

/// Appends the UTF-8 bytes of `s` to `out`.
pub fn push_str(out: &mut Vec<u8>, s: &str)
    ensures
        final(out)@ == old(out)@ + bytes_of(s@),
{
    push_slice(out, s.as_bytes());
}

/// Appends the bytes of `s`, ASCII-lowercased, to `out`.
pub fn push_lowercase(out: &mut Vec<u8>, s: &[u8])
    ensures
        final(out)@ == old(out)@ + lowercase_bytes(s@),
{
    let ghost before = out@;
    let mut i: usize = 0;
    while i < s.len()
        invariant
            0 <= i <= s@.len(),
            out@ == before + lowercase_bytes(s@.take(i as int)),
        decreases s@.len() - i,
    {
        let b = s[i];
        let lower = if 65 <= b && b <= 90 { b + 32 } else { b };
        out.push(lower);
        proof {
            assert(lowercase_bytes(s@.take(i + 1)) =~= lowercase_bytes(s@.take(i as int)).push(ascii_lower(b)));
        }
        i += 1;
    }
    proof {
        assert(s@.take(s@.len() as int) =~= s@);
    }
}

/// Appends the decimal rendering of `n`, left-padded with `0` to `width` bytes.
pub fn push_padded_decimal(out: &mut Vec<u8>, n: u128, width: usize)
    ensures
        final(out)@ == old(out)@ + zero_padded(decimal(n as nat), width as nat),
{
    let digits = decimal_bytes(n);
    let mut k: usize = digits.len();
    let ghost before = out@;
    while k < width
        invariant
            digits.len() <= k <= width || (k == digits.len() && k >= width),
            out@ == before + Seq::new((k - digits.len()) as nat, |_i: int| 48u8),
        decreases width - k,
    {
        out.push(48u8);
        k += 1;
        proof {
            assert(out@ =~= before + Seq::new((k - digits.len()) as nat, |_i: int| 48u8));
        }
    }
    push_slice(out, digits.as_slice());
    proof {
        if digits.len() >= width {
            assert(final(out)@ =~= before + digits@);
        } else {
            assert(final(out)@ =~= before + zero_padded(decimal(n as nat), width as nat));
        }
    }
}

/// Renders `n` in decimal.
pub fn decimal_bytes(n: u128) -> (r: Vec<u8>)
    ensures
        r@ == decimal(n as nat),
{
    let mut v: Vec<u8> = Vec::new();
    push_decimal(&mut v, n);
    proof {
        assert(v@ =~= decimal(n as nat));
    }
    v
}

/// `std::str::from_utf8`, which accepts exactly the well-formed UTF-8 byte
/// strings and then views the same bytes as a string slice.
#[verifier::external_body]
pub(crate) fn utf8_str(bytes: &[u8]) -> (r: Option<&str>)
    ensures
        r is Some <==> valid_utf8(bytes@),
        r matches Some(s) ==> bytes_of(s@) == bytes@,
{
    std::str::from_utf8(bytes).ok()
}

pub proof fn lemma_ascii_valid_utf8(bytes: Seq<u8>)
    requires
        is_ascii_bytes(bytes),
    ensures
        valid_utf8(bytes),
{
    let chars = Seq::new(bytes.len(), |i: int| bytes[i] as char);
    assert(is_ascii_chars(chars)) by {
        assert forall|i: int| 0 <= i < chars.len() implies '\0' <= #[trigger] chars[i] <= '\u{7f}' by {
            assert(bytes[i] < 128);
        }
    }
    is_ascii_chars_encode_utf8(chars);
    assert forall|i: int| 0 <= i < bytes.len() implies #[trigger] encode_utf8(chars)[i] == bytes[i] by {
        assert(chars[i] as u8 == encode_utf8(chars)[i]);
        assert(bytes[i] < 128);
    }
    assert(encode_utf8(chars) =~= bytes);
    encode_utf8_valid_utf8(chars);
}

/// The string whose UTF-8 encoding is `bytes`.
pub fn string_from_utf8(bytes: &[u8]) -> (s: String)
    requires
        valid_utf8(bytes@),
    ensures
        bytes_of(s@) == bytes@,
{
    match utf8_str(bytes) {
        Some(s) => s.to_owned(),
        None => String::new(),
    }
}

/// Byte-wise ASCII case-insensitive comparison (`<[u8]>::eq_ignore_ascii_case`).
pub fn bytes_eq_ignore_ascii_case(a: &[u8], b: &[u8]) -> (r: bool)
    ensures
        r == eq_ignore_ascii_case(a@, b@),
{
    if a.len() != b.len() {
        return false;
    }
    let mut i: usize = 0;
    while i < a.len()
        invariant
            a@.len() == b@.len(),
            0 <= i <= a@.len(),
            forall|j: int| 0 <= j < i ==> ascii_lower(#[trigger] a@[j]) == ascii_lower(b@[j]),
        decreases a@.len() - i,
    {
        let x = a[i];
        let y = b[i];
        let lx = if 65 <= x && x <= 90 { x + 32 } else { x };
        let ly = if 65 <= y && y <= 90 { y + 32 } else { y };
        if lx != ly {
            assert(ascii_lower(a@[i as int]) != ascii_lower(b@[i as int]));
            return false;
        }
        i += 1;
    }
    true
}

/// ASCII case-insensitive comparison of two strings (`str::eq_ignore_ascii_case`).
pub fn str_eq_ignore_ascii_case(a: &str, b: &str) -> (r: bool)
    ensures
        r == eq_ignore_ascii_case(bytes_of(a@), bytes_of(b@)),
{
    bytes_eq_ignore_ascii_case(a.as_bytes(), b.as_bytes())
}

} // verus!

verus! {

/// Byte-wise equality of two slices.
pub fn bytes_eq(a: &[u8], b: &[u8]) -> (r: bool)
    ensures
        r == (a@ == b@),
{
    if a.len() != b.len() {
        return false;
    }
    let mut i: usize = 0;
    while i < a.len()
        invariant
            a@.len() == b@.len(),
            0 <= i <= a@.len(),
            forall|j: int| 0 <= j < i ==> #[trigger] a@[j] == b@[j],
        decreases a@.len() - i,
    {
        if a[i] != b[i] {
            return false;
        }
        i += 1;
    }
    proof {
        assert(a@ =~= b@);
    }
    true
}

/// Whether `a` begins with the bytes of `prefix`.
pub fn bytes_starts_with(a: &[u8], prefix: &[u8]) -> (r: bool)
    ensures
        r == (prefix@.len() <= a@.len() && a@.subrange(0, prefix@.len() as int) == prefix@),
{
    if prefix.len() > a.len() {
        return false;
    }
    let r = bytes_eq(&a[0..prefix.len()], prefix);
    r
}

} // verus!

verus! {

/// The characters of a string slice, in order.
pub fn chars_of(s: &str) -> (r: Vec<char>)
    ensures
        r@ == s@,
{
    let mut out: Vec<char> = Vec::new();
    for c in it: s.chars()
        invariant
            out@ == it.seq().take(it.index() as int),
    {
        out.push(c);
    }
    out
}

/// `char::is_whitespace`: the Unicode `White_Space` property.
pub open spec fn is_whitespace(c: char) -> bool {
    ||| '\u{9}' <= c <= '\u{d}'
    ||| c == ' '
    ||| c == '\u{85}'
    ||| c == '\u{a0}'
    ||| c == '\u{1680}'
    ||| '\u{2000}' <= c <= '\u{200a}'
    ||| c == '\u{2028}'
    ||| c == '\u{2029}'
    ||| c == '\u{202f}'
    ||| c == '\u{205f}'
    ||| c == '\u{3000}'
}

pub fn is_whitespace_char(c: char) -> (r: bool)
    ensures
        r == is_whitespace(c),
{
    ('\u{9}' <= c && c <= '\u{d}') || c == ' ' || c == '\u{85}' || c == '\u{a0}' || c == '\u{1680}'
        || ('\u{2000}' <= c && c <= '\u{200a}') || c == '\u{2028}' || c == '\u{2029}' || c
        == '\u{202f}' || c == '\u{205f}' || c == '\u{3000}'
}

pub open spec fn trim_start(s: Seq<char>) -> Seq<char>
    decreases s.len(),
{
    if s.len() > 0 && is_whitespace(s[0]) { trim_start(s.drop_first()) } else { s }
}

pub open spec fn trim_end(s: Seq<char>) -> Seq<char>
    decreases s.len(),
{
    if s.len() > 0 && is_whitespace(s.last()) { trim_end(s.drop_last()) } else { s }
}

/// `str::trim`: leading and trailing whitespace removed.
pub open spec fn trim(s: Seq<char>) -> Seq<char> {
    trim_end(trim_start(s))
}

/// The span `[start, end)` of `s[from..to]` that remains once whitespace is
/// trimmed from both ends.
pub fn trim_span(s: &Vec<char>, from: usize, to: usize) -> (r: (usize, usize))
    requires
        from <= to <= s@.len(),
    ensures
        from <= r.0 <= r.1 <= to,
        s@.subrange(r.0 as int, r.1 as int) == trim(s@.subrange(from as int, to as int)),
{
    let mut i = from;
    while i < to && is_whitespace_char(s[i])
        invariant
            from <= i <= to <= s@.len(),
            trim_start(s@.subrange(from as int, to as int)) == trim_start(s@.subrange(i as int, to as int)),
        decreases to - i,
    {
        proof {
            assert(s@.subrange(i as int, to as int).drop_first() =~= s@.subrange(i + 1, to as int));
        }
        i += 1;
    }
    let mut j = to;
    proof {
        assert(trim_start(s@.subrange(i as int, to as int)) == s@.subrange(i as int, to as int));
    }
    while j > i && is_whitespace_char(s[j - 1])
        invariant
            from <= i <= j <= to <= s@.len(),
            trim(s@.subrange(from as int, to as int)) == trim_end(s@.subrange(i as int, j as int)),
        decreases j - i,
    {
        proof {
            assert(s@.subrange(i as int, j as int).drop_last() =~= s@.subrange(i as int, j - 1));
        }
        j -= 1;
    }
    (i, j)
}

pub open spec fn ascii_lower_char(c: char) -> char {
    if 'A' <= c <= 'Z' { ((c as u32) + 32) as char } else { c }
}

/// ASCII case-insensitive equality of two character sequences.
pub open spec fn chars_eq_ignore_ascii_case(a: Seq<char>, b: Seq<char>) -> bool {
    &&& a.len() == b.len()
    &&& forall|i: int| 0 <= i < a.len() ==> ascii_lower_char(#[trigger] a[i]) == ascii_lower_char(b[i])
}

fn lower_char(c: char) -> (r: char)
    ensures
        r == ascii_lower_char(c),
{
    if 'A' <= c && c <= 'Z' {
        let n: u32 = (c as u32) + 32;
        proof {
            assert(('a' as u32) <= n <= ('z' as u32));
        }
        n as u8 as char
    } else {
        c
    }
}

/// Whether `s[from..to]` equals `t` ignoring ASCII case.
pub fn span_eq_ignore_ascii_case(s: &Vec<char>, from: usize, to: usize, t: &Vec<char>) -> (r: bool)
    requires
        from <= to <= s@.len(),
    ensures
        r == chars_eq_ignore_ascii_case(s@.subrange(from as int, to as int), t@),
{
    if to - from != t.len() {
        return false;
    }
    let mut k: usize = 0;
    while k < t.len()
        invariant
            to - from == t@.len(),
            from <= to <= s@.len(),
            0 <= k <= t@.len(),
            forall|q: int| 0 <= q < k ==> ascii_lower_char(#[trigger] s@[from + q]) == ascii_lower_char(t@[q]),
        decreases t@.len() - k,
    {
        if lower_char(s[from + k]) != lower_char(t[k]) {
            assert(s@.subrange(from as int, to as int)[k as int] == s@[from + k]);
            return false;
        }
        k += 1;
    }
    proof {
        let sub = s@.subrange(from as int, to as int);
        assert forall|q: int| 0 <= q < sub.len() implies ascii_lower_char(#[trigger] sub[q]) == ascii_lower_char(t@[q]) by {
            assert(sub[q] == s@[from + q]);
        }
    }
    true
}

pub open spec fn hex_value(c: char) -> int {
    if '0' <= c <= '9' {
        (c as int) - ('0' as int)
    } else if 'a' <= c <= 'f' {
        (c as int) - ('a' as int) + 10
    } else {
        (c as int) - ('A' as int) + 10
    }
}

pub open spec fn is_hex_digit(c: char) -> bool {
    ('0' <= c <= '9') || ('a' <= c <= 'f') || ('A' <= c <= 'F')
}

/// The value of a string of hexadecimal digits.
pub open spec fn hex_digits_value(s: Seq<char>) -> nat
    decreases s.len(),
{
    if s.len() == 0 {
        0
    } else {
        hex_digits_value(s.drop_last()) * 16 + hex_value(s.last()) as nat
    }
}

/// What `usize::from_str_radix(s, 16)` accepts: an optional `+`, then one or
/// more hexadecimal digits, with a value no larger than `usize::MAX`.
pub open spec fn hex_usize_parse(s: Seq<char>) -> Option<nat> {
    hex_digits_parse(if s.len() > 0 && s[0] == '+' { s.drop_first() } else { s })
}

/// One or more hexadecimal digits worth at most `usize::MAX`.
pub open spec fn hex_digits_parse(body: Seq<char>) -> Option<nat> {
    if body.len() > 0 && (forall|i: int| 0 <= i < body.len() ==> is_hex_digit(#[trigger] body[i]))
        && hex_digits_value(body) <= usize::MAX {
        Some(hex_digits_value(body))
    } else {
        None
    }
}

/// `usize::from_str_radix(s[from..to], 16)`.
pub fn parse_hex_usize(s: &Vec<char>, from: usize, to: usize) -> (r: Option<usize>)
    requires
        from <= to <= s@.len(),
    ensures
        match r {
            Some(v) => hex_usize_parse(s@.subrange(from as int, to as int)) == Some(v as nat),
            None => hex_usize_parse(s@.subrange(from as int, to as int)) is None,
        },
{
    let ghost whole = s@.subrange(from as int, to as int);
    let mut i = from;
    if i < to && s[i] == '+' {
        i += 1;
    }
    let ghost body = s@.subrange(i as int, to as int);
    proof {
        if from < to && s@[from as int] == '+' {
            assert(whole.drop_first() =~= body);
        } else {
            assert(whole =~= body);
        }
    }
    if i == to {
        return None;
    }
    let start = i;
    let mut acc: usize = 0;
    while i < to
        invariant
            start <= i <= to <= s@.len(),
            body == s@.subrange(start as int, to as int),
            body.len() > 0,
            hex_usize_parse(s@.subrange(from as int, to as int)) == hex_digits_parse(body),
            forall|q: int| start <= q < i ==> is_hex_digit(#[trigger] s@[q]),
            acc as nat == hex_digits_value(s@.subrange(start as int, i as int)),
        decreases to - i,
    {
        let c = s[i];
        let v: usize = if '0' <= c && c <= '9' {
            (c as u32 - '0' as u32) as usize
        } else if 'a' <= c && c <= 'f' {
            (c as u32 - 'a' as u32 + 10) as usize
        } else if 'A' <= c && c <= 'F' {
            (c as u32 - 'A' as u32 + 10) as usize
        } else {
            proof {
                assert(body[i - start] == s@[i as int]);
                assert(!is_hex_digit(body[i - start]));
            }
            return None;
        };
        proof {
            assert(s@.subrange(start as int, i + 1).drop_last() =~= s@.subrange(start as int, i as int));
        }
        if acc > (usize::MAX - v) / 16 {
            proof {
                assert(s@.subrange(start as int, i + 1) =~= body.subrange(0, i - start + 1));
                if forall|q: int| 0 <= q < body.len() ==> is_hex_digit(#[trigger] body[q]) {
                    lemma_hex_prefix_le(body, i - start + 1);
                }
            }
            return None;
        }
        acc = acc * 16 + v;
        i += 1;
    }
    proof {
        assert(s@.subrange(start as int, to as int) =~= body);
    }
    Some(acc)
}

/// A prefix of a string of hexadecimal digits is worth no more than the whole.
proof fn lemma_hex_prefix_le(body: Seq<char>, k: int)
    requires
        0 <= k <= body.len(),
        forall|q: int| 0 <= q < body.len() ==> is_hex_digit(#[trigger] body[q]),
    ensures
        hex_digits_value(body.subrange(0, k)) <= hex_digits_value(body),
    decreases body.len(),
{
    if k == body.len() {
        assert(body.subrange(0, k) =~= body);
    } else {
        let shorter = body.drop_last();
        assert(body.subrange(0, k) =~= shorter.subrange(0, k));
        lemma_hex_prefix_le(shorter, k);
    }
}

} // verus!

verus! {

proof fn lemma_digits_prefix_le(body: Seq<u8>, k: int)
    requires
        0 <= k <= body.len(),
        forall|q: int| 0 <= q < body.len() ==> is_digit(#[trigger] body[q]),
    ensures
        digits_value(body.subrange(0, k)) <= digits_value(body),
    decreases body.len(),
{
    if k == body.len() {
        assert(body.subrange(0, k) =~= body);
    } else {
        let shorter = body.drop_last();
        assert(body.subrange(0, k) =~= shorter.subrange(0, k));
        lemma_digits_prefix_le(shorter, k);
    }
}

/// `str::parse` for an unsigned integer type whose largest value is `max`.
pub fn parse_unsigned(s: &[u8], max: u64) -> (r: Option<u64>)
    ensures
        match r {
            Some(v) => unsigned_parse(s@, max as nat) == Some(v as nat),
            None => unsigned_parse(s@, max as nat) is None,
        },
{
    let mut i: usize = 0;
    if s.len() > 0 && s[0] == 43u8 {
        i = 1;
    }
    let ghost body = s@.subrange(i as int, s@.len() as int);
    proof {
        if s@.len() > 0 && s@[0] == 43u8 {
            assert(s@.drop_first() =~= body);
        } else {
            assert(s@ =~= body);
        }
    }
    if i == s.len() {
        return None;
    }
    let start = i;
    let mut acc: u64 = 0;
    while i < s.len()
        invariant
            start <= i <= s@.len(),
            body == s@.subrange(start as int, s@.len() as int),
            body.len() > 0,
            unsigned_parse(s@, max as nat) == digits_parse(body, max as nat),
            forall|q: int| start <= q < i ==> is_digit(#[trigger] s@[q]),
            acc as nat == digits_value(s@.subrange(start as int, i as int)),
            acc <= max,
        decreases s@.len() - i,
    {
        let c = s[i];
        if c < 48u8 || c > 57u8 {
            proof {
                assert(body[i - start] == s@[i as int]);
            }
            return None;
        }
        let v: u64 = (c - 48u8) as u64;
        proof {
            assert(s@.subrange(start as int, i + 1).drop_last() =~= s@.subrange(start as int, i as int));
        }
        if v > max || acc > (max - v) / 10 {
            proof {
                assert(s@.subrange(start as int, i + 1) =~= body.subrange(0, i - start + 1));
                if forall|q: int| 0 <= q < body.len() ==> is_digit(#[trigger] body[q]) {
                    lemma_digits_prefix_le(body, i - start + 1);
                }
            }
            return None;
        }
        acc = acc * 10 + v;
        i += 1;
    }
    proof {
        assert(s@.subrange(start as int, s@.len() as int) =~= body);
    }
    Some(acc)
}

} // verus!

verus! {

/// `str::split(sep)`: the pieces between separators, empty pieces included.
pub open spec fn split_on(s: Seq<char>, sep: char) -> Seq<Seq<char>>
    decreases s.len(),
{
    if s.len() == 0 {
        seq![Seq::empty()]
    } else {
        let p = split_on(s.drop_last(), sep);
        if s.last() == sep {
            p.push(Seq::empty())
        } else {
            p.update(p.len() - 1, p.last().push(s.last()))
        }
    }
}

pub proof fn lemma_split_on_nonempty(s: Seq<char>, sep: char)
    ensures
        split_on(s, sep).len() >= 1,
    decreases s.len(),
{
    if s.len() > 0 {
        lemma_split_on_nonempty(s.drop_last(), sep);
    }
}

/// Whether some `sep`-separated piece of `s`, trimmed, equals `word`
/// ignoring ASCII case.
pub open spec fn has_trimmed_piece(s: Seq<char>, sep: char, word: Seq<char>) -> bool {
    exists|k: int|
        0 <= k < split_on(s, sep).len() && chars_eq_ignore_ascii_case(
            trim(#[trigger] split_on(s, sep)[k]),
            word,
        )
}

proof fn lemma_split_step(c: Seq<char>, sep: char, i: int)
    requires
        0 <= i < c.len(),
    ensures
        split_on(c.take(i + 1), sep) == ({
            let p = split_on(c.take(i), sep);
            if c[i] == sep {
                p.push(Seq::empty())
            } else {
                p.update(p.len() - 1, p.last().push(c[i]))
            }
        }),
{
    assert(c.take(i + 1).drop_last() =~= c.take(i));
    assert(c.take(i + 1).last() == c[i]);
}

/// Splitting a longer string keeps every piece but the last one of a prefix.
proof fn lemma_split_prefix_stable(c: Seq<char>, sep: char, j: int)
    requires
        0 <= j <= c.len(),
    ensures
        split_on(c, sep).len() >= split_on(c.take(j), sep).len(),
        forall|k: int|
            0 <= k < split_on(c.take(j), sep).len() - 1 ==> #[trigger] split_on(c, sep)[k]
                == split_on(c.take(j), sep)[k],
    decreases c.len() - j,
{
    if j == c.len() {
        assert(c.take(j) =~= c);
    } else {
        lemma_split_step(c, sep, j);
        lemma_split_on_nonempty(c.take(j), sep);
        lemma_split_prefix_stable(c, sep, j + 1);
    }
}

/// Whether some `sep`-separated piece of `s`, trimmed, equals `word`
/// ignoring ASCII case.
pub fn contains_trimmed_piece(s: &str, sep: char, word: &str) -> (r: bool)
    ensures
        r == has_trimmed_piece(s@, sep, word@),
{
    let c = chars_of(s);
    let w = chars_of(word);
    let mut piece_start: usize = 0;
    let mut i: usize = 0;
    let ghost mut done: Seq<Seq<char>> = Seq::empty();
    proof {
        assert(c@.take(0) =~= Seq::<char>::empty());
        assert(split_on(c@.take(0), sep) =~= done.push(c@.subrange(0, 0)));
    }
    while i < c.len()
        invariant
            0 <= piece_start <= i <= c@.len(),
            c@ == s@,
            w@ == word@,
            split_on(c@.take(i as int), sep) == done.push(c@.subrange(piece_start as int, i as int)),
            forall|k: int| 0 <= k < done.len() ==> !chars_eq_ignore_ascii_case(trim(#[trigger] done[k]), w@),
        decreases c@.len() - i,
    {
        proof {
            lemma_split_step(c@, sep, i as int);
        }
        if c[i] == sep {
            let (a, b) = trim_span(&c, piece_start, i);
            if span_eq_ignore_ascii_case(&c, a, b, &w) {
                proof {
                    let k = done.len() as int;
                    lemma_split_prefix_stable(c@, sep, i + 1);
                    assert(split_on(c@.take(i + 1), sep)[k] == c@.subrange(piece_start as int, i as int));
                    assert(split_on(s@, sep)[k] == c@.subrange(piece_start as int, i as int));
                }
                return true;
            }
            proof {
                done = done.push(c@.subrange(piece_start as int, i as int));
                assert(c@.subrange(i + 1, i + 1) =~= Seq::<char>::empty());
            }
            piece_start = i + 1;
            proof {
                assert(split_on(c@.take(i + 1), sep) =~= done.push(c@.subrange(piece_start as int, i + 1)));
            }
        } else {
            proof {
                assert(c@.subrange(piece_start as int, i as int).push(c@[i as int]) =~= c@.subrange(piece_start as int, i + 1));
                assert(split_on(c@.take(i + 1), sep) =~= done.push(c@.subrange(piece_start as int, i + 1)));
            }
        }
        i += 1;
    }
    proof {
        assert(c@.take(c@.len() as int) =~= c@);
    }
    let (a, b) = trim_span(&c, piece_start, c.len());
    let last = span_eq_ignore_ascii_case(&c, a, b, &w);
    proof {
        let pieces = split_on(s@, sep);
        assert(pieces == done.push(c@.subrange(piece_start as int, c@.len() as int)));
        if !last {
            assert forall|k: int| 0 <= k < pieces.len() implies !chars_eq_ignore_ascii_case(trim(#[trigger] pieces[k]), w@) by {
                if k < done.len() {
                    assert(pieces[k] == done[k]);
                }
            }
        } else {
            assert(pieces[done.len() as int] == c@.subrange(piece_start as int, c@.len() as int));
        }
    }
    last
}

} // verus!

verus! {

/// The last index of byte `x` in `s`, if any.
pub open spec fn rfind_byte(s: Seq<u8>, x: u8) -> Option<int>
    decreases s.len(),
{
    if s.len() == 0 {
        None
    } else if s.last() == x {
        Some(s.len() - 1)
    } else {
        rfind_byte(s.drop_last(), x)
    }
}

/// The first index of byte `x` in `s`, if any.
#[verifier::opaque]
pub open spec fn find_byte(s: Seq<u8>, x: u8) -> Option<int> {
    if exists|i: int| 0 <= i < s.len() && s[i] == x {
        Some(choose|i: int| 0 <= i < s.len() && s[i] == x && forall|j: int| 0 <= j < i ==> s[j] != x)
    } else {
        None
    }
}

pub proof fn lemma_rfind_byte_bounds(s: Seq<u8>, x: u8)
    ensures
        rfind_byte(s, x) matches Some(i) ==> 0 <= i < s.len() && s[i] == x,
    decreases s.len(),
{
    if s.len() > 0 && s.last() != x {
        lemma_rfind_byte_bounds(s.drop_last(), x);
    }
}

/// Some occurrence of `x` at or before `i` has none before it.
proof fn lemma_first_occurrence(s: Seq<u8>, x: u8, i: int)
    requires
        0 <= i < s.len(),
        s[i] == x,
    ensures
        exists|k: int| 0 <= k <= i && s[k] == x && forall|j: int| 0 <= j < k ==> s[j] != x,
    decreases i,
{
    if exists|j: int| 0 <= j < i && s[j] == x {
        let j = choose|j: int| 0 <= j < i && s[j] == x;
        lemma_first_occurrence(s, x, j);
    }
}

pub proof fn lemma_find_byte_bounds(s: Seq<u8>, x: u8)
    ensures
        find_byte(s, x) matches Some(i) ==> 0 <= i < s.len() && s[i] == x,
{
    reveal(find_byte);
    if exists|i: int| 0 <= i < s.len() && s[i] == x {
        let i = choose|i: int| 0 <= i < s.len() && s[i] == x;
        lemma_first_occurrence(s, x, i);
    }
}

/// Position of the last byte `x` in `s`.
pub fn rfind_byte_exec(s: &[u8], x: u8) -> (r: Option<usize>)
    ensures
        match r {
            Some(i) => rfind_byte(s@, x) == Some(i as int),
            None => rfind_byte(s@, x) is None,
        },
{
    let mut j: usize = s.len();
    proof {
        assert(s@.take(j as int) =~= s@);
    }
    while j > 0
        invariant
            j <= s@.len(),
            rfind_byte(s@, x) == rfind_byte(s@.take(j as int), x),
        decreases j,
    {
        proof {
            assert(s@.take(j as int).drop_last() =~= s@.take(j - 1));
        }
        if s[j - 1] == x {
            return Some(j - 1);
        }
        j -= 1;
    }
    None
}

/// Position of the first byte `x` in `s`.
pub fn find_byte_exec(s: &[u8], x: u8) -> (r: Option<usize>)
    ensures
        match r {
            Some(i) => find_byte(s@, x) == Some(i as int),
            None => find_byte(s@, x) is None,
        },
{
    let mut i: usize = 0;
    while i < s.len()
        invariant
            i <= s@.len(),
            forall|j: int| 0 <= j < i ==> s@[j] != x,
        decreases s@.len() - i,
    {
        if s[i] == x {
            proof {
                reveal(find_byte);
                let k = choose|k: int| 0 <= k < s@.len() && s@[k] == x && forall|j: int| 0 <= j < k ==> s@[j] != x;
                assert(k == i) by {
                    if k < i {
                        assert(s@[k] != x);
                    }
                    if k > i {
                        assert(s@[i as int] != x);
                    }
                }
            }
            return Some(i);
        }
        i += 1;
    }
    proof {
        reveal(find_byte);
    }
    None
}

/// A byte position of a string that holds an ASCII byte (or is the end)
/// lies on a character boundary.
proof fn lemma_ascii_position_is_boundary(bytes: Seq<u8>, i: int)
    requires
        valid_utf8(bytes),
        0 <= i <= bytes.len(),
        i < bytes.len() ==> bytes[i] < 128,
    ensures
        is_char_boundary(bytes, i),
{
    if i == bytes.len() {
        is_char_boundary_start_end_of_seq(bytes);
    } else {
        is_char_boundary_iff_is_leading_byte(bytes, i);
    }
}

/// `&s[1..]` for a string whose first byte is ASCII.
pub fn skip_ascii_byte(s: &str) -> (r: &str)
    requires
        bytes_of(s@).len() > 0,
        bytes_of(s@)[0] < 128,
    ensures
        bytes_of(r@) == bytes_of(s@).skip(1),
{
    proof {
        let b = bytes_of(s@);
        encode_utf8_valid_utf8(s@);
        assert(length_of_first_scalar(b) == 1);
        assert(is_char_boundary(pop_first_scalar(b), 0));
        assert(is_char_boundary(b, 1)) by {
            reveal_with_fuel(is_char_boundary, 2);
        }
    }
    let (_, rest) = s.split_at(1);
    proof {
        assert(bytes_of(s@).subrange(1, bytes_of(s@).len() as int) =~= bytes_of(s@).skip(1));
    }
    rest
}

/// `&s[..i]` and `&s[i..]` at a position that holds an ASCII byte.
pub fn split_at_ascii(s: &str, i: usize) -> (r: (&str, &str))
    requires
        i <= bytes_of(s@).len(),
        i < bytes_of(s@).len() ==> bytes_of(s@)[i as int] < 128,
    ensures
        bytes_of(r.0@) == bytes_of(s@).take(i as int),
        bytes_of(r.1@) == bytes_of(s@).skip(i as int),
{
    proof {
        encode_utf8_valid_utf8(s@);
        lemma_ascii_position_is_boundary(bytes_of(s@), i as int);
    }
    let (a, b) = s.split_at(i);
    proof {
        assert(bytes_of(s@).subrange(0, i as int) =~= bytes_of(s@).take(i as int));
        assert(bytes_of(s@).subrange(i as int, bytes_of(s@).len() as int) =~= bytes_of(s@).skip(i as int));
    }
    (a, b)
}

} // verus!

verus! {

/// The characters whose UTF-8 bytes are `b` (meaningful for valid UTF-8).
pub open spec fn text_of(b: Seq<u8>) -> Seq<char> {
    decode_utf8(b)
}

/// The decimal rendering of `n` as characters.
pub open spec fn decimal_text(n: nat) -> Seq<char> {
    text_of(decimal(n))
}

/// A string holding exactly the UTF-8 bytes `bytes` has the characters
/// `text_of(bytes)`.
pub proof fn lemma_text_of_bytes(s: Seq<char>, bytes: Seq<u8>)
    requires
        bytes_of(s) == bytes,
    ensures
        s == text_of(bytes),
{
    encode_utf8_decode_utf8(s);
}

/// The decimal rendering of `n` as a string.
pub fn decimal_string(n: u128) -> (s: String)
    ensures
        s@ == decimal_text(n as nat),
{
    let digits = decimal_bytes(n);
    proof {
        lemma_decimal_ascii(n as nat);
        lemma_ascii_valid_utf8(digits@);
    }
    let s = string_from_utf8(digits.as_slice());
    proof {
        lemma_text_of_bytes(s@, digits@);
    }
    s
}

} // verus!

verus! {

/// UTF-8 encoding distributes over concatenation.
pub proof fn lemma_bytes_of_concat(a: Seq<char>, b: Seq<char>)
    ensures
        bytes_of(a + b) == bytes_of(a) + bytes_of(b),
    decreases a.len(),
{
    if a.len() == 0 {
        assert(a + b =~= b);
    } else {
        assert((a + b).drop_first() =~= a.drop_first() + b);
        lemma_bytes_of_concat(a.drop_first(), b);
        assert((a + b)[0] == a[0]);
        assert(bytes_of(a + b) =~= bytes_of(a) + bytes_of(b));
    }
}

/// Appends `t` to the string `s`.
pub fn append_str(s: &mut String, t: &str)
    ensures
        final(s)@ == old(s)@ + t@,
        bytes_of(final(s)@) == bytes_of(old(s)@) + bytes_of(t@),
{
    s.append(t);
    proof {
        lemma_bytes_of_concat(old(s)@, t@);
    }
}

/// The bytes of the decimal rendering as a string are the decimal digits.
pub proof fn lemma_decimal_text_bytes(n: nat)
    ensures
        bytes_of(decimal_text(n)) == decimal(n),
{
    lemma_decimal_ascii(n);
    lemma_ascii_valid_utf8(decimal(n));
    decode_utf8_encode_utf8(decimal(n));
}

} // verus!
