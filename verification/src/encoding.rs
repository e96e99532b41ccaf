//! Bytes as text: hexadecimal, base64 and percent-encoding.

use vstd::prelude::*;

verus! {

/// The hexadecimal digit `d`, with `ten` as the digit after nine.
pub open spec fn hex_digit(d: int, ten: char) -> char {
    if d < 10 {
        (d + 48) as char
    } else {
        (d - 10 + ten as int) as char
    }
}

/// Two lower-case hexadecimal digits for each byte.
pub open spec fn hex(bytes: Seq<u8>) -> Seq<char>
    decreases bytes.len(),
{
    if bytes.len() == 0 {
        seq![]
    } else {
        hex(bytes.drop_last()) + seq![
            hex_digit(bytes.last() as int / 16, 'a'),
            hex_digit(bytes.last() as int % 16, 'a'),
        ]
    }
}

fn lower_hex_digit(d: u8) -> (c: char)
    requires
        d < 16,
    ensures
        c == hex_digit(d as int, 'a'),
{
    if d < 10 {
        (d + 48) as char
    } else {
        (d - 10 + 97) as char
    }
}

/// Appends two lower-case hexadecimal digits for each of the first `count`
/// bytes.
pub fn push_hex(out: &mut String, bytes: &[u8], count: usize)
    requires
        count <= bytes@.len(),
    ensures
        final(out)@ == old(out)@ + hex(bytes@.take(count as int)),
{
    let mut i: usize = 0;
    assert(out@ =~= old(out)@ + hex(bytes@.take(0)));
    while i < count
        invariant
            i <= count <= bytes@.len(),
            out@ == old(out)@ + hex(bytes@.take(i as int)),
        decreases count - i,
    {
        let b: u8 = bytes[i];
        out.push(lower_hex_digit(b / 16));
        out.push(lower_hex_digit(b % 16));
        i += 1;
        assert(bytes@.take(i as int).drop_last() =~= bytes@.take(i - 1));
        assert(bytes@.take(i as int).last() == b);
        assert(out@ =~= old(out)@ + hex(bytes@.take(i as int)));
    }
}

/// Every character of a hexadecimal text is a digit or one of `a` to `f`.
pub proof fn lemma_hex_shape(bytes: Seq<u8>)
    ensures
        hex(bytes).len() == 2 * bytes.len(),
        forall|i: int|
            0 <= i < hex(bytes).len() ==> {
                ||| '0' <= #[trigger] hex(bytes)[i] <= '9'
                ||| 'a' <= hex(bytes)[i] <= 'f'
            },
    decreases bytes.len(),
{
    if bytes.len() > 0 {
        lemma_hex_shape(bytes.drop_last());
    }
}

/// The base64 digit of a value below 64; `c62` and `c63` are the last two.
pub open spec fn base64_digit(v: int, c62: char, c63: char) -> char {
    if v < 26 {
        (v + 'A' as int) as char
    } else if v < 52 {
        (v - 26 + 'a' as int) as char
    } else if v < 62 {
        (v - 52 + '0' as int) as char
    } else if v == 62 {
        c62
    } else {
        c63
    }
}

/// The byte at position `i`, and zero past the end.
pub open spec fn byte_at(bytes: Seq<u8>, i: int) -> int {
    if 0 <= i < bytes.len() {
        bytes[i] as int
    } else {
        0
    }
}

/// The `k`-th group of six bits of a byte sequence, zeros filled in at the end.
pub open spec fn six_bits(bytes: Seq<u8>, k: int) -> int {
    let at = k / 4 * 3;
    if k % 4 == 0 {
        byte_at(bytes, at) / 4
    } else if k % 4 == 1 {
        byte_at(bytes, at) % 4 * 16 + byte_at(bytes, at + 1) / 16
    } else if k % 4 == 2 {
        byte_at(bytes, at + 1) % 16 * 4 + byte_at(bytes, at + 2) / 64
    } else {
        byte_at(bytes, at + 2) % 64
    }
}

/// The base64 digits of a byte sequence, without padding.
pub open spec fn base64_digits(bytes: Seq<u8>, c62: char, c63: char) -> Seq<char> {
    Seq::new(
        ((bytes.len() * 4 + 2) / 3) as nat,
        |k: int| base64_digit(six_bits(bytes, k), c62, c63),
    )
}

/// URL-safe base64 without padding.
pub open spec fn base64_url(bytes: Seq<u8>) -> Seq<char> {
    base64_digits(bytes, '-', '_')
}

/// Standard base64, padded with equals signs to a multiple of four characters.
pub open spec fn base64_standard(bytes: Seq<u8>) -> Seq<char> {
    base64_digits(bytes, '+', '/') + if bytes.len() % 3 == 1 {
        seq!['=', '=']
    } else if bytes.len() % 3 == 2 {
        seq!['=']
    } else {
        seq![]
    }
}

/// No digit of standard base64 is an equals sign, and each stands for one value.
proof fn lemma_base64_digit(v: int, w: int)
    requires
        0 <= v < 64,
        0 <= w < 64,
    ensures
        base64_digit(v, '+', '/') != '=',
        base64_digit(v, '+', '/') == base64_digit(w, '+', '/') ==> v == w,
{
}

/// Six bits are one of the 64 values that a digit stands for.
pub proof fn lemma_six_bits_range(bytes: Seq<u8>, k: int)
    ensures
        0 <= six_bits(bytes, k) < 64,
{
}

/// The groups of six bits determine the bytes.
proof fn lemma_six_bits_determine(a: Seq<u8>, b: Seq<u8>)
    requires
        a.len() == b.len(),
        forall|k: int|
            0 <= k < (a.len() * 4 + 2) / 3 ==> #[trigger] six_bits(a, k) == six_bits(b, k),
    ensures
        a == b,
{
    assert forall|i: int| 0 <= i < a.len() implies a[i] == b[i] by {
        let at = i / 3 * 4 + i % 3;
        assert(six_bits(a, at) == six_bits(b, at));
        assert(six_bits(a, at + 1) == six_bits(b, at + 1));
    }
    assert(a =~= b);
}

/// Different bytes have different base64 forms.
pub proof fn lemma_base64_standard_injective(a: Seq<u8>, b: Seq<u8>)
    requires
        base64_standard(a) == base64_standard(b),
    ensures
        a == b,
{
    let x = base64_standard(a);
    let y = base64_standard(b);
    let da = base64_digits(a, '+', '/');
    let db = base64_digits(b, '+', '/');
    assert forall|k: int| 0 <= k < da.len() implies x[k] == base64_digit(
        six_bits(a, k),
        '+',
        '/',
    ) && x[k] != '=' by {
        lemma_six_bits_range(a, k);
        lemma_base64_digit(six_bits(a, k), 0);
    }
    assert forall|k: int| 0 <= k < db.len() implies y[k] == base64_digit(
        six_bits(b, k),
        '+',
        '/',
    ) && y[k] != '=' by {
        lemma_six_bits_range(b, k);
        lemma_base64_digit(six_bits(b, k), 0);
    }
    if da.len() < db.len() {
        assert(x[da.len() as int] == '=');
        assert(y[da.len() as int] != '=');
    }
    if db.len() < da.len() {
        assert(y[db.len() as int] == '=');
        assert(x[db.len() as int] != '=');
    }
    assert(a.len() == b.len());
    assert forall|k: int| 0 <= k < (a.len() * 4 + 2) / 3 implies #[trigger] six_bits(a, k)
        == six_bits(b, k) by {
        lemma_six_bits_range(a, k);
        lemma_six_bits_range(b, k);
        lemma_base64_digit(six_bits(a, k), six_bits(b, k));
        assert(x[k] == y[k]);
    }
    lemma_six_bits_determine(a, b);
}

/// Calls `encode` of the base64 engine `URL_SAFE_NO_PAD`.
///
/// The result is the base64 form of the bytes in the URL-safe alphabet, without
/// padding. A length whose base64 form would not fit in `usize` is left out.
#[verifier::external_body]
pub(crate) fn encode_base64_url(bytes: &[u8]) -> (r: String)
    requires
        bytes@.len() <= usize::MAX / 2,
    ensures
        r@ == base64_url(bytes@),
{
    base64::Engine::encode(&base64::engine::general_purpose::URL_SAFE_NO_PAD, bytes)
}

/// Calls `decode` of the base64 engine `STANDARD`.
///
/// The engine takes canonical padded base64 only: it gives back bytes exactly
/// when the text is their standard base64 form, and an error on any text that
/// is nobody's.
#[verifier::external_body]
pub(crate) fn decode_base64_standard(text: &str) -> (r: Option<Vec<u8>>)
    ensures
        match r {
            Some(bytes) => text@ == base64_standard(bytes@),
            None => forall|bytes: Seq<u8>| text@ != #[trigger] base64_standard(bytes),
        },
{
    base64::Engine::decode(&base64::engine::general_purpose::STANDARD, text).ok()
}

/// The bytes that stand for themselves in a percent-encoded text.
pub open spec fn unreserved(b: u8) -> bool {
    ||| '0' as int <= b as int <= '9' as int
    ||| 'A' as int <= b as int <= 'Z' as int
    ||| 'a' as int <= b as int <= 'z' as int
    ||| b as int == '-' as int
    ||| b as int == '.' as int
    ||| b as int == '_' as int
    ||| b as int == '~' as int
}

/// Each unreserved byte as itself, and any other as a percent sign with two
/// upper-case hexadecimal digits.
pub open spec fn percent_encoded(bytes: Seq<u8>) -> Seq<char>
    decreases bytes.len(),
{
    if bytes.len() == 0 {
        seq![]
    } else {
        let b = bytes.last();
        percent_encoded(bytes.drop_last()) + if unreserved(b) {
            seq![b as char]
        } else {
            seq!['%', hex_digit(b as int / 16, 'A'), hex_digit(b as int % 16, 'A')]
        }
    }
}

/// Calls `urlencoding::encode`.
///
/// The result is the percent-encoded form of the UTF-8 bytes of `text`: letters,
/// digits and `-`, `.`, `_`, `~` stay, every other byte is escaped.
#[verifier::external_body]
pub(crate) fn encode_percent(text: &str) -> (r: String)
    ensures
        r@ == percent_encoded(vstd::utf8::encode_utf8(text@)),
{
    urlencoding::encode(text).into_owned()
}

} // verus!
