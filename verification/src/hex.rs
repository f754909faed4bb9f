//! Hexadecimal digits: reading them case-insensitively, writing them in
//! upper case.

use vstd::prelude::*;

verus! {

/// The value of `c` as a base-16 digit, if it is one: `0`-`9`, `a`-`f` and
/// `A`-`F`, the digits that `char::to_digit(16)` accepts.
pub open spec fn hex_value(c: char) -> Option<u8> {
    let n = c as u32;
    if 0x30 <= n <= 0x39 {
        Some((n - 0x30) as u8)
    } else if 0x61 <= n <= 0x66 {
        Some((n - 0x61 + 10) as u8)
    } else if 0x41 <= n <= 0x46 {
        Some((n - 0x41 + 10) as u8)
    } else {
        None
    }
}

/// Whether `c` is a base-16 digit.
pub open spec fn is_hex_digit(c: char) -> bool {
    hex_value(c) is Some
}

/// The upper-case digit that stands for `n` (`0`-`9`, `A`-`F`), for `n < 16`.
pub open spec fn hex_upper(n: int) -> char {
    if n < 10 {
        (0x30 + n) as char
    } else {
        (0x41 + n - 10) as char
    }
}

/// The two upper-case digits of a byte, high nibble first, as `{:02X}`
/// writes them.
pub open spec fn byte_hex(b: u8) -> Seq<char> {
    seq![hex_upper((b / 16) as int), hex_upper((b % 16) as int)]
}

/// Reading back an upper-case digit gives the number it was written for.
pub proof fn lemma_hex_upper_value(n: int)
    requires
        0 <= n < 16,
    ensures
        hex_value(hex_upper(n)) == Some(n as u8),
        hex_upper(n) != ':' && hex_upper(n) != '-' && hex_upper(n) != '.',
        (hex_upper(n) as u32) < 0x80,
{
}

/// Each hex digit has the value that `char::to_digit(16)` gives it: the
/// decimal digits `'0'` to `'9'` (codes 0x30 to 0x39) are worth their code
/// minus 0x30, the letters `'a'` to `'f'` (0x61 to 0x66) and `'A'` to `'F'`
/// (0x41 to 0x46) are worth 10 to 15 in order, and no other character is a
/// digit.
pub proof fn lemma_hex_value_by_code(c: char)
    ensures
        0x30 <= (c as u32) <= 0x39 ==> hex_value(c) == Some(((c as u32) - 0x30) as u8),
        0x61 <= (c as u32) <= 0x66 ==> hex_value(c) == Some(((c as u32) - 0x57) as u8),
        0x41 <= (c as u32) <= 0x46 ==> hex_value(c) == Some(((c as u32) - 0x37) as u8),
        !(0x30 <= (c as u32) <= 0x39 || 0x61 <= (c as u32) <= 0x66 || 0x41 <= (c as u32)
            <= 0x46) ==> hex_value(c) is None,
        hex_value(c) matches Some(v) ==> v < 16,
{
}

/// A nibble is written as the character `'0' + n` below ten and as
/// `'A' + (n - 10)` from ten on: the digits `0`-`9` then `A`-`F`.
pub proof fn lemma_hex_upper_by_code(n: int)
    requires
        0 <= n < 16,
    ensures
        n < 10 ==> (hex_upper(n) as u32) == 0x30 + n,
        n >= 10 ==> (hex_upper(n) as u32) == 0x37 + n,
{
}

/// The value of `c` as a hexadecimal digit, or `None` where it is not one.
pub fn hex_digit_value(c: char) -> (v: Option<u8>)
    ensures
        v == hex_value(c),
        0x30 <= (c as u32) <= 0x39 ==> v == Some(((c as u32) - 0x30) as u8),
        0x61 <= (c as u32) <= 0x66 ==> v == Some(((c as u32) - 0x57) as u8),
        0x41 <= (c as u32) <= 0x46 ==> v == Some(((c as u32) - 0x37) as u8),
        !(0x30 <= (c as u32) <= 0x39 || 0x61 <= (c as u32) <= 0x66 || 0x41 <= (c as u32)
            <= 0x46) ==> v is None,
{
    let n = c as u32;
    if 0x30 <= n && n <= 0x39 {
        Some((n - 0x30) as u8)
    } else if 0x61 <= n && n <= 0x66 {
        Some((n - 0x61 + 10) as u8)
    } else if 0x41 <= n && n <= 0x46 {
        Some((n - 0x41 + 10) as u8)
    } else {
        None
    }
}

/// The upper-case hexadecimal digit for `n`.
pub fn hex_upper_digit(n: u8) -> (c: char)
    requires
        n < 16,
    ensures
        c == hex_upper(n as int),
        n < 10 ==> (c as u32) == 0x30 + n,
        n >= 10 ==> (c as u32) == 0x37 + n,
{
    if n < 10 {
        (0x30u8 + n) as char
    } else {
        (0x41u8 + n - 10) as char
    }
}

/// The upper-case hex digits of the bytes `b`, two to a byte, with nothing
/// between them.
pub open spec fn hex_digits(b: Seq<u8>) -> Seq<char>
    decreases b.len(),
{
    if b.len() == 0 {
        seq![]
    } else {
        hex_digits(b.drop_last()) + byte_hex(b.last())
    }
}

/// Where the digits of each byte stand.
pub proof fn lemma_hex_digits_index(b: Seq<u8>)
    ensures
        hex_digits(b).len() == 2 * b.len(),
        forall|i: int|
            0 <= i < b.len() ==> hex_digits(b)[2 * i] == hex_upper((b[i] / 16) as int)
                && hex_digits(b)[2 * i + 1] == hex_upper((b[i] % 16) as int),
    decreases b.len(),
{
    if b.len() > 0 {
        lemma_hex_digits_index(b.drop_last());
        let p = b.drop_last();
        assert forall|i: int| 0 <= i < b.len() implies hex_digits(b)[2 * i] == hex_upper(
            (b[i] / 16) as int,
        ) && hex_digits(b)[2 * i + 1] == hex_upper((b[i] % 16) as int) by {
            if i < p.len() {
                assert(b[i] == p[i]);
            }
        }
    }
}

/// A string made of exactly the characters of `chars`, in their order, as
/// collecting a `char` iterator into a `String` (`String`'s `FromIterator<&char>`)
/// builds it.
#[verifier::external_body]
pub(crate) fn string_from_chars(chars: &Vec<char>) -> (s: String)
    ensures
        s@ == chars@,
{
    chars.iter().collect()
}

/// The bytes as upper-case hex, two digits to a byte and nothing between
/// them, as printing each byte with `{:02X}` writes them.
pub fn hex_dump(bytes: &[u8]) -> (s: String)
    ensures
        s@ == hex_digits(bytes@),
        s@.len() == 2 * bytes@.len(),
        forall|i: int|
            0 <= i < bytes@.len() ==> #[trigger] s@[2 * i] == hex_upper((bytes@[i] / 16) as int)
                && s@[2 * i + 1] == hex_upper((bytes@[i] % 16) as int),
{
    proof {
        lemma_hex_digits_index(bytes@);
    }
    let mut chars: Vec<char> = Vec::new();
    for i in 0..bytes.len()
        invariant
            chars@ == hex_digits(bytes@.take(i as int)),
    {
        let b = bytes[i];
        proof {
            assert(bytes@.take(i + 1).drop_last() =~= bytes@.take(i as int));
            assert(bytes@.take(i + 1).last() == b);
        }
        chars.push(hex_upper_digit(b / 16));
        chars.push(hex_upper_digit(b % 16));
        assert(chars@ =~= hex_digits(bytes@.take(i as int)) + byte_hex(b));
    }
    assert(bytes@.take(bytes@.len() as int) =~= bytes@);
    string_from_chars(&chars)
}

} // verus!
