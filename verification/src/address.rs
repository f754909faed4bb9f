//! Six-byte addresses (a MAC, or a SecureOn password): reading them from any
//! common spelling and writing them in the canonical `AA:BB:CC:DD:EE:FF` form.

use vstd::prelude::*;

use crate::hex::{
    byte_hex, hex_digit_value, hex_digits, hex_upper, hex_upper_digit, hex_value, is_hex_digit,
    lemma_hex_digits_index, lemma_hex_upper_by_code, lemma_hex_upper_value, lemma_hex_value_by_code,
    string_from_chars,
};

verus! {

/// Errors that can come out of [`parse_mac`] or [`parse_password`].
#[derive(Debug, Clone, PartialEq, Eq)]
pub enum ParseError {
    /// The input had fewer than 12 hex digits.
    TooShort,
    /// The input had more than 12 hex digits.
    TooLong,
    /// The input contained a character that wasn't a hex digit or one of the
    /// accepted separators (`:`, `-`, `.`, whitespace).
    InvalidChar(char),
}

/// Whether `c` has the Unicode `White_Space` property, which is what
/// `char::is_whitespace` tests: the controls U+0009 to U+000D, the space,
/// U+0085, the no-break space U+00A0, U+1680, U+2000 to U+200A, the line and
/// paragraph separators U+2028 and U+2029, U+202F, U+205F and U+3000.
pub open spec fn is_white_space(c: char) -> bool {
    let n = c as u32;
    ||| 0x09 <= n <= 0x0D
    ||| n == 0x20
    ||| n == 0x85
    ||| n == 0xA0
    ||| n == 0x1680
    ||| 0x2000 <= n <= 0x200A
    ||| n == 0x2028
    ||| n == 0x2029
    ||| n == 0x202F
    ||| n == 0x205F
    ||| n == 0x3000
}

/// The characters that a spelling of an address may put between its digits,
/// and that reading it skips: `:`, `-`, `.` and whitespace.
pub open spec fn is_separator(c: char) -> bool {
    c == ':' || c == '-' || c == '.' || is_white_space(c)
}

/// The characters of `s` that are not separators, in their order.
pub open spec fn significant_chars(s: Seq<char>) -> Seq<char>
    decreases s.len(),
{
    if s.len() == 0 {
        seq![]
    } else if is_separator(s.last()) {
        significant_chars(s.drop_last())
    } else {
        significant_chars(s.drop_last()).push(s.last())
    }
}

/// How many hex digits `d` starts with.
pub open spec fn leading_hex_count(d: Seq<char>) -> nat
    decreases d.len(),
{
    if d.len() == 0 || !is_hex_digit(d[0]) {
        0
    } else {
        1 + leading_hex_count(d.drop_first())
    }
}

/// The value of the hex digit `c`.
pub open spec fn digit(c: char) -> int {
    hex_value(c).unwrap() as int
}

/// The six bytes that twelve hex digits spell, two digits to a byte, the
/// high nibble first.
pub open spec fn address_bytes(d: Seq<char>) -> Seq<u8> {
    Seq::new(6, |i: int| (16 * digit(d[2 * i]) + digit(d[2 * i + 1])) as u8)
}

/// What reading the address spelled by `s` gives. The separators are
/// dropped; of the rest, the first character that is not a hex digit is
/// reported, unless twelve hex digits came before it, in which case the input
/// is too long; otherwise twelve digits make the address and fewer are too
/// short.
pub open spec fn parse_address(s: Seq<char>) -> Result<Seq<u8>, ParseError> {
    let d = significant_chars(s);
    let n = leading_hex_count(d);
    if n < d.len() && n <= 12 {
        Err(ParseError::InvalidChar(d[n as int]))
    } else if d.len() > 12 {
        Err(ParseError::TooLong)
    } else if d.len() < 12 {
        Err(ParseError::TooShort)
    } else {
        Ok(address_bytes(d))
    }
}

/// A parse result with the address taken by its bytes.
pub open spec fn address_result(r: Result<[u8; 6], ParseError>) -> Result<Seq<u8>, ParseError> {
    match r {
        Ok(b) => Ok(b@),
        Err(e) => Err(e),
    }
}

/// The byte that the digits of `d` have filled in at position `j` so far.
spec fn partial_byte(d: Seq<char>, j: int) -> int {
    if 2 * j + 1 < d.len() {
        16 * digit(d[2 * j]) + digit(d[2 * j + 1])
    } else if 2 * j < d.len() {
        digit(d[2 * j])
    } else {
        0
    }
}

/// Dropping separators commutes with concatenation.
pub proof fn lemma_significant_concat(a: Seq<char>, b: Seq<char>)
    ensures
        significant_chars(a + b) == significant_chars(a) + significant_chars(b),
    decreases b.len(),
{
    if b.len() == 0 {
        assert(a + b =~= a);
        assert(significant_chars(a) + significant_chars(b) =~= significant_chars(a));
    } else {
        lemma_significant_concat(a, b.drop_last());
        assert((a + b).drop_last() =~= a + b.drop_last());
        assert((a + b).last() == b.last());
        if !is_separator(b.last()) {
            assert(significant_chars(a) + significant_chars(b.drop_last()).push(b.last())
                =~= (significant_chars(a) + significant_chars(b.drop_last())).push(b.last()));
        }
    }
}

/// Hex digits at the front add up.
proof fn lemma_leading_hex_concat(p: Seq<char>, r: Seq<char>)
    requires
        forall|i: int| 0 <= i < p.len() ==> is_hex_digit(#[trigger] p[i]),
    ensures
        leading_hex_count(p + r) == p.len() + leading_hex_count(r),
    decreases p.len(),
{
    if p.len() == 0 {
        assert(p + r =~= r);
    } else {
        assert((p + r).drop_first() =~= p.drop_first() + r);
        assert((p + r)[0] == p[0]);
        lemma_leading_hex_concat(p.drop_first(), r);
    }
}

/// One more digit shifts the byte it lands in by a nibble.
proof fn lemma_shift_in_nibble(x: u8, v: u8)
    requires
        x < 16,
        v < 16,
    ensures
        (x << 4u8) | v == x * 16 + v,
{
    assert((x << 4u8) | v == x * 16 + v) by (bit_vector)
        requires
            x < 16,
            v < 16,
    ;
}

/// Whether `c` is whitespace in the sense of `char::is_whitespace`.
pub fn is_white_space_char(c: char) -> (b: bool)
    ensures
        b == is_white_space(c),
{
    let n = c as u32;
    (0x09 <= n && n <= 0x0D) || n == 0x20 || n == 0x85 || n == 0xA0 || n == 0x1680 || (0x2000
        <= n && n <= 0x200A) || n == 0x2028 || n == 0x2029 || n == 0x202F || n == 0x205F || n
        == 0x3000
}

/// Read six bytes from twelve hex digits, skipping separators.
fn parse_six_bytes(input: &str) -> (res: Result<[u8; 6], ParseError>)
    ensures
        address_result(res) == parse_address(input@),
{
    broadcast use vstd::string::group_string_axioms;

    let ghost s = input@;
    let mut out = [0u8; 6];
    let mut digits: usize = 0;
    for c in it: input.chars()
        invariant
            it.seq() == s,
            s == input@,
            digits == significant_chars(s.take(it.index() as int)).len(),
            digits <= 12,
            forall|i: int|
                0 <= i < digits ==> is_hex_digit(
                    #[trigger] significant_chars(s.take(it.index() as int))[i],
                ),
            forall|j: int|
                0 <= j < 6 ==> out[j] == partial_byte(
                    significant_chars(s.take(it.index() as int)),
                    j,
                ),
    {
        let ghost k = it.index() as int;
        let ghost p = significant_chars(s.take(k));
        assert(s.take(k + 1).drop_last() =~= s.take(k));
        assert(s.take(k + 1).last() == c);
        if !(c == ':' || c == '-' || c == '.' || is_white_space_char(c)) {
            assert(significant_chars(s.take(k + 1)) == p.push(c));
            let v = match hex_digit_value(c) {
                Some(v) => v,
                None => {
                    proof {
                        lemma_rest_after(s, k, p, c);
                        lemma_leading_hex_concat(p, significant_chars(s.skip(k)));
                    }
                    return Err(ParseError::InvalidChar(c));
                },
            };
            if digits >= 12 {
                proof {
                    lemma_rest_after(s, k, p, c);
                    lemma_leading_hex_concat(p.push(c), significant_chars(s.skip(k + 1)));
                    assert(p.push(c) + significant_chars(s.skip(k + 1)) =~= p
                        + significant_chars(s.skip(k)));
                }
                return Err(ParseError::TooLong);
            }
            let idx = digits / 2;
            let old_byte = out[idx];
            proof {
                if digits % 2 == 1 {
                    assert(old_byte == digit(p[2 * idx]));
                    assert(old_byte < 16);
                }
                lemma_shift_in_nibble(old_byte, v);
            }
            out[idx] = (old_byte << 4) | v;
            digits += 1;
            proof {
                let q = p.push(c);
                assert forall|j: int| 0 <= j < 6 implies out[j] == partial_byte(q, j) by {
                    if j != idx {
                        assert(partial_byte(q, j) == partial_byte(p, j));
                    }
                }
            }
        }
    }
    proof {
        assert(s.take(s.len() as int) =~= s);
        let d = significant_chars(s);
        lemma_leading_hex_concat(d, seq![]);
        assert(d + seq![] =~= d);
    }
    if digits < 12 {
        return Err(ParseError::TooShort);
    }
    proof {
        let d = significant_chars(s);
        assert(out@ =~= address_bytes(d));
    }
    Ok(out)
}

/// What follows position `k` of `s`, where `c` stands and is not a separator,
/// reads as `c` and then the rest.
proof fn lemma_rest_after(s: Seq<char>, k: int, p: Seq<char>, c: char)
    requires
        0 <= k < s.len(),
        s[k] == c,
        !is_separator(c),
        p == significant_chars(s.take(k)),
    ensures
        significant_chars(s) == p + significant_chars(s.skip(k)),
        significant_chars(s.skip(k)) == seq![c] + significant_chars(s.skip(k + 1)),
{
    lemma_significant_concat(s.take(k), s.skip(k));
    assert(s.take(k) + s.skip(k) =~= s);
    lemma_significant_concat(seq![c], s.skip(k + 1));
    assert(seq![c] + s.skip(k + 1) =~= s.skip(k));
    let one = seq![c];
    assert(one.drop_last() =~= Seq::<char>::empty());
    assert(one.last() == c);
    assert(significant_chars(one.drop_last()) =~= Seq::<char>::empty());
    assert(significant_chars(one) =~= seq![c]);
}

/// Parse a 48-bit MAC address from any common spelling (`:`, `-`, `.`, bare).
pub fn parse_mac(input: &str) -> (res: Result<[u8; 6], ParseError>)
    ensures
        address_result(res) == parse_address(input@),
        res matches Ok(b) ==> parse_address(input@) == Ok::<Seq<u8>, ParseError>(b@),
        res matches Err(e) ==> parse_address(input@) == Err::<Seq<u8>, ParseError>(e),
{
    parse_six_bytes(input)
}

/// Parse a six-byte SecureOn password from any common spelling.
pub fn parse_password(input: &str) -> (res: Result<[u8; 6], ParseError>)
    ensures
        address_result(res) == parse_address(input@),
        res matches Ok(b) ==> parse_address(input@) == Ok::<Seq<u8>, ParseError>(b@),
        res matches Err(e) ==> parse_address(input@) == Err::<Seq<u8>, ParseError>(e),
{
    parse_six_bytes(input)
}

/// The canonical spelling of the bytes `b`: each byte as two upper-case hex
/// digits, the bytes joined by `:`.
pub open spec fn colon_hex(b: Seq<u8>) -> Seq<char>
    decreases b.len(),
{
    if b.len() == 0 {
        seq![]
    } else if b.len() == 1 {
        byte_hex(b[0])
    } else {
        colon_hex(b.drop_last()) + seq![':'] + byte_hex(b.last())
    }
}

/// Format a six-byte address (MAC or SecureOn password) as canonical
/// `AA:BB:CC:DD:EE:FF`.
pub fn format_mac(bytes: [u8; 6]) -> (s: String)
    ensures
        s@ == colon_hex(bytes@),
        s@.len() == 17,
        forall|k: int| 0 <= k < 5 ==> #[trigger] s@[3 * k + 2] == ':',
        forall|i: int|
            0 <= i < 6 ==> #[trigger] s@[3 * i] == hex_upper((bytes[i] / 16) as int) && s@[3 * i
                + 1] == hex_upper((bytes[i] % 16) as int),
{
    proof {
        lemma_canonical_form(bytes@);
    }
    let mut chars: Vec<char> = Vec::with_capacity(17);
    for i in 0..6usize
        invariant
            chars@ == colon_hex(bytes@.take(i as int)),
    {
        let b = bytes[i];
        proof {
            assert(bytes@.take(i + 1).drop_last() =~= bytes@.take(i as int));
            assert(bytes@.take(i + 1).last() == b);
            if i == 0 {
                assert(bytes@.take(0) =~= Seq::<u8>::empty());
            }
        }
        if i > 0 {
            chars.push(':');
        }
        chars.push(hex_upper_digit(b / 16));
        chars.push(hex_upper_digit(b % 16));
        proof {
            if i == 0 {
                assert(chars@ =~= byte_hex(b));
            } else {
                assert(chars@ =~= colon_hex(bytes@.take(i as int)) + seq![':'] + byte_hex(b));
            }
        }
    }
    proof {
        assert(bytes@.take(6) =~= bytes@);
    }
    string_from_chars(&chars)
}

/// The text that `char`'s `Debug` formatting writes for `c` (the character
/// quoted, and escaped where it needs it). It depends on `c` alone.
pub uninterp spec fn char_debug_text(c: char) -> Seq<char>;

/// The `Debug` text of `c`, as `format!("{c:?}")` writes it. The contract
/// names the result and says nothing of its characters: the standard
/// library's documentation does not spell the `Debug` output of a `char` out.
#[verifier::external_body]
fn char_debug_string(c: char) -> (s: String)
    ensures
        s@ == char_debug_text(c),
{
    format!("{c:?}")
}

/// The message that describes `e` to a person.
pub open spec fn error_message(e: ParseError) -> Seq<char> {
    match e {
        ParseError::TooShort => "too few hex digits (need 12)"@,
        ParseError::TooLong => "too many hex digits (max 12)"@,
        ParseError::InvalidChar(c) => "invalid character: "@ + char_debug_text(c),
    }
}

/// An upper-case hex digit is a significant character.
proof fn lemma_byte_hex_significant(x: u8)
    ensures
        significant_chars(byte_hex(x)) == byte_hex(x),
        is_hex_digit(byte_hex(x)[0]) && is_hex_digit(byte_hex(x)[1]),
{
    lemma_hex_upper_value((x / 16) as int);
    lemma_hex_upper_value((x % 16) as int);
    let h = byte_hex(x);
    assert(h.drop_last().drop_last() =~= Seq::<char>::empty());
    assert(h.drop_last() =~= seq![h[0]]);
    assert(significant_chars(h.drop_last().drop_last()) =~= Seq::<char>::empty());
    assert(significant_chars(h.drop_last()) =~= seq![h[0]]);
    assert(significant_chars(h) =~= h);
}

/// Dropping the colons of the canonical spelling leaves the hex digits.
proof fn lemma_colon_hex_significant(b: Seq<u8>)
    ensures
        significant_chars(colon_hex(b)) == hex_digits(b),
    decreases b.len(),
{
    if b.len() == 1 {
        lemma_byte_hex_significant(b[0]);
        assert(b.drop_last() =~= Seq::<u8>::empty());
        assert(hex_digits(b.drop_last()) + byte_hex(b.last()) =~= byte_hex(b[0]));
    } else if b.len() > 1 {
        let p = b.drop_last();
        lemma_colon_hex_significant(p);
        lemma_byte_hex_significant(b.last());
        let colon = seq![':'];
        lemma_significant_concat(colon_hex(p), colon);
        lemma_significant_concat(colon_hex(p) + colon, byte_hex(b.last()));
        assert(colon.drop_last() =~= Seq::<char>::empty());
        assert(significant_chars(colon.drop_last()) =~= Seq::<char>::empty());
        assert(significant_chars(colon) =~= Seq::<char>::empty());
        assert(hex_digits(p) + Seq::<char>::empty() =~= hex_digits(p));
    }
}

/// Reading back the canonical spelling of six bytes gives those bytes.
pub proof fn lemma_format_parse_roundtrip(b: Seq<u8>)
    requires
        b.len() == 6,
    ensures
        parse_address(colon_hex(b)) == Ok::<Seq<u8>, ParseError>(b),
{
    lemma_colon_hex_significant(b);
    lemma_hex_digits_index(b);
    let d = hex_digits(b);
    assert forall|i: int| 0 <= i < d.len() implies is_hex_digit(#[trigger] d[i]) by {
        let j = i / 2;
        lemma_hex_upper_value((b[j] / 16) as int);
        lemma_hex_upper_value((b[j] % 16) as int);
        if i % 2 == 0 {
            assert(d[2 * j] == hex_upper((b[j] / 16) as int));
        } else {
            assert(d[2 * j + 1] == hex_upper((b[j] % 16) as int));
        }
    }
    lemma_leading_hex_concat(d, seq![]);
    assert(d + seq![] =~= d);
    assert forall|i: int| 0 <= i < 6 implies #[trigger] address_bytes(d)[i] == b[i] by {
        lemma_hex_upper_value((b[i] / 16) as int);
        lemma_hex_upper_value((b[i] % 16) as int);
    }
    assert(address_bytes(d) =~= b);
}

/// Putting a separator anywhere into a spelling does not change what it
/// reads as: `:`, `-`, `.` and whitespace may stand between any two digits.
pub proof fn lemma_separator_anywhere(s: Seq<char>, i: int, c: char)
    requires
        0 <= i <= s.len(),
        is_separator(c),
    ensures
        parse_address(s.take(i) + seq![c] + s.skip(i)) == parse_address(s),
{
    let one = seq![c];
    lemma_significant_concat(s.take(i), one);
    lemma_significant_concat(s.take(i) + one, s.skip(i));
    lemma_significant_concat(s.take(i), s.skip(i));
    assert(s.take(i) + s.skip(i) =~= s);
    assert(one.drop_last() =~= Seq::<char>::empty());
    assert(significant_chars(one.drop_last()) =~= Seq::<char>::empty());
    assert(significant_chars(one) =~= Seq::<char>::empty());
    assert(significant_chars(s.take(i)) + Seq::<char>::empty() =~= significant_chars(s.take(i)));
}

/// Two spellings that agree character by character, except that where they
/// differ both have a hex digit of the same value (`a` against `A`, say).
pub open spec fn same_digits(s: Seq<char>, t: Seq<char>) -> bool {
    &&& s.len() == t.len()
    &&& forall|i: int|
        0 <= i < s.len() ==> s[i] == t[i] || (is_hex_digit(s[i]) && hex_value(s[i]) == hex_value(
            t[i],
        ))
}

proof fn lemma_same_digits_significant(s: Seq<char>, t: Seq<char>)
    requires
        same_digits(s, t),
    ensures
        same_digits(significant_chars(s), significant_chars(t)),
    decreases s.len(),
{
    if s.len() > 0 {
        assert(same_digits(s.drop_last(), t.drop_last()));
        lemma_same_digits_significant(s.drop_last(), t.drop_last());
        assert(s.last() == s[s.len() - 1]);
    }
}

proof fn lemma_same_digits_leading(d: Seq<char>, e: Seq<char>)
    requires
        same_digits(d, e),
    ensures
        leading_hex_count(d) == leading_hex_count(e),
    decreases d.len(),
{
    if d.len() > 0 {
        assert(same_digits(d.drop_first(), e.drop_first()));
        lemma_same_digits_leading(d.drop_first(), e.drop_first());
    }
}

/// The first `leading_hex_count(d)` characters of `d` are hex digits, and the
/// one after them, if any, is not.
proof fn lemma_leading_hex_facts(d: Seq<char>)
    ensures
        leading_hex_count(d) <= d.len(),
        forall|i: int| 0 <= i < leading_hex_count(d) ==> is_hex_digit(#[trigger] d[i]),
        leading_hex_count(d) < d.len() ==> !is_hex_digit(d[leading_hex_count(d) as int]),
    decreases d.len(),
{
    if d.len() > 0 && is_hex_digit(d[0]) {
        let r = d.drop_first();
        lemma_leading_hex_facts(r);
        assert forall|i: int| 0 <= i < leading_hex_count(d) implies is_hex_digit(#[trigger] d[i]) by {
            if i > 0 {
                assert(d[i] == r[i - 1]);
            }
        }
    }
}

/// Hex digits are read without regard to case: spellings that differ only in
/// the case of their hex letters read the same, errors included.
pub proof fn lemma_case_insensitive(s: Seq<char>, t: Seq<char>)
    requires
        same_digits(s, t),
    ensures
        parse_address(s) == parse_address(t),
{
    let d = significant_chars(s);
    let e = significant_chars(t);
    lemma_same_digits_significant(s, t);
    lemma_same_digits_leading(d, e);
    lemma_leading_hex_facts(d);
    lemma_leading_hex_facts(e);
    let n = leading_hex_count(d);
    if n < d.len() && n <= 12 {
        assert(d[n as int] == e[n as int]);
    } else if d.len() == 12 {
        assert forall|i: int| 0 <= i < 6 implies #[trigger] address_bytes(d)[i] == address_bytes(
            e,
        )[i] by {
            assert(digit(d[2 * i]) == digit(e[2 * i]));
            assert(digit(d[2 * i + 1]) == digit(e[2 * i + 1]));
        }
        assert(address_bytes(d) =~= address_bytes(e));
    }
}

proof fn lemma_colon_hex_layout(b: Seq<u8>)
    requires
        b.len() >= 1,
    ensures
        colon_hex(b).len() == 3 * b.len() - 1,
        forall|k: int| 0 <= k < b.len() - 1 ==> #[trigger] colon_hex(b)[3 * k + 2] == ':',
        forall|i: int|
            0 <= i < b.len() ==> #[trigger] colon_hex(b)[3 * i] == hex_upper((b[i] / 16) as int)
                && colon_hex(b)[3 * i + 1] == hex_upper((b[i] % 16) as int),
    decreases b.len(),
{
    if b.len() > 1 {
        let p = b.drop_last();
        lemma_colon_hex_layout(p);
        assert forall|i: int| 0 <= i < b.len() implies #[trigger] colon_hex(b)[3 * i] == hex_upper(
            (b[i] / 16) as int,
        ) && colon_hex(b)[3 * i + 1] == hex_upper((b[i] % 16) as int) by {
            if i < p.len() {
                assert(b[i] == p[i]);
            }
        }
    }
}

/// `format_mac` writes the canonical form `AA:BB:CC:DD:EE:FF`: seventeen
/// characters, the two upper-case hex digits of byte `i` at `3i` and `3i + 1`,
/// and a colon after every byte but the last.
pub proof fn lemma_canonical_form(b: Seq<u8>)
    requires
        b.len() == 6,
    ensures
        colon_hex(b).len() == 17,
        forall|k: int| 0 <= k < 5 ==> #[trigger] colon_hex(b)[3 * k + 2] == ':',
        forall|i: int|
            0 <= i < 6 ==> #[trigger] colon_hex(b)[3 * i] == hex_upper((b[i] / 16) as int)
                && colon_hex(b)[3 * i + 1] == hex_upper((b[i] % 16) as int),
        forall|i: int|
            0 <= i < 6 ==> (#[trigger] colon_hex(b)[3 * i] as u32) == (if b[i] / 16 < 10 {
                0x30 + b[i] / 16
            } else {
                0x37 + b[i] / 16
            }) && (colon_hex(b)[3 * i + 1] as u32) == (if b[i] % 16 < 10 {
                0x30 + b[i] % 16
            } else {
                0x37 + b[i] % 16
            }),
{
    lemma_colon_hex_layout(b);
    assert forall|i: int| 0 <= i < 6 implies (#[trigger] colon_hex(b)[3 * i] as u32) == (if b[i]
        / 16 < 10 {
        0x30 + b[i] / 16
    } else {
        0x37 + b[i] / 16
    }) && (colon_hex(b)[3 * i + 1] as u32) == (if b[i] % 16 < 10 {
        0x30 + b[i] % 16
    } else {
        0x37 + b[i] % 16
    }) by {
        lemma_hex_upper_by_code((b[i] / 16) as int);
        lemma_hex_upper_by_code((b[i] % 16) as int);
    }
}

/// An address is read from exactly twelve hex digits and nothing else: reading
/// succeeds if and only if the input holds twelve characters besides its
/// separators, all of them hex digits; and then byte `i` is sixteen times the
/// value of digit `2i` plus the value of digit `2i + 1`, the high nibble first.
pub proof fn lemma_parsed_from_twelve_digits(s: Seq<char>)
    ensures
        parse_address(s) is Ok <==> (significant_chars(s).len() == 12 && forall|i: int|
            0 <= i < 12 ==> is_hex_digit(#[trigger] significant_chars(s)[i])),
        parse_address(s) is Ok ==> parse_address(s)->Ok_0.len() == 6,
        parse_address(s) is Ok ==> forall|i: int|
            0 <= i < 6 ==> #[trigger] parse_address(s)->Ok_0[i] == 16 * (hex_value(
                significant_chars(s)[2 * i],
            )->Some_0 as int) + (hex_value(significant_chars(s)[2 * i + 1])->Some_0 as int),
{
    let d = significant_chars(s);
    lemma_leading_hex_facts(d);
    if d.len() == 12 && forall|i: int| 0 <= i < 12 ==> is_hex_digit(#[trigger] d[i]) {
        lemma_leading_hex_concat(d, seq![]);
        assert(d + seq![] =~= d);
    }
    if parse_address(s) is Ok {
        assert forall|i: int| 0 <= i < 6 implies #[trigger] parse_address(s)->Ok_0[i] == 16 * (
        hex_value(d[2 * i])->Some_0 as int) + (hex_value(d[2 * i + 1])->Some_0 as int) by {
            assert(is_hex_digit(d[2 * i]) && is_hex_digit(d[2 * i + 1]));
            lemma_hex_value_by_code(d[2 * i]);
            lemma_hex_value_by_code(d[2 * i + 1]);
        }
    }
}

/// The errors, told apart by what the input's digits are (`d` being the input
/// without its separators): `TooShort` exactly when all of `d` are hex digits
/// and there are fewer than twelve; `TooLong` exactly when the first thirteen
/// of `d` are all hex digits; `InvalidChar(c)` exactly when `c` is the first
/// character of `d` that is not a hex digit and at most twelve digits come
/// before it.
pub proof fn lemma_parse_errors(s: Seq<char>)
    ensures
        parse_address(s) == Err::<Seq<u8>, ParseError>(ParseError::TooShort) <==> (
        significant_chars(s).len() < 12 && forall|i: int|
            0 <= i < significant_chars(s).len() ==> is_hex_digit(
                #[trigger] significant_chars(s)[i],
            )),
        parse_address(s) == Err::<Seq<u8>, ParseError>(ParseError::TooLong) <==> (
        significant_chars(s).len() > 12 && forall|i: int|
            0 <= i < 13 ==> is_hex_digit(#[trigger] significant_chars(s)[i])),
        forall|c: char|
            parse_address(s) == Err::<Seq<u8>, ParseError>(ParseError::InvalidChar(c)) <==> (
            exists|k: int|
                0 <= k <= 12 && k < significant_chars(s).len() && significant_chars(s)[k] == c
                    && !is_hex_digit(c) && forall|i: int|
                    0 <= i < k ==> is_hex_digit(#[trigger] significant_chars(s)[i])),
{
    let d = significant_chars(s);
    let n = leading_hex_count(d);
    lemma_leading_hex_facts(d);
    if n < d.len() && n <= 12 {
        assert(!is_hex_digit(d[n as int]));
        assert forall|c: char|
            parse_address(s) == Err::<Seq<u8>, ParseError>(ParseError::InvalidChar(c)) <==> (
            exists|k: int|
                0 <= k <= 12 && k < d.len() && d[k] == c && !is_hex_digit(c) && forall|i: int|
                    0 <= i < k ==> is_hex_digit(#[trigger] d[i])) by {
            if exists|k: int|
                0 <= k <= 12 && k < d.len() && d[k] == c && !is_hex_digit(c) && forall|i: int|
                    0 <= i < k ==> is_hex_digit(#[trigger] d[i]) {
                let k = choose|k: int|
                    0 <= k <= 12 && k < d.len() && d[k] == c && !is_hex_digit(c) && forall|i: int|
                        0 <= i < k ==> is_hex_digit(#[trigger] d[i]);
                if k < n {
                    assert(is_hex_digit(d[k]));
                } else if k > n {
                    assert(is_hex_digit(d[n as int]));
                }
            }
            if parse_address(s) == Err::<Seq<u8>, ParseError>(ParseError::InvalidChar(c)) {
                assert(d[n as int] == c);
            }
        }
        if d.len() > 12 {
            if forall|i: int| 0 <= i < 13 ==> is_hex_digit(#[trigger] d[i]) {
                assert(is_hex_digit(d[n as int]));
            }
        }
        if d.len() < 12 {
            if forall|i: int| 0 <= i < d.len() ==> is_hex_digit(#[trigger] d[i]) {
                assert(is_hex_digit(d[n as int]));
            }
        }
    } else {
        assert forall|k: int|
            0 <= k <= 12 && k < d.len() && (forall|i: int|
                0 <= i < k ==> is_hex_digit(#[trigger] d[i])) implies is_hex_digit(
            #[trigger] d[k],
        ) by {
            assert(k < n);
        }
        if d.len() > 12 {
            assert forall|i: int| 0 <= i < 13 implies is_hex_digit(#[trigger] d[i]) by {
                assert(i < n);
            }
        }
        if d.len() < 12 {
            assert(n == d.len());
        }
    }
}

/// The separators are exactly `:`, `-`, `.` and the Unicode `White_Space`
/// characters: U+0009 to U+000D, U+0020, U+0085, U+00A0, U+1680, U+2000 to
/// U+200A, U+2028, U+2029, U+202F, U+205F and U+3000. No hex digit is one.
pub proof fn lemma_separator_chars(c: char)
    ensures
        is_separator(c) <==> (c == ':' || c == '-' || c == '.' || 0x09 <= (c as u32) <= 0x0D
            || (c as u32) == 0x20 || (c as u32) == 0x85 || (c as u32) == 0xA0 || (c as u32)
            == 0x1680 || 0x2000 <= (c as u32) <= 0x200A || (c as u32) == 0x2028 || (c as u32)
            == 0x2029 || (c as u32) == 0x202F || (c as u32) == 0x205F || (c as u32) == 0x3000),
        is_hex_digit(c) ==> !is_separator(c),
{
    lemma_hex_value_by_code(c);
}

/// Reading drops the separators and keeps every other character in its
/// order: a spelling with no separator is read as it stands, and one made of
/// separators only holds no digits.
pub proof fn lemma_significant_chars_keep_the_rest(s: Seq<char>)
    ensures
        (forall|i: int| 0 <= i < s.len() ==> !is_separator(#[trigger] s[i]))
            ==> significant_chars(s) == s,
        (forall|i: int| 0 <= i < s.len() ==> is_separator(#[trigger] s[i]))
            ==> significant_chars(s).len() == 0,
    decreases s.len(),
{
    if s.len() > 0 {
        lemma_significant_chars_keep_the_rest(s.drop_last());
        if forall|i: int| 0 <= i < s.len() ==> !is_separator(#[trigger] s[i]) {
            assert(forall|i: int|
                0 <= i < s.drop_last().len() ==> !is_separator(#[trigger] s.drop_last()[i])) by {
                assert forall|i: int| 0 <= i < s.drop_last().len() implies !is_separator(
                    #[trigger] s.drop_last()[i],
                ) by {
                    assert(s.drop_last()[i] == s[i]);
                }
            }
            assert(!is_separator(s[s.len() - 1]));
            assert(s.drop_last().push(s.last()) =~= s);
        }
        if forall|i: int| 0 <= i < s.len() ==> is_separator(#[trigger] s[i]) {
            assert forall|i: int| 0 <= i < s.drop_last().len() implies is_separator(
                #[trigger] s.drop_last()[i],
            ) by {
                assert(s.drop_last()[i] == s[i]);
            }
            assert(is_separator(s[s.len() - 1]));
        }
    }
}

impl ParseError {
    /// The message that describes this error, as its `Display` would write it.
    pub fn message(&self) -> (m: String)
        ensures
            m@ == error_message(*self),
            *self == ParseError::TooShort ==> m@ == "too few hex digits (need 12)"@,
            *self == ParseError::TooLong ==> m@ == "too many hex digits (max 12)"@,
            *self matches ParseError::InvalidChar(c) ==> m@ == "invalid character: "@
                + char_debug_text(c),
    {
        match self {
            ParseError::TooShort => String::from_str("too few hex digits (need 12)"),
            ParseError::TooLong => String::from_str("too many hex digits (max 12)"),
            ParseError::InvalidChar(c) => {
                let mut m = String::from_str("invalid character: ");
                let shown = char_debug_string(*c);
                m.append(shown.as_str());
                m
            },
        }
    }
}

} // verus!
