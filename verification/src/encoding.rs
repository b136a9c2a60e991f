//! Encodings at the engine's boundary.
//!
//! Messages and signatures cross the boundary as hexadecimal strings;
//! governance commands travel as UTF-8 text inside message bytes, and
//! their threshold argument as a decimal number.  The hexadecimal and
//! UTF-8 conversions call outside code behind exact contracts; the
//! decimal conversions are implemented and verified here.

use vstd::prelude::*;
use vstd::string::*;
use vstd::utf8::{decode_utf8, valid_utf8};

verus! {

/// The lowercase hexadecimal digit for a value below sixteen.
pub open spec fn hex_digit_char(d: int) -> char {
    if d == 0 {
        '0'
    } else if d == 1 {
        '1'
    } else if d == 2 {
        '2'
    } else if d == 3 {
        '3'
    } else if d == 4 {
        '4'
    } else if d == 5 {
        '5'
    } else if d == 6 {
        '6'
    } else if d == 7 {
        '7'
    } else if d == 8 {
        '8'
    } else if d == 9 {
        '9'
    } else if d == 10 {
        'a'
    } else if d == 11 {
        'b'
    } else if d == 12 {
        'c'
    } else if d == 13 {
        'd'
    } else if d == 14 {
        'e'
    } else {
        'f'
    }
}

/// The lowercase hexadecimal encoding of a byte string: two digits per
/// byte, high nibble first.
pub open spec fn hex_chars_of(b: Seq<u8>) -> Seq<char> {
    Seq::new(
        b.len() * 2,
        |i: int|
            if i % 2 == 0 {
                hex_digit_char(b[i / 2] as int / 16)
            } else {
                hex_digit_char(b[i / 2] as int % 16)
            },
    )
}

/// Whether the character is a hexadecimal digit, upper or lower case.
pub open spec fn is_hex_digit(c: char) -> bool {
    (48 <= c as u32 && c as u32 <= 57) || (97 <= c as u32 && c as u32 <= 102) || (65 <= c as u32
        && c as u32 <= 70)
}

/// The value of a hexadecimal digit.
pub open spec fn hex_digit_val(c: char) -> int {
    if 48 <= c as u32 && c as u32 <= 57 {
        c as u32 - 48
    } else if 97 <= c as u32 && c as u32 <= 102 {
        c as u32 - 87
    } else {
        c as u32 - 55
    }
}

/// Whether the text is a well-formed hexadecimal encoding: even length,
/// hexadecimal digits throughout.
pub open spec fn is_hex_str(s: Seq<char>) -> bool {
    s.len() % 2 == 0 && forall|i: int| 0 <= i < s.len() ==> is_hex_digit(#[trigger] s[i])
}

/// The bytes a well-formed hexadecimal text encodes.
pub open spec fn hex_val_of(s: Seq<char>) -> Seq<u8> {
    Seq::new(
        s.len() / 2,
        |i: int| (16 * hex_digit_val(s[2 * i]) + hex_digit_val(s[2 * i + 1])) as u8,
    )
}

/// Hexadecimal encoding round-trips: what `hex_chars_of` produces is a
/// well-formed hexadecimal text, and decoding it gives back the bytes.
pub proof fn lemma_hex_round_trip(b: Seq<u8>)
    ensures
        is_hex_str(hex_chars_of(b)),
        hex_val_of(hex_chars_of(b)) == b,
{
    let s = hex_chars_of(b);
    assert forall|i: int| 0 <= i < s.len() implies is_hex_digit(#[trigger] s[i]) by {
        lemma_hex_digit_char_props(if i % 2 == 0 {
            b[i / 2] as int / 16
        } else {
            b[i / 2] as int % 16
        });
    }
    assert forall|i: int| 0 <= i < b.len() implies hex_val_of(s)[i] == b[i] by {
        let hi = b[i] as int / 16;
        let lo = b[i] as int % 16;
        lemma_hex_digit_char_props(hi);
        lemma_hex_digit_char_props(lo);
        assert(s[2 * i] == hex_digit_char(hi));
        assert(s[2 * i + 1] == hex_digit_char(lo));
        assert(hex_val_of(s)[i] == (16 * hi + lo) as u8);
    }
    assert(hex_val_of(s) =~= b);
}

/// The digit characters are hexadecimal digits with their own value.
proof fn lemma_hex_digit_char_props(d: int)
    requires
        0 <= d < 16,
    ensures
        is_hex_digit(hex_digit_char(d)),
        hex_digit_val(hex_digit_char(d)) == d,
{
    assert('0' as u32 == 48 && '1' as u32 == 49 && '2' as u32 == 50 && '3' as u32 == 51
        && '4' as u32 == 52 && '5' as u32 == 53 && '6' as u32 == 54 && '7' as u32 == 55
        && '8' as u32 == 56 && '9' as u32 == 57 && 'a' as u32 == 97 && 'b' as u32 == 98
        && 'c' as u32 == 99 && 'd' as u32 == 100 && 'e' as u32 == 101 && 'f' as u32 == 102);
}

/// The hexadecimal encodings of a sequence of byte strings.
pub open spec fn hex_all(s: Seq<Seq<u8>>) -> Seq<Seq<char>> {
    s.map_values(|b: Seq<u8>| hex_chars_of(b))
}

/// Relies on `hex::encode`: the result is the lowercase hexadecimal
/// encoding of the input, two digits per byte, high nibble first.
#[verifier::external_body]
pub(crate) fn hex_encode(data: &[u8]) -> (r: String)
    ensures
        r@ == hex_chars_of(data@),
{
    hex::encode(data)
}

/// Whether the text begins with the given prefix.
pub(crate) fn str_starts_with(s: &str, prefix: &str) -> (r: bool)
    ensures
        r == prefix@.is_prefix_of(s@),
{
    let n = s.unicode_len();
    let m = prefix.unicode_len();
    if m > n {
        assert(!prefix@.is_prefix_of(s@));
        return false;
    }
    let mut i: usize = 0;
    while i < m
        invariant
            i <= m,
            m <= n,
            m == prefix@.len(),
            n == s@.len(),
            forall|j: int| 0 <= j < i ==> prefix@[j] == s@[j],
        decreases m - i,
    {
        if s.get_char(i) != prefix.get_char(i) {
            assert(!prefix@.is_prefix_of(s@)) by {
                if prefix@.is_prefix_of(s@) {
                    assert(prefix@ =~= s@.subrange(0, m as int));
                    assert(prefix@[i as int] == s@[i as int]);
                }
            }
            return false;
        }
        i = i + 1;
    }
    assert(prefix@ =~= s@.subrange(0, m as int));
    true
}

/// Relies on `hex::decode`: decoding succeeds exactly on even-length
/// strings of hexadecimal digits (either case) and returns the encoded
/// bytes.
#[verifier::external_body]
pub(crate) fn hex_decode(s: &str) -> (r: Option<Vec<u8>>)
    ensures
        r matches Some(b) ==> is_hex_str(s@) && b@ == hex_val_of(s@),
        r is None ==> !is_hex_str(s@),
{
    hex::decode(s).ok()
}

/// Relies on `String::from_utf8`: conversion succeeds exactly on valid
/// UTF-8 and yields the decoded characters.
#[verifier::external_body]
pub(crate) fn bytes_to_text(bytes: Vec<u8>) -> (r: Option<String>)
    ensures
        r matches Some(s) ==> valid_utf8(bytes@) && s@ == decode_utf8(bytes@),
        r is None ==> !valid_utf8(bytes@),
{
    String::from_utf8(bytes).ok()
}

/// The decimal digit character for a value below ten.
pub open spec fn dec_digit_char(d: int) -> char {
    if d == 0 {
        '0'
    } else if d == 1 {
        '1'
    } else if d == 2 {
        '2'
    } else if d == 3 {
        '3'
    } else if d == 4 {
        '4'
    } else if d == 5 {
        '5'
    } else if d == 6 {
        '6'
    } else if d == 7 {
        '7'
    } else if d == 8 {
        '8'
    } else {
        '9'
    }
}

/// The decimal representation of a byte, without leading zeros.
pub open spec fn dec_chars_of(n: u8) -> Seq<char> {
    if n < 10 {
        seq![dec_digit_char(n as int)]
    } else if n < 100 {
        seq![dec_digit_char(n as int / 10), dec_digit_char(n as int % 10)]
    } else {
        seq![
            dec_digit_char(n as int / 100),
            dec_digit_char((n as int / 10) % 10),
            dec_digit_char(n as int % 10),
        ]
    }
}

/// Whether the character is a decimal digit.
pub open spec fn is_dec_digit(c: char) -> bool {
    48 <= c as u32 && c as u32 <= 57
}

/// The value of a decimal digit.
pub open spec fn dec_digit_val(c: char) -> int {
    c as u32 - 48
}

/// Whether the text consists of decimal digits only.
pub open spec fn all_dec_digits(s: Seq<char>) -> bool {
    forall|i: int| 0 <= i < s.len() ==> is_dec_digit(#[trigger] s[i])
}

/// The numeric value of a string of decimal digits.
pub open spec fn dec_val_of(s: Seq<char>) -> int
    decreases s.len(),
{
    if s.len() == 0 {
        0
    } else {
        dec_val_of(s.drop_last()) * 10 + dec_digit_val(s.last())
    }
}

/// The numeric value of a digit string, saturated at 256: enough to
/// decide whether the value fits in a byte.
pub open spec fn dec_val_capped(s: Seq<char>) -> int
    decreases s.len(),
{
    if s.len() == 0 {
        0
    } else {
        let v = dec_val_capped(s.drop_last()) * 10 + dec_digit_val(s.last());
        if v > 255 {
            256
        } else {
            v
        }
    }
}

/// The saturated value agrees with the exact value below 256 and reads
/// 256 exactly when the value overflows a byte.
pub proof fn lemma_dec_val_capped(s: Seq<char>)
    requires
        all_dec_digits(s),
    ensures
        0 <= dec_val_capped(s) <= 256,
        dec_val_of(s) >= 0,
        dec_val_capped(s) == if dec_val_of(s) <= 255 {
            dec_val_of(s)
        } else {
            256 as int
        },
    decreases s.len(),
{
    if s.len() > 0 {
        assert(all_dec_digits(s.drop_last())) by {
            assert(forall|i: int|
                0 <= i < s.len() - 1 ==> s.drop_last()[i] == #[trigger] s[i]);
        }
        lemma_dec_val_capped(s.drop_last());
        assert(is_dec_digit(s.last()));
    }
}

/// The result of parsing a byte from decimal text: an optional leading
/// plus sign, then at least one digit, with a value that fits in a byte.
pub open spec fn parse_u8_spec(s: Seq<char>) -> Option<u8> {
    let digits = if s.len() > 0 && s[0] == '+' {
        s.drop_first()
    } else {
        s
    };
    if digits.len() > 0 && all_dec_digits(digits) && dec_val_of(digits) <= 255 {
        Some(dec_val_of(digits) as u8)
    } else {
        None
    }
}

/// Parse a byte from decimal text, accepting exactly what
/// [`parse_u8_spec`] describes.
pub fn parse_u8_dec(s: &str) -> (r: Option<u8>)
    ensures
        r == parse_u8_spec(s@),
{
    let n = s.unicode_len();
    let mut i: usize = 0;
    if n > 0 && s.get_char(0) == '+' {
        i = 1;
    }
    let ghost digits = if s@.len() > 0 && s@[0] == '+' {
        s@.drop_first()
    } else {
        s@
    };
    let start = i;
    assert(digits.len() == n - start);
    if i >= n {
        assert(digits.len() == 0);
        return None;
    }
    let mut val: u32 = 0;
    while i < n
        invariant
            start <= i <= n,
            start <= 1,
            n == s@.len(),
            digits == if s@.len() > 0 && s@[0] == '+' {
                s@.drop_first()
            } else {
                s@
            },
            digits.len() == n - start,
            forall|j: int| 0 <= j < i - start ==> digits[j] == s@[j + start],
            all_dec_digits(digits.take(i - start)),
            0 <= val <= 256,
            val == dec_val_capped(digits.take(i - start)),
        decreases n - i,
    {
        let c = s.get_char(i);
        let u = c as u32;
        if u < 48 || u > 57 {
            assert(digits[i - start] == s@[i as int]);
            assert(!is_dec_digit(digits[i - start]));
            return None;
        }
        let d = u - 48;
        proof {
            let t = digits.take(i - start + 1);
            assert(t.drop_last() =~= digits.take(i - start));
            assert(t.last() == s@[i as int]);
            assert(all_dec_digits(t)) by {
                assert(forall|j: int|
                    0 <= j < t.len() - 1 ==> t[j] == #[trigger] digits.take(i - start)[j]);
            }
        }
        val = val * 10 + d;
        if val > 255 {
            val = 256;
        }
        i = i + 1;
    }
    proof {
        assert(digits.take(n - start) =~= digits);
        lemma_dec_val_capped(digits);
    }
    if val <= 255 {
        Some(val as u8)
    } else {
        None
    }
}

/// The decimal digit character as a one-character string.
fn dec_digit_str(d: u8) -> (r: &'static str)
    requires
        d < 10,
    ensures
        r@ =~= seq![dec_digit_char(d as int)],
{
    proof {
        reveal_strlit("0");
        reveal_strlit("1");
        reveal_strlit("2");
        reveal_strlit("3");
        reveal_strlit("4");
        reveal_strlit("5");
        reveal_strlit("6");
        reveal_strlit("7");
        reveal_strlit("8");
        reveal_strlit("9");
    }
    match d {
        0 => "0",
        1 => "1",
        2 => "2",
        3 => "3",
        4 => "4",
        5 => "5",
        6 => "6",
        7 => "7",
        8 => "8",
        _ => "9",
    }
}

/// Print a byte in decimal, without leading zeros.
pub fn u8_to_dec_string(n: u8) -> (r: String)
    ensures
        r@ == dec_chars_of(n),
{
    let mut s = String::new();
    if n >= 100 {
        s.append(dec_digit_str(n / 100));
    }
    if n >= 10 {
        s.append(dec_digit_str((n / 10) % 10));
    }
    s.append(dec_digit_str(n % 10));
    proof {
        assert(s@ =~= dec_chars_of(n));
    }
    s
}

} // verus!
