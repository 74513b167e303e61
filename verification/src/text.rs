//! Text: comparison, the characters of a string, decimal numbers and hexadecimal bytes.

use vstd::prelude::*;
use vstd::utf8::{encode_utf8, encode_utf8_decode_utf8};

use crate::bytes::same_bytes;

verus! {

/// Two texts with the same UTF-8 bytes are the same text.
pub proof fn lemma_utf8_injective(a: Seq<char>, b: Seq<char>)
    requires
        encode_utf8(a) == encode_utf8(b),
    ensures
        a == b,
{
    encode_utf8_decode_utf8(a);
    encode_utf8_decode_utf8(b);
}

/// Whether two texts are the same.
pub fn same_text(a: &str, b: &str) -> (r: bool)
    ensures
        r == (a@ == b@),
{
    let r = same_bytes(a.as_bytes(), b.as_bytes());
    proof {
        if encode_utf8(a@) == encode_utf8(b@) {
            lemma_utf8_injective(a@, b@);
        }
    }
    r
}

/// `String::push` appends one character.
pub assume_specification[ String::push ](text: &mut String, c: char)
    ensures
        final(text)@ == old(text)@.push(c),
;

/// The characters of a text.
pub fn characters(text: &str) -> (r: Vec<char>)
    ensures
        r@ == text@,
{
    let mut out: Vec<char> = Vec::new();
    for c in it: text.chars()
        invariant
            it.seq() == text@,
            out@ == text@.take(it.index() as int),
    {
        out.push(c);
        assert(out@ =~= text@.take(it.index() + 1));
    }
    assert(text@.take(text@.len() as int) =~= text@);
    out
}

/// The text made of a list of characters.
pub fn text_of(chars: &[char]) -> (r: String)
    ensures
        r@ == chars@,
{
    let mut out = String::new();
    let mut i: usize = 0;
    while i < chars.len()
        invariant
            i <= chars.len(),
            out@ == chars@.take(i as int),
        decreases chars.len() - i,
    {
        out.push(chars[i]);
        i += 1;
        assert(chars@.take(i as int) =~= chars@.take(i - 1).push(chars@[i - 1]));
    }
    assert(chars@.take(chars@.len() as int) =~= chars@);
    out
}

/// The concatenation of three texts.
pub fn joined(a: &str, b: &str, c: &str) -> (r: String)
    ensures
        r@ == a@ + b@ + c@,
{
    let mut out = a.to_owned();
    out.append(b);
    out.append(c);
    out
}

/// The character of a digit, in base ten or sixteen (lower case).
pub open spec fn digit_char(d: nat) -> char {
    if d < 10 {
        (48 + d) as char
    } else {
        (87 + d) as char
    }
}

/// `n` in the given base, without leading zeros.
pub open spec fn digits_text(n: nat, base: nat) -> Seq<char>
    decreases n,
{
    if n < base || base < 2 {
        seq![digit_char(n)]
    } else {
        proof {
            assert(n / base < n) by (nonlinear_arith)
                requires
                    base >= 2,
                    n >= base,
            ;
        }
        digits_text(n / base, base).push(digit_char(n % base))
    }
}

/// `n` in base ten.
pub open spec fn decimal_text(n: nat) -> Seq<char> {
    digits_text(n, 10)
}

fn digit_of(d: u8) -> (r: char)
    requires
        d < 16,
    ensures
        r == digit_char(d as nat),
{
    if d < 10 {
        (48 + d) as char
    } else {
        (87 + d) as char
    }
}

/// A number in the given base, without leading zeros and in lower case.
pub fn in_base(n: u128, base: u8) -> (r: String)
    requires
        2 <= base <= 16,
    ensures
        r@ == digits_text(n as nat, base as nat),
    decreases n,
{
    let wide: u128 = base as u128;
    if n < wide {
        let mut out = String::new();
        out.push(digit_of(n as u8));
        assert(out@ =~= seq![digit_char(n as nat)]);
        out
    } else {
        assert(n / wide < n) by (nonlinear_arith)
            requires
                wide >= 2,
                n >= wide,
        ;
        let mut out = in_base(n / wide, base);
        out.push(digit_of((n % wide) as u8));
        out
    }
}

/// A number in base ten.
pub fn decimal(n: u128) -> (r: String)
    ensures
        r@ == decimal_text(n as nat),
{
    in_base(n, 10)
}

pub open spec fn is_digit(c: char) -> bool {
    '0' <= c <= '9'
}

/// Whether every character is a decimal digit.
pub open spec fn all_digits(s: Seq<char>) -> bool {
    forall|i: int| 0 <= i < s.len() ==> is_digit(#[trigger] s[i])
}

/// The number that a row of decimal digits stands for.
pub open spec fn digits_value(s: Seq<char>) -> nat
    decreases s.len(),
{
    if s.len() == 0 {
        0
    } else {
        digits_value(s.drop_last()) * 10 + (s.last() as int - '0' as int) as nat
    }
}

/// The digits of a number that may start with a plus sign.
pub open spec fn unsigned_digits(s: Seq<char>) -> Seq<char> {
    if s.len() > 0 && s[0] == '+' {
        s.skip(1)
    } else {
        s
    }
}

/// The number below 2^128 that a text stands for: decimal digits, at least one, after an optional
/// plus sign.
pub open spec fn parsed_u128(s: Seq<char>) -> Option<u128> {
    let digits = unsigned_digits(s);
    if digits.len() > 0 && all_digits(digits) && digits_value(digits) <= u128::MAX {
        Some(digits_value(digits) as u128)
    } else {
        None
    }
}

/// The value of a row of digits, if it is one and its value is below 2^128.
pub fn digits_to_u128(digits: &[char]) -> (r: Option<u128>)
    ensures
        r == (if all_digits(digits@) && digits_value(digits@) <= u128::MAX {
            Some(digits_value(digits@) as u128)
        } else {
            None::<u128>
        }),
{
    let mut value: Option<u128> = Some(0);
    let mut i: usize = 0;
    while i < digits.len()
        invariant
            i <= digits.len(),
            all_digits(digits@.take(i as int)),
            value == (if digits_value(digits@.take(i as int)) <= u128::MAX {
                Some(digits_value(digits@.take(i as int)) as u128)
            } else {
                None::<u128>
            }),
        decreases digits.len() - i,
    {
        let c = digits[i];
        if !('0' <= c && c <= '9') {
            assert(!is_digit(digits@[i as int]));
            return None;
        }
        let d: u128 = (c as u32 - 48) as u128;
        assert(digits@.take(i + 1).drop_last() =~= digits@.take(i as int));
        value = match value {
            Some(v) => match v.checked_mul(10) {
                Some(w) => w.checked_add(d),
                None => None,
            },
            None => None,
        };
        i += 1;
    }
    assert(digits@.take(digits@.len() as int) =~= digits@);
    value
}

/// The number that a text stands for, if it is one below 2^128.
pub fn parse_u128(text: &str) -> (r: Option<u128>)
    ensures
        r == parsed_u128(text@),
{
    let chars = characters(text);
    let digits: &[char] = if chars.len() > 0 && chars[0] == '+' {
        vstd::slice::slice_subrange(chars.as_slice(), 1, chars.len())
    } else {
        chars.as_slice()
    };
    assert(digits@ =~= unsigned_digits(text@));
    if digits.len() == 0 {
        None
    } else {
        digits_to_u128(digits)
    }
}

/// What is written in base ten consists of digits and has the value that was written.
pub proof fn lemma_decimal(n: nat)
    ensures
        decimal_text(n).len() > 0,
        all_digits(decimal_text(n)),
        digits_value(decimal_text(n)) == n,
    decreases n,
{
    let s = decimal_text(n);
    if n < 10 {
        assert(s.drop_last() =~= Seq::<char>::empty());
        assert(digits_value(Seq::<char>::empty()) == 0);
    } else {
        lemma_decimal(n / 10);
        assert(s.drop_last() =~= decimal_text(n / 10));
    }
}

/// Reading a number back from its decimal form gives that number.
pub proof fn reading_inverts_decimal_writing(n: u128)
    ensures
        parsed_u128(decimal_text(n as nat)) == Some(n),
{
    lemma_decimal(n as nat);
    let s = decimal_text(n as nat);
    assert(is_digit(s[0]));
}

/// A number is read digit by digit: a single digit stands for itself, one more digit behind a
/// number makes it ten times as large and adds its own value, and anything else behind it, or a
/// value of 2^128 or more, spoils it. A plus sign in front changes nothing.
pub proof fn number_grows_by_its_digits(s: Seq<char>, c: char)
    ensures
        parsed_u128(Seq::empty()) is None,
        is_digit(c) ==> parsed_u128(seq![c]) == Some((c as int - '0' as int) as u128),
        parsed_u128(s) matches Some(n) ==> parsed_u128(s.push(c)) == if is_digit(c) && n * 10 + (
        c as int - '0' as int) <= u128::MAX {
            Some((n * 10 + (c as int - '0' as int)) as u128)
        } else {
            None
        },
        s.len() > 0 && parsed_u128(s) is None && s != seq!['+'] ==> parsed_u128(s.push(c)) is None,
        s.len() > 0 && s[0] != '+' ==> parsed_u128(seq!['+'] + s) == parsed_u128(s),
{
    let one = seq![c];
    assert(one.drop_last() =~= Seq::<char>::empty());
    assert(digits_value(Seq::<char>::empty()) == 0);
    assert(one[0] == c);
    let more = s.push(c);
    let (a, b) = (unsigned_digits(s), unsigned_digits(more));
    if s.len() > 0 {
        assert(more[0] == s[0]);
        assert(b =~= a.push(c));
        assert(b.drop_last() =~= a);
        if all_digits(b) {
            assert forall|i: int| 0 <= i < a.len() implies is_digit(#[trigger] a[i]) by {
                assert(b[i] == a[i]);
            }
        }
        assert(b[a.len() as int] == c);
        if a.len() == 0 {
            assert(s =~= seq!['+']);
        }
        assert(unsigned_digits(seq!['+'] + s) =~= s);
    }
}

/// Two lower-case hexadecimal digits for each byte.
pub open spec fn hex_text(bytes: Seq<u8>) -> Seq<char> {
    Seq::new(
        bytes.len() * 2,
        |i: int|
            digit_char(
                if i % 2 == 0 {
                    bytes[i / 2] as nat / 16
                } else {
                    bytes[i / 2] as nat % 16
                },
            ),
    )
}

/// The value of a hexadecimal digit, in either case.
pub open spec fn hex_value(c: char) -> Option<nat> {
    if '0' <= c <= '9' {
        Some((c as int - '0' as int) as nat)
    } else if 'a' <= c <= 'f' {
        Some((c as int - 'a' as int + 10) as nat)
    } else if 'A' <= c <= 'F' {
        Some((c as int - 'A' as int + 10) as nat)
    } else {
        None
    }
}

/// The bytes that a hexadecimal text stands for: an even number of digits, two for each byte.
pub open spec fn unhexed(s: Seq<char>) -> Option<Seq<u8>> {
    if s.len() % 2 == 0 && (forall|i: int| 0 <= i < s.len() ==> hex_value(#[trigger] s[i]) is Some) {
        Some(
            Seq::new(
                s.len() / 2,
                |i: int| (hex_value(s[2 * i])->0 * 16 + hex_value(s[2 * i + 1])->0) as u8,
            ),
        )
    } else {
        None
    }
}

/// What the `hex` crate says of a text that is not hexadecimal.
pub uninterp spec fn hex_error_text(text: Seq<char>) -> Seq<char>;

/// `hex::encode` writes two lower-case hexadecimal digits for each byte, the high half first.
#[verifier::external_body]
pub(crate) fn hex_encode(bytes: &[u8]) -> (r: String)
    ensures
        r@ == hex_text(bytes@),
{
    hex::encode(bytes)
}

/// `hex::decode` reads two digits for each byte and takes both cases. It refuses an odd number of
/// digits and any other character; the text of that error depends on the input alone.
#[verifier::external_body]
pub(crate) fn hex_decode(text: &str) -> (r: Result<Vec<u8>, String>)
    ensures
        match r {
            Ok(bytes) => unhexed(text@) == Some(bytes@),
            Err(message) => unhexed(text@) is None && message@ == hex_error_text(text@),
        },
{
    hex::decode(text).map_err(|e| e.to_string())
}

/// Decoding what was encoded gives the same bytes.
pub proof fn decoding_inverts_hex(bytes: Seq<u8>)
    ensures
        unhexed(hex_text(bytes)) == Some(bytes),
{
    let s = hex_text(bytes);
    assert forall|i: int| 0 <= i < s.len() implies hex_value(#[trigger] s[i]) is Some by {
        assert(0 <= i / 2 < bytes.len());
    }
    let back = Seq::new(
        s.len() / 2,
        |i: int| (hex_value(s[2 * i])->0 * 16 + hex_value(s[2 * i + 1])->0) as u8,
    );
    assert forall|i: int| 0 <= i < bytes.len() implies back[i] == bytes[i] by {
        assert((2 * i) / 2 == i && (2 * i + 1) / 2 == i);
        assert(s[2 * i] == digit_char(bytes[i] as nat / 16));
        assert(s[2 * i + 1] == digit_char(bytes[i] as nat % 16));
        assert(hex_value(s[2 * i]) == Some(bytes[i] as nat / 16));
        assert(hex_value(s[2 * i + 1]) == Some(bytes[i] as nat % 16));
    }
    assert(back =~= bytes);
}

} // verus!
