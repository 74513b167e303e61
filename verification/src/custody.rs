//! The rules of the custody service: amounts as people write them, who may ask for a withdrawal,
//! which withdrawals were already sent, and which deposits are swept.

use vstd::prelude::*;

use crate::crypto::{result_view, Address, CryptoError, CryptoErrorView, Keypair};
use crate::encoding::text_fits;
use crate::genesis::address_of_text;
use crate::messages::crypto_text;
use crate::rpc::{hash_text, RpcFault, RpcFaultView};
use crate::state::{spent_outpoints, ErrorText};
use crate::text::{
    all_digits, characters, decimal, decimal_text, decoding_inverts_hex, digit_char, digits_to_u128,
    digits_value, hex_text, is_digit, joined, lemma_decimal, lemma_utf8_injective, parse_u128,
    parsed_u128, reading_inverts_decimal_writing, same_text, text_of, unhexed,
};
use crate::types::{OutPoint, Transaction, TransactionView, TxOut};
use crate::wallet::{
    amounts_total, build_transfer, checked_sum, cover, largest_first, lemma_cover,
    lemma_order_contains, lemma_total_take, ordering_keeps_the_outputs, outpoints,
    selection_covers_and_is_minimal, transfer_outcome, WalletError, WalletErrorView,
};

verus! {

/// The decimals of an amount.
pub const ZNX_DECIMALS: u32 = 18;

/// The base units in one coin.
pub const BASE_UNITS_PER_ZNX: u128 = 1_000_000_000_000_000_000;

/// Whether a character is white space, as Unicode defines it.
pub open spec fn is_white_space(c: char) -> bool {
    let n = c as int;
    ||| 9 <= n <= 13
    ||| n == 32
    ||| n == 0x85
    ||| n == 0xA0
    ||| n == 0x1680
    ||| 0x2000 <= n <= 0x200A
    ||| n == 0x2028
    ||| n == 0x2029
    ||| n == 0x202F
    ||| n == 0x205F
    ||| n == 0x3000
}

/// Whether a character is white space, as Unicode defines it.
pub fn white_space(c: char) -> (r: bool)
    ensures
        r == is_white_space(c),
{
    let n: u32 = c as u32;
    (9 <= n && n <= 13) || n == 32 || n == 0x85 || n == 0xA0 || n == 0x1680 || (0x2000 <= n && n
        <= 0x200A) || n == 0x2028 || n == 0x2029 || n == 0x202F || n == 0x205F || n == 0x3000
}

/// A text without the white space at its start.
pub open spec fn trimmed_start(s: Seq<char>) -> Seq<char>
    decreases s.len(),
{
    if s.len() > 0 && is_white_space(s[0]) {
        trimmed_start(s.skip(1))
    } else {
        s
    }
}

/// A text without the white space at its end.
pub open spec fn trimmed_end(s: Seq<char>) -> Seq<char>
    decreases s.len(),
{
    if s.len() > 0 && is_white_space(s.last()) {
        trimmed_end(s.drop_last())
    } else {
        s
    }
}

/// A text without the white space around it.
pub open spec fn trimmed(s: Seq<char>) -> Seq<char> {
    trimmed_end(trimmed_start(s))
}

fn trim(text: &str) -> (r: Vec<char>)
    ensures
        r@ == trimmed(text@),
{
    let chars = characters(text);
    let mut start: usize = 0;
    assert(text@.skip(0) =~= text@);
    while start < chars.len() && white_space(chars[start])
        invariant
            start <= chars.len(),
            chars@ == text@,
            trimmed_start(text@) == trimmed_start(text@.skip(start as int)),
        decreases chars.len() - start,
    {
        assert(text@.skip(start as int).skip(1) =~= text@.skip(start + 1));
        start += 1;
    }
    let ghost rest = text@.skip(start as int);
    assert(trimmed_start(text@) == rest) by {
        if rest.len() > 0 {
            assert(rest[0] == chars@[start as int]);
        }
    }
    let mut end: usize = chars.len();
    assert(text@.subrange(start as int, end as int) =~= rest);
    while end > start && white_space(chars[end - 1])
        invariant
            start <= end <= chars.len(),
            chars@ == text@,
            trimmed_end(rest) == trimmed_end(text@.subrange(start as int, end as int)),
        decreases end,
    {
        assert(text@.subrange(start as int, end as int).drop_last() =~= text@.subrange(
            start as int,
            end - 1,
        ));
        end -= 1;
    }
    let ghost kept = text@.subrange(start as int, end as int);
    assert(trimmed_end(kept) == kept) by {
        if kept.len() > 0 {
            assert(kept.last() == chars@[end - 1]);
        }
    }
    let mut out: Vec<char> = Vec::new();
    let mut i: usize = start;
    while i < end
        invariant
            start <= i <= end <= chars.len(),
            chars@ == text@,
            out@ == text@.subrange(start as int, i as int),
        decreases end - i,
    {
        out.push(chars[i]);
        i += 1;
        assert(out@ =~= text@.subrange(start as int, i as int));
    }
    out
}

/// Whether a line holds nothing but white space.
pub fn is_blank(line: &str) -> (r: bool)
    ensures
        r == (trimmed(line@).len() == 0),
{
    trim(line).len() == 0
}

/// Where the first point of a text is, or its end.
pub open spec fn point(s: Seq<char>) -> int
    decreases s.len(),
{
    if s.len() == 0 || s[0] == '.' {
        0
    } else {
        1 + point(s.skip(1))
    }
}

/// What comes after the first point of a text.
pub open spec fn fraction(s: Seq<char>) -> Seq<char> {
    if point(s) < s.len() {
        s.skip(point(s) + 1)
    } else {
        Seq::empty()
    }
}

/// Ten to the power of `n`.
pub open spec fn ten_to(n: nat) -> nat
    decreases n,
{
    if n == 0 {
        1
    } else {
        10 * ten_to((n - 1) as nat)
    }
}

/// The base units that an amount of so many digits before and after the point comes to.
pub open spec fn units_of(whole: Seq<char>, fraction: Seq<char>) -> nat {
    digits_value(whole) * BASE_UNITS_PER_ZNX as nat + digits_value(fraction) * ten_to(
        (ZNX_DECIMALS - fraction.len()) as nat,
    )
}

/// The base units that a text stands for, or what is wrong with it. Digits, a point and up to
/// eighteen digits more; what is on one side of the point may be missing. The amount may be
/// neither negative nor zero.
pub open spec fn base_units(raw: Seq<char>) -> Result<u128, Seq<char>> {
    let s = trimmed(raw);
    let whole = s.take(point(s));
    let frac = fraction(s);
    if s.len() == 0 {
        Err("monto vacío"@)
    } else if s[0] == '-' {
        Err("monto negativo"@)
    } else if !all_digits(whole) || !all_digits(frac) {
        Err("`"@ + raw + "` no es un monto decimal válido"@)
    } else if frac.len() > ZNX_DECIMALS {
        Err("`"@ + raw + "` tiene más de 18 decimales"@)
    } else if units_of(whole, frac) > u128::MAX {
        Err("`"@ + raw + "` desborda u128"@)
    } else if units_of(whole, frac) == 0 {
        Err("el monto tiene que ser mayor a cero"@)
    } else {
        Ok(units_of(whole, frac) as u128)
    }
}

pub open spec fn amount_result(r: Result<u128, String>) -> Result<u128, Seq<char>> {
    match r {
        Ok(units) => Ok(units),
        Err(message) => Err(message@),
    }
}

proof fn lemma_point(s: Seq<char>)
    ensures
        0 <= point(s) <= s.len(),
        point(s) < s.len() ==> s[point(s)] == '.',
        forall|i: int| 0 <= i < point(s) ==> #[trigger] s[i] != '.',
    decreases s.len(),
{
    if s.len() > 0 && s[0] != '.' {
        lemma_point(s.skip(1));
        assert forall|i: int| 0 <= i < point(s) implies #[trigger] s[i] != '.' by {
            if i > 0 {
                assert(s.skip(1)[i - 1] == s[i]);
            }
        }
    }
}

proof fn lemma_point_is(s: Seq<char>, k: int)
    requires
        0 <= k <= s.len(),
        k < s.len() ==> s[k] == '.',
        forall|i: int| 0 <= i < k ==> #[trigger] s[i] != '.',
    ensures
        point(s) == k,
{
    lemma_point(s);
    if point(s) < k {
        assert(s[point(s)] != '.');
    }
    if k < point(s) {
        assert(s[k] != '.');
    }
}

fn find_point(s: &Vec<char>) -> (r: usize)
    ensures
        r == point(s@),
{
    let mut k: usize = 0;
    while k < s.len() && s[k] != '.'
        invariant
            k <= s.len(),
            forall|i: int| 0 <= i < k ==> #[trigger] s@[i] != '.',
        decreases s.len() - k,
    {
        k += 1;
    }
    proof {
        lemma_point_is(s@, k as int);
    }
    k
}

fn are_digits(s: &[char]) -> (r: bool)
    ensures
        r == all_digits(s@),
{
    let mut i: usize = 0;
    while i < s.len()
        invariant
            i <= s.len(),
            forall|j: int| 0 <= j < i ==> is_digit(#[trigger] s@[j]),
        decreases s.len() - i,
    {
        if !('0' <= s[i] && s[i] <= '9') {
            assert(!is_digit(s@[i as int]));
            return false;
        }
        i += 1;
    }
    true
}

proof fn lemma_ten_to_18()
    ensures
        ten_to(18) == BASE_UNITS_PER_ZNX,
{
    reveal_with_fuel(ten_to, 19);
}

proof fn lemma_digits_below(s: Seq<char>)
    requires
        all_digits(s),
    ensures
        digits_value(s) < ten_to(s.len()),
    decreases s.len(),
{
    if s.len() > 0 {
        let front = s.drop_last();
        assert forall|i: int| 0 <= i < front.len() implies is_digit(#[trigger] front[i]) by {
            assert(front[i] == s[i]);
        }
        lemma_digits_below(front);
        assert(is_digit(s[s.len() - 1]));
    }
}

proof fn lemma_ten_to_sum(a: nat, b: nat)
    ensures
        ten_to(a) * ten_to(b) == ten_to(a + b),
        ten_to(a) > 0,
    decreases a,
{
    if a == 0 {
        assert(ten_to(0) * ten_to(b) == ten_to(b)) by (nonlinear_arith)
            requires
                ten_to(0) == 1,
        ;
    } else {
        lemma_ten_to_sum((a - 1) as nat, b);
        let (x, y) = (ten_to((a - 1) as nat), ten_to(b));
        assert((10 * x) * y == 10 * (x * y)) by (nonlinear_arith);
        assert(ten_to(a + b) == 10 * ten_to((a + b - 1) as nat));
    }
}

/// The digits after the point, in base units.
fn fraction_units(frac: &[char]) -> (r: u128)
    requires
        all_digits(frac@),
        frac@.len() <= ZNX_DECIMALS,
    ensures
        r == digits_value(frac@) * ten_to((ZNX_DECIMALS - frac@.len()) as nat),
        r < BASE_UNITS_PER_ZNX,
{
    let mut value: u128 = 0;
    let mut i: usize = 0;
    assert(frac@.take(0) =~= Seq::<char>::empty());
    while i < frac.len()
        invariant
            i <= frac.len() <= ZNX_DECIMALS,
            all_digits(frac@),
            value == digits_value(frac@.take(i as int)),
        decreases frac.len() - i,
    {
        let ghost now = frac@.take(i + 1);
        proof {
            assert(now.drop_last() =~= frac@.take(i as int));
            assert(is_digit(frac@[i as int]));
            lemma_digits_below(frac@.take(i as int));
            lemma_ten_to_sum(i as nat, (18 - i) as nat);
            lemma_ten_to_18();
            lemma_ten_to_sum((18 - i) as nat, 0);
            let (a, b) = (ten_to(i as nat), ten_to((18 - i) as nat));
            assert(a <= a * b) by (nonlinear_arith)
                requires
                    b >= 1,
            ;
        }
        value = value * 10 + (frac[i] as u32 - 48) as u128;
        i += 1;
    }
    assert(frac@.take(frac@.len() as int) =~= frac@);
    let mut rest: u32 = ZNX_DECIMALS - frac.len() as u32;
    let ghost start: nat = rest as nat;
    let ghost base: nat = value as nat;
    proof {
        lemma_digits_below(frac@);
        lemma_ten_to_18();
        lemma_ten_to_sum(frac@.len(), start);
        let (v, a, b) = (base, ten_to(frac@.len()), ten_to(start));
        lemma_ten_to_sum(start, 0);
        assert(v * b < a * b) by (nonlinear_arith)
            requires
                v < a,
                b > 0,
        ;
        assert(ten_to(0) == 1);
    }
    let mut done: u32 = 0;
    assert(value == base * ten_to(0)) by (nonlinear_arith)
        requires
            value == base,
            ten_to(0) == 1,
    ;
    while done < rest
        invariant
            done <= rest <= 18,
            start == rest,
            value == base * ten_to(done as nat),
            base * ten_to(start) < BASE_UNITS_PER_ZNX,
        decreases rest - done,
    {
        proof {
            let (x, y) = (ten_to(done as nat), ten_to((done + 1) as nat));
            assert(base * y == (base * x) * 10) by (nonlinear_arith)
                requires
                    y == 10 * x,
            ;
            lemma_ten_to_sum((done + 1) as nat, (start - done - 1) as nat);
            lemma_ten_to_sum((start - done - 1) as nat, 0);
            let (z, w) = (ten_to((start - done - 1) as nat), ten_to(start));
            assert(base * y <= base * w) by (nonlinear_arith)
                requires
                    w == y * z,
                    z >= 1,
                    base >= 0,
                    y >= 0,
            ;
        }
        value = value * 10;
        done += 1;
    }
    value
}

/// Reads an amount as people write it, in base units. No floating point is involved: every digit
/// counts.
pub fn parse_znx_decimal_to_base_units(raw: &str) -> (r: Result<u128, String>)
    ensures
        amount_result(r) == base_units(raw@),
{
    let s = trim(raw);
    if s.len() == 0 {
        return Err("monto vacío".to_owned());
    }
    if s[0] == '-' {
        return Err("monto negativo".to_owned());
    }
    let k = find_point(&s);
    proof {
        lemma_point(s@);
    }
    let whole = vstd::slice::slice_subrange(s.as_slice(), 0, k);
    let frac = if k < s.len() {
        vstd::slice::slice_subrange(s.as_slice(), k + 1, s.len())
    } else {
        vstd::slice::slice_subrange(s.as_slice(), k, k)
    };
    assert(whole@ =~= s@.take(point(s@)));
    assert(frac@ =~= fraction(s@));
    if !are_digits(whole) || !are_digits(frac) {
        return Err(joined("`", raw, "` no es un monto decimal válido"));
    }
    if frac.len() > ZNX_DECIMALS as usize {
        return Err(joined("`", raw, "` tiene más de 18 decimales"));
    }
    let small: u128 = fraction_units(frac);
    let ghost value = digits_value(whole@);
    let ghost scale = BASE_UNITS_PER_ZNX as nat;
    let units: u128 = match digits_to_u128(whole) {
        Some(units) => units,
        None => {
            assert(value <= value * scale) by (nonlinear_arith)
                requires
                    scale >= 1,
            ;
            return Err(joined("`", raw, "` desborda u128"));
        },
    };
    let large: u128 = match units.checked_mul(BASE_UNITS_PER_ZNX) {
        Some(large) => large,
        None => return Err(joined("`", raw, "` desborda u128")),
    };
    let total: u128 = match large.checked_add(small) {
        Some(total) => total,
        None => return Err(joined("`", raw, "` desborda u128")),
    };
    if total == 0 {
        return Err("el monto tiene que ser mayor a cero".to_owned());
    }
    Ok(total)
}

/// The last `width` decimal digits of a number.
pub open spec fn fixed_digits(n: nat, width: nat) -> Seq<char>
    decreases width,
{
    if width == 0 {
        Seq::empty()
    } else {
        fixed_digits(n / 10, (width - 1) as nat).push(digit_char(n % 10))
    }
}

/// A text without the zeros at its end.
pub open spec fn without_zeros(s: Seq<char>) -> Seq<char>
    decreases s.len(),
{
    if s.len() > 0 && s.last() == '0' {
        without_zeros(s.drop_last())
    } else {
        s
    }
}

/// Base units as an amount that people write: no point where there is no fraction, and no zeros at
/// the end of one.
pub open spec fn znx_text(units: nat) -> Seq<char> {
    let scale = BASE_UNITS_PER_ZNX as nat;
    let whole = decimal_text(units / scale);
    if units % scale == 0 {
        whole
    } else {
        whole + "."@ + without_zeros(fixed_digits(units % scale, ZNX_DECIMALS as nat))
    }
}

fn fixed(n: u128, width: u32) -> (r: Vec<char>)
    ensures
        r@ == fixed_digits(n as nat, width as nat),
    decreases width,
{
    if width == 0 {
        Vec::new()
    } else {
        let mut out = fixed(n / 10, width - 1);
        let d: u8 = (n % 10) as u8;
        out.push((48 + d) as char);
        out
    }
}

/// Writes base units as an amount that people write.
pub fn format_base_units_as_znx_decimal(units: u128) -> (r: String)
    ensures
        r@ == znx_text(units as nat),
{
    let whole: u128 = units / BASE_UNITS_PER_ZNX;
    let frac: u128 = units % BASE_UNITS_PER_ZNX;
    if frac == 0 {
        return decimal(whole);
    }
    let mut digits = fixed(frac, ZNX_DECIMALS);
    let ghost all = digits@;
    while digits.len() > 0 && digits[digits.len() - 1] == '0'
        invariant
            without_zeros(all) == without_zeros(digits@),
        decreases digits.len(),
    {
        let _ = digits.pop();
    }
    joined(decimal(whole).as_str(), ".", text_of(digits.as_slice()).as_str())
}

proof fn lemma_fixed_digits(n: nat, width: nat)
    requires
        n < ten_to(width),
    ensures
        fixed_digits(n, width).len() == width,
        all_digits(fixed_digits(n, width)),
        digits_value(fixed_digits(n, width)) == n,
    decreases width,
{
    if width > 0 {
        let s = fixed_digits(n, width);
        lemma_fixed_digits(n / 10, (width - 1) as nat);
        let front = fixed_digits(n / 10, (width - 1) as nat);
        assert(s.drop_last() =~= front);
        assert forall|i: int| 0 <= i < s.len() implies is_digit(#[trigger] s[i]) by {
            if i < front.len() {
                assert(s[i] == front[i]);
            }
        }
    }
}

proof fn lemma_without_zeros(s: Seq<char>)
    requires
        all_digits(s),
    ensures
        without_zeros(s).len() <= s.len(),
        all_digits(without_zeros(s)),
        digits_value(s) == digits_value(without_zeros(s)) * ten_to(
            (s.len() - without_zeros(s).len()) as nat,
        ),
        without_zeros(s).len() > 0 ==> without_zeros(s).last() != '0',
    decreases s.len(),
{
    if s.len() > 0 && s.last() == '0' {
        let front = s.drop_last();
        assert forall|i: int| 0 <= i < front.len() implies is_digit(#[trigger] front[i]) by {
            assert(front[i] == s[i]);
        }
        lemma_without_zeros(front);
        let n = (front.len() - without_zeros(front).len()) as nat;
        let v = digits_value(without_zeros(front));
        let (x, y) = (ten_to(n), ten_to(n + 1));
        assert(y == 10 * x);
        assert((v * x) * 10 == v * y) by (nonlinear_arith)
            requires
                y == 10 * x,
        ;
    } else {
        assert(digits_value(s) * ten_to(0) == digits_value(s)) by (nonlinear_arith)
            requires
                ten_to(0) == 1,
        ;
    }
}

proof fn lemma_trimmed(s: Seq<char>)
    requires
        s.len() > 0,
        !is_white_space(s[0]),
        !is_white_space(s.last()),
    ensures
        trimmed(s) == s,
{
}

/// Reading back an amount that was written gives the same base units. Nothing is written that
/// stands for another amount. (An amount of zero is written, but never read.)
pub proof fn amounts_round_trip(units: u128)
    requires
        units > 0,
    ensures
        base_units(znx_text(units as nat)) == Ok::<u128, Seq<char>>(units),
{
    reveal_strlit(".");
    let scale = BASE_UNITS_PER_ZNX as nat;
    let n = units as nat;
    let w = n / scale;
    let f = n % scale;
    let whole = decimal_text(w);
    let s = znx_text(n);
    lemma_decimal(w);
    assert(is_digit(whole[0]));
    assert(is_digit(whole[whole.len() - 1]));
    vstd::arithmetic::div_mod::lemma_fundamental_div_mod(n as int, scale as int);
    assert(scale * w == w * scale) by (nonlinear_arith);
    if f == 0 {
        lemma_trimmed(s);
        assert forall|i: int| 0 <= i < s.len() implies #[trigger] s[i] != '.' by {
            assert(is_digit(whole[i]));
        }
        lemma_point_is(s, s.len() as int);
        assert(s.take(point(s)) =~= whole);
        let none = Seq::<char>::empty();
        assert(digits_value(none) == 0);
        assert(digits_value(none) * ten_to(18) == 0) by (nonlinear_arith)
            requires
                digits_value(none) == 0,
        ;
    } else {
        let all = fixed_digits(f, 18);
        let frac = without_zeros(all);
        lemma_ten_to_18();
        lemma_fixed_digits(f, 18);
        lemma_without_zeros(all);
        if frac.len() == 0 {
            assert(digits_value(frac) * ten_to(18) == 0) by (nonlinear_arith)
                requires
                    digits_value(frac) == 0,
            ;
        }
        assert(is_digit(frac[frac.len() - 1]));
        assert(s.last() == frac.last());
        assert(s[0] == whole[0]);
        lemma_trimmed(s);
        let k = whole.len() as int;
        assert(s[k] == '.');
        assert forall|i: int| 0 <= i < k implies #[trigger] s[i] != '.' by {
            assert(s[i] == whole[i]);
            assert(is_digit(whole[i]));
        }
        lemma_point_is(s, k);
        assert(s.take(k) =~= whole);
        assert(s.skip(k + 1) =~= frac);
        assert(units_of(whole, frac) == n);
    }
}

/// Compares two byte strings in a time that depends on their lengths alone.
pub fn constant_time_eq(a: &[u8], b: &[u8]) -> (r: bool)
    ensures
        r == (a@ == b@),
{
    if a.len() != b.len() {
        return false;
    }
    let mut acc: u8 = 0;
    let mut i: usize = 0;
    while i < a.len()
        invariant
            i <= a.len() == b.len(),
            (acc == 0) == (forall|j: int| 0 <= j < i ==> #[trigger] a@[j] == b@[j]),
        decreases a.len() - i,
    {
        let (x, y): (u8, u8) = (a[i], b[i]);
        assert((acc | (x ^ y) == 0) == (acc == 0 && x == y)) by (bit_vector);
        proof {
            if acc == 0 && x == y {
                assert forall|j: int| 0 <= j < i + 1 implies #[trigger] a@[j] == b@[j] by {}
            } else if forall|j: int| 0 <= j < i + 1 ==> #[trigger] a@[j] == b@[j] {
                assert(a@[i as int] == b@[i as int]);
                assert(forall|j: int| 0 <= j < i ==> #[trigger] a@[j] == b@[j]);
            }
        }
        acc = acc | (x ^ y);
        i += 1;
    }
    proof {
        if acc == 0 {
            assert(a@ =~= b@);
        }
    }
    acc == 0
}

/// Whether a caller may ask for withdrawals. Where the service has no token, nobody may.
pub open spec fn authorised(token: Seq<char>, expected: Option<Seq<char>>) -> Result<
    (),
    RpcFaultView,
> {
    match expected {
        None => Err(
            RpcFaultView::InternalError(
                "ZNX_CUSTODY_TOKEN no está configurado en el proceso — rechazo por defecto (fail-closed)"@,
            ),
        ),
        Some(expected) => if token == expected {
            Ok(())
        } else {
            Err(RpcFaultView::InvalidParams("auth_token inválido"@))
        },
    }
}

/// Checks the token of a caller against the one of the service, if it has one.
pub fn check_auth(token: &str, expected: Option<String>) -> (r: Result<(), RpcFault>)
    ensures
        result_view(r) == authorised(
            token@,
            match expected {
                Some(t) => Some(t@),
                None => None,
            },
        ),
        r is Ok <==> expected is Some && expected->0@ == token@,
{
    match expected {
        None => Err(
            RpcFault::InternalError(
                "ZNX_CUSTODY_TOKEN no está configurado en el proceso — rechazo por defecto (fail-closed)".to_owned(),
            ),
        ),
        Some(expected) => {
            let same = constant_time_eq(token.as_bytes(), expected.as_str().as_bytes());
            proof {
                if same {
                    lemma_utf8_injective(token@, expected@);
                }
            }
            if same {
                Ok(())
            } else {
                Err(RpcFault::InvalidParams("auth_token inválido".to_owned()))
            }
        },
    }
}

/// What a caller asks to be withdrawn, as text.
#[derive(Debug, Clone, PartialEq, Eq)]
pub struct SignWithdrawalParams {
    pub request_id: String,
    pub to: String,
    pub amount: String,
    pub fee: Option<String>,
    pub auth_token: String,
}

/// What is to be withdrawn.
#[derive(Debug, Clone, Copy, PartialEq, Eq)]
pub struct Withdrawal {
    pub to: Address,
    pub amount: u128,
    pub fee: u128,
}

/// What is to be withdrawn, from what the address was read as: the address is looked at first,
/// then the amount, then the fee, which is zero where none is given.
pub open spec fn withdrawal_of(
    address: Result<Address, CryptoErrorView>,
    amount: Seq<char>,
    fee: Option<Seq<char>>,
) -> Result<Withdrawal, RpcFaultView> {
    match address {
        Err(e) => Err(RpcFaultView::InvalidParams(crypto_text(e))),
        Ok(to) => match parsed_u128(amount) {
            None => Err(RpcFaultView::InvalidParams("`amount` no es un u128 válido"@)),
            Some(amount) => match fee {
                None => Ok(Withdrawal { to, amount, fee: 0 }),
                Some(text) => match parsed_u128(text) {
                    None => Err(RpcFaultView::InvalidParams("`fee` no es un u128 válido"@)),
                    Some(fee) => Ok(Withdrawal { to, amount, fee }),
                },
            },
        },
    }
}

/// Reads what is to be withdrawn, from what the address was read as.
pub fn assemble_withdrawal(
    address: Result<Address, CryptoError>,
    amount: &str,
    fee: &Option<String>,
) -> (r: Result<Withdrawal, RpcFault>)
    ensures
        result_view(r) == withdrawal_of(
            result_view(address),
            amount@,
            match *fee {
                Some(t) => Some(t@),
                None => None,
            },
        ),
{
    let to = match address {
        Ok(to) => to,
        Err(e) => return Err(RpcFault::InvalidParams(e.describe())),
    };
    let amount: u128 = match parse_u128(amount) {
        Some(amount) => amount,
        None => {
            return Err(RpcFault::InvalidParams("`amount` no es un u128 válido".to_owned()));
        },
    };
    let fee: u128 = match fee {
        None => 0,
        Some(text) => match parse_u128(text.as_str()) {
            Some(fee) => fee,
            None => {
                return Err(RpcFault::InvalidParams("`fee` no es un u128 válido".to_owned()));
            },
        },
    };
    Ok(Withdrawal { to, amount, fee })
}

/// Reads what a caller asks to be withdrawn.
pub fn read_withdrawal(params: &SignWithdrawalParams) -> (r: Result<Withdrawal, RpcFault>)
    ensures
        result_view(r) == withdrawal_of(
            address_of_text(params.to@),
            params.amount@,
            match params.fee {
                Some(t) => Some(t@),
                None => None,
            },
        ),
{
    assemble_withdrawal(
        Address::from_bech32(params.to.as_str()),
        params.amount.as_str(),
        &params.fee,
    )
}

/// What is done with a withdrawal that waits.
#[derive(Debug, Clone, PartialEq, Eq)]
pub enum PendingAction {
    /// It can never be sent, for this reason.
    Fail(String),
    /// It is to be sent.
    Send { to: Address, amount: u128 },
}

/// [`PendingAction`] with its text as a sequence.
#[verifier::ext_equal]
pub enum PendingActionView {
    Fail(Seq<char>),
    Send { to: Address, amount: u128 },
}

impl View for PendingAction {
    type V = PendingActionView;

    open spec fn view(&self) -> PendingActionView {
        match *self {
            PendingAction::Fail(t) => PendingActionView::Fail(t@),
            PendingAction::Send { to, amount } => PendingActionView::Send { to, amount },
        }
    }
}

/// What is done with a withdrawal that waits, from what its address was read as.
pub open spec fn pending_outcome(
    address: Result<Address, CryptoErrorView>,
    amount: Seq<char>,
) -> PendingActionView {
    match address {
        Err(_) => PendingActionView::Fail("dirección de destino inválida"@),
        Ok(to) => match base_units(amount) {
            Err(_) => PendingActionView::Fail("monto inválido"@),
            Ok(amount) => PendingActionView::Send { to, amount },
        },
    }
}

/// Decides what is done with a withdrawal that waits, from what its address was read as.
pub fn decide_pending(address: Result<Address, CryptoError>, amount: &str) -> (r: PendingAction)
    ensures
        r@ == pending_outcome(result_view(address), amount@),
{
    match address {
        Err(_) => PendingAction::Fail("dirección de destino inválida".to_owned()),
        Ok(to) => match parse_znx_decimal_to_base_units(amount) {
            Err(_) => PendingAction::Fail("monto inválido".to_owned()),
            Ok(amount) => PendingAction::Send { to, amount },
        },
    }
}

/// Decides what is done with a withdrawal that waits.
pub fn pending_action(destination: &str, amount: &str) -> (r: PendingAction)
    ensures
        r@ == pending_outcome(address_of_text(destination@), amount@),
{
    decide_pending(Address::from_bech32(destination), amount)
}

/// A withdrawal that was sent.
#[derive(Debug, Clone, PartialEq, Eq)]
pub struct JournalEntry {
    pub request_id: String,
    pub to: String,
    pub amount: String,
    pub fee: String,
    pub txid: String,
}

/// [`JournalEntry`] with its texts as sequences.
#[verifier::ext_equal]
pub struct JournalEntryView {
    pub request_id: Seq<char>,
    pub to: Seq<char>,
    pub amount: Seq<char>,
    pub fee: Seq<char>,
    pub txid: Seq<char>,
}

impl View for JournalEntry {
    type V = JournalEntryView;

    open spec fn view(&self) -> JournalEntryView {
        JournalEntryView {
            request_id: self.request_id@,
            to: self.to@,
            amount: self.amount@,
            fee: self.fee@,
            txid: self.txid@,
        }
    }
}

/// The entries by their request: of two for one request the later counts.
pub open spec fn by_request(entries: Seq<JournalEntry>) -> Map<Seq<char>, JournalEntryView>
    decreases entries.len(),
{
    if entries.len() == 0 {
        Map::empty()
    } else {
        by_request(entries.drop_last()).insert(entries.last().request_id@, entries.last()@)
    }
}

/// The withdrawals that were sent, by their request.
pub struct Journal {
    entries: Vec<JournalEntry>,
}

impl View for Journal {
    type V = Map<Seq<char>, JournalEntryView>;

    closed spec fn view(&self) -> Map<Seq<char>, JournalEntryView> {
        by_request(self.entries@)
    }
}

/// What is done with a request for a withdrawal.
#[derive(Debug, Clone, PartialEq, Eq)]
pub enum WithdrawalStep {
    /// It was already sent, in this transaction.
    AlreadySent(String),
    /// The request was used for another withdrawal.
    Refused(String),
    /// It is to be sent now.
    Send,
}

/// [`WithdrawalStep`] with its texts as sequences.
#[verifier::ext_equal]
pub enum WithdrawalStepView {
    AlreadySent(Seq<char>),
    Refused(Seq<char>),
    Send,
}

impl View for WithdrawalStep {
    type V = WithdrawalStepView;

    open spec fn view(&self) -> WithdrawalStepView {
        match *self {
            WithdrawalStep::AlreadySent(t) => WithdrawalStepView::AlreadySent(t@),
            WithdrawalStep::Refused(t) => WithdrawalStepView::Refused(t@),
            WithdrawalStep::Send => WithdrawalStepView::Send,
        }
    }
}

/// What is done with a request, given the withdrawals that were sent.
pub open spec fn withdrawal_step(
    sent: Map<Seq<char>, JournalEntryView>,
    request_id: Seq<char>,
    to: Seq<char>,
    amount: u128,
    fee: u128,
) -> WithdrawalStepView {
    match sent.get(request_id) {
        None => WithdrawalStepView::Send,
        Some(entry) => if entry.to != to || entry.amount != decimal_text(amount as nat) || entry.fee
            != decimal_text(fee as nat) {
            WithdrawalStepView::Refused(
                "request_id "@ + request_id + " ya se usó antes con otros parámetros"@,
            )
        } else {
            WithdrawalStepView::AlreadySent(entry.txid)
        },
    }
}

/// The entry of a withdrawal that was sent.
pub open spec fn sent_entry(
    request_id: Seq<char>,
    to: Seq<char>,
    amount: u128,
    fee: u128,
    txid: [u8; 32],
) -> JournalEntryView {
    JournalEntryView {
        request_id,
        to,
        amount: decimal_text(amount as nat),
        fee: decimal_text(fee as nat),
        txid: hex_text(txid@),
    }
}

/// The entry of a withdrawal that was sent.
pub fn withdrawal_entry(
    request_id: String,
    to: String,
    amount: u128,
    fee: u128,
    txid: &[u8; 32],
) -> (r: JournalEntry)
    ensures
        r@ == sent_entry(request_id@, to@, amount, fee, *txid),
{
    JournalEntry {
        request_id,
        to,
        amount: decimal(amount),
        fee: decimal(fee),
        txid: hash_text(txid),
    }
}

impl Journal {
    /// A journal without entries.
    pub fn new() -> (r: Journal)
        ensures
            r@ == Map::<Seq<char>, JournalEntryView>::empty(),
    {
        Journal { entries: Vec::new() }
    }

    /// The journal that these entries make, in this order.
    pub fn from_entries(entries: Vec<JournalEntry>) -> (r: Journal)
        ensures
            r@ == by_request(entries@),
    {
        Journal { entries }
    }

    /// The entry of a request.
    pub fn get(&self, request_id: &str) -> (r: Option<&JournalEntry>)
        ensures
            match r {
                Some(entry) => self@.get(request_id@) == Some(entry@),
                None => self@.get(request_id@) is None,
            },
    {
        let mut i: usize = self.entries.len();
        assert(self.entries@.take(i as int) =~= self.entries@);
        while i > 0
            invariant
                i <= self.entries@.len(),
                by_request(self.entries@).get(request_id@) == by_request(
                    self.entries@.take(i as int),
                ).get(request_id@),
            decreases i,
        {
            i -= 1;
            assert(self.entries@.take(i + 1).drop_last() =~= self.entries@.take(i as int));
            assert(self.entries@.take(i + 1).last() == self.entries@[i as int]);
            if same_text(self.entries[i].request_id.as_str(), request_id) {
                return Some(&self.entries[i]);
            }
        }
        None
    }

    /// Adds an entry.
    pub fn append(&mut self, entry: JournalEntry)
        ensures
            final(self)@ == old(self)@.insert(entry@.request_id, entry@),
    {
        self.entries.push(entry);
        assert(self.entries@.drop_last() =~= old(self).entries@);
    }

    /// Decides what is done with a request for a withdrawal.
    pub fn decide(&self, request_id: &str, to: &str, amount: u128, fee: u128) -> (r: WithdrawalStep)
        ensures
            r@ == withdrawal_step(self@, request_id@, to@, amount, fee),
    {
        match self.get(request_id) {
            None => WithdrawalStep::Send,
            Some(entry) => {
                if !same_text(entry.to.as_str(), to) || !same_text(
                    entry.amount.as_str(),
                    decimal(amount).as_str(),
                ) || !same_text(entry.fee.as_str(), decimal(fee).as_str()) {
                    WithdrawalStep::Refused(
                        joined(
                            "request_id ",
                            request_id,
                            " ya se usó antes con otros parámetros",
                        ),
                    )
                } else {
                    WithdrawalStep::AlreadySent(entry.txid.clone())
                }
            },
        }
    }
}

/// A withdrawal that was sent and entered is not sent again: asking for the same gives the same
/// transaction, asking for another under the same request is refused, and other requests are
/// answered as before.
pub proof fn sent_withdrawal_is_not_sent_again(
    sent: Map<Seq<char>, JournalEntryView>,
    request_id: Seq<char>,
    to: Seq<char>,
    amount: u128,
    fee: u128,
    txid: [u8; 32],
    again_id: Seq<char>,
    again_to: Seq<char>,
    again_amount: u128,
    again_fee: u128,
)
    ensures
        ({
            let after = sent.insert(request_id, sent_entry(request_id, to, amount, fee, txid));
            let answer = withdrawal_step(after, again_id, again_to, again_amount, again_fee);
            &&& again_id != request_id ==> answer == withdrawal_step(
                sent,
                again_id,
                again_to,
                again_amount,
                again_fee,
            )
            &&& again_id == request_id ==> if again_to == to && again_amount == amount && again_fee
                == fee {
                answer == WithdrawalStepView::AlreadySent(hex_text(txid@))
            } else {
                answer is Refused
            }
        }),
{
    lemma_decimal(amount as nat);
    lemma_decimal(again_amount as nat);
    lemma_decimal(fee as nat);
    lemma_decimal(again_fee as nat);
}

/// How many blocks confirm a transaction, its own block included.
pub open spec fn confirmations(latest: u64, height: u64) -> int {
    if latest >= height {
        latest - height + 1
    } else {
        1
    }
}

/// Whether enough blocks confirm a transaction.
pub fn is_confirmed(latest: u64, height: u64, needed: u64) -> (r: bool)
    ensures
        r == (confirmations(latest, height) >= needed),
        r == (needed <= 1 || latest + 1 >= height + needed),
{
    if needed <= 1 {
        true
    } else {
        latest >= height && latest - height >= needed - 1
    }
}

/// A deposit that is reported: where it is, and how much it is.
#[derive(Debug, Clone, PartialEq, Eq)]
pub struct DepositReport {
    pub tx_hash: String,
    pub vout: u32,
    pub amount: String,
}

/// [`DepositReport`] with its texts as sequences.
#[verifier::ext_equal]
pub struct DepositReportView {
    pub tx_hash: Seq<char>,
    pub vout: u32,
    pub amount: Seq<char>,
}

impl View for DepositReport {
    type V = DepositReportView;

    open spec fn view(&self) -> DepositReportView {
        DepositReportView { tx_hash: self.tx_hash@, vout: self.vout, amount: self.amount@ }
    }
}

/// The report of a deposit.
pub open spec fn report_of(utxo: (OutPoint, u128)) -> DepositReportView {
    DepositReportView {
        tx_hash: hex_text(utxo.0.txid@),
        vout: utxo.0.vout,
        amount: znx_text(utxo.1 as nat),
    }
}

/// A look at the outputs of a deposit address, one after the other.
pub struct DepositScan {
    utxos: Vec<(OutPoint, u128)>,
    position: usize,
    latest: u64,
    needed: u64,
    confirmed: Vec<(OutPoint, u128)>,
}

/// [`DepositScan`] over models: the outputs that are still to be looked at, and those to be swept.
#[verifier::ext_equal]
pub struct DepositScanView {
    pub waiting: Seq<(OutPoint, u128)>,
    pub latest: u64,
    pub needed: u64,
    pub confirmed: Seq<(OutPoint, u128)>,
}

impl View for DepositScan {
    type V = DepositScanView;

    closed spec fn view(&self) -> DepositScanView {
        DepositScanView {
            waiting: self.utxos@.skip(self.position as int),
            latest: self.latest,
            needed: self.needed,
            confirmed: self.confirmed@,
        }
    }
}

impl DepositScan {
    /// The position is within the list.
    pub closed spec fn wf(self) -> bool {
        self.position <= self.utxos@.len()
    }

    /// Starts a look at the outputs of an address, where there are any and the chain has a block.
    pub fn start(utxos: Vec<(OutPoint, u128)>, latest: Option<u64>, needed: u64) -> (r: Option<
        DepositScan,
    >)
        ensures
            r is Some == (utxos@.len() > 0 && latest is Some),
            r matches Some(scan) ==> scan.wf() && scan@ == (DepositScanView {
                waiting: utxos@,
                latest: latest->0,
                needed,
                confirmed: Seq::empty(),
            }),
    {
        if utxos.len() == 0 {
            return None;
        }
        match latest {
            None => None,
            Some(latest) => {
                assert(utxos@.skip(0) =~= utxos@);
                Some(DepositScan { utxos, position: 0, latest, needed, confirmed: Vec::new() })
            },
        }
    }

    /// The output to look at next.
    pub fn current(&self) -> (r: Option<OutPoint>)
        requires
            self.wf(),
        ensures
            r == (if self@.waiting.len() > 0 {
                Some(self@.waiting[0].0)
            } else {
                None::<OutPoint>
            }),
    {
        if self.position < self.utxos.len() {
            Some(self.utxos[self.position].0)
        } else {
            None
        }
    }

    /// Takes in the height at which the current output was confirmed, if that is known. An output
    /// that is confirmed by enough blocks is to be reported; any other is passed over.
    pub fn on_height(&mut self, height: Option<u64>) -> (r: Option<DepositReport>)
        requires
            old(self).wf(),
            old(self)@.waiting.len() > 0,
        ensures
            final(self).wf(),
            ({
                let before = old(self)@;
                let mature = height is Some && confirmations(before.latest, height->0)
                    >= before.needed;
                &&& r is Some == mature
                &&& r is Some <==> height is Some && (before.needed <= 1 || before.latest + 1
                    >= height->0 + before.needed)
                &&& r matches Some(report) ==> report@ == report_of(before.waiting[0])
                &&& final(self)@ == (if mature {
                    before
                } else {
                    DepositScanView { waiting: before.waiting.skip(1), ..before }
                })
            }),
    {
        let (outpoint, amount) = self.utxos[self.position];
        let mature = match height {
            Some(height) => is_confirmed(self.latest, height, self.needed),
            None => false,
        };
        if mature {
            Some(
                DepositReport {
                    tx_hash: hash_text(&outpoint.txid),
                    vout: outpoint.vout,
                    amount: format_base_units_as_znx_decimal(amount),
                },
            )
        } else {
            assert(self.position < self.utxos.len());
            self.position += 1;
            assert(self@.waiting =~= old(self)@.waiting.skip(1));
            None
        }
    }

    /// Takes in whether the current output was reported. Only one that was is swept.
    pub fn on_reported(&mut self, reported: bool)
        requires
            old(self).wf(),
            old(self)@.waiting.len() > 0,
        ensures
            final(self).wf(),
            final(self)@ == (DepositScanView {
                waiting: old(self)@.waiting.skip(1),
                confirmed: if reported {
                    old(self)@.confirmed.push(old(self)@.waiting[0])
                } else {
                    old(self)@.confirmed
                },
                ..old(self)@
            }),
    {
        if reported {
            let utxo = self.utxos[self.position];
            self.confirmed.push(utxo);
        }
        assert(self.position < self.utxos.len());
        self.position += 1;
        assert(self@.waiting =~= old(self)@.waiting.skip(1));
    }

    /// Whether what is to be swept adds up to less than 2^128.
    pub fn sum_fits(&self) -> (r: bool)
        ensures
            r == (amounts_total(self@.confirmed) <= u128::MAX),
    {
        match checked_sum(&self.confirmed) {
            Some(_) => true,
            None => false,
        }
    }

    /// Whether anything is to be swept.
    pub fn has_deposits(&self) -> (r: bool)
        ensures
            r == (self@.confirmed.len() > 0),
    {
        self.confirmed.len() > 0
    }

    /// Builds the transfer that sweeps all reported outputs, without a fee.
    pub fn sweep(self, chain_id: String, deposit: &Keypair, custody: Address) -> (r: Result<
        Transaction,
        WalletError,
    >)
        requires
            amounts_total(self@.confirmed) <= u128::MAX,
            self@.confirmed.len() <= u32::MAX,
            text_fits(chain_id@),
        ensures
            match r {
                Ok(tx) => sweep_outcome(chain_id@, deposit@, custody, self@.confirmed) == Ok::<
                    _,
                    WalletErrorView,
                >(tx@),
                Err(e) => sweep_outcome(chain_id@, deposit@, custody, self@.confirmed) == Err::<
                    TransactionView,
                    _,
                >(e@),
            },
    {
        let total: u128 = match checked_sum(&self.confirmed) {
            Some(total) => total,
            None => 0,
        };
        build_transfer(chain_id, deposit, custody, total, 0, self.confirmed)
    }
}

/// The transfer that sweeps some outputs: all they hold, without a fee.
pub open spec fn sweep_outcome(
    chain_id: Seq<char>,
    secret: Seq<u8>,
    custody: Address,
    confirmed: Seq<(OutPoint, u128)>,
) -> Result<TransactionView, WalletErrorView> {
    transfer_outcome(
        chain_id,
        secret,
        custody,
        amounts_total(confirmed) as u128,
        0,
        confirmed,
    )
}

/// A sweep is always possible, and pays all that the deposits hold to custody, with no change.
/// Where every deposit holds something, it spends exactly the deposits, each once.
pub proof fn sweep_pays_everything(
    chain_id: Seq<char>,
    secret: Seq<u8>,
    custody: Address,
    confirmed: Seq<(OutPoint, u128)>,
)
    requires
        amounts_total(confirmed) <= u128::MAX,
    ensures
        sweep_outcome(chain_id, secret, custody, confirmed) is Ok,
        sweep_outcome(chain_id, secret, custody, confirmed)->Ok_0.outputs == seq![
            TxOut { amount: amounts_total(confirmed) as u128, pubkey_hash: custody },
        ],
        (forall|i: int| 0 <= i < confirmed.len() ==> (#[trigger] confirmed[i]).1 > 0) ==> {
            let tx = sweep_outcome(chain_id, secret, custody, confirmed)->Ok_0;
            let spent = largest_first(confirmed);
            &&& spent.to_multiset() == confirmed.to_multiset()
            &&& spent_outpoints(tx) == outpoints(spent)
        },
{
    let target = amounts_total(confirmed) as u128;
    selection_covers_and_is_minimal(confirmed, target);
    let sorted = largest_first(confirmed);
    ordering_keeps_the_outputs(confirmed);
    lemma_cover(sorted, target, 0);
    let k = cover(sorted, target, 0);
    lemma_total_take(sorted, k);
    if forall|i: int| 0 <= i < confirmed.len() ==> (#[trigger] confirmed[i]).1 > 0 {
        if k < sorted.len() {
            lemma_total_take(sorted, k + 1);
            assert(sorted.take(k + 1).drop_last() =~= sorted.take(k));
            assert(sorted.take(k + 1).last() == sorted[k]);
            assert(sorted.contains(sorted[k]));
            lemma_order_contains(confirmed, sorted[k]);
            let j = choose|j: int| 0 <= j < confirmed.len() && confirmed[j] == sorted[k];
            assert(confirmed[j].1 > 0);
        }
        assert(sorted.take(k) =~= sorted);
        let tx = sweep_outcome(chain_id, secret, custody, confirmed)->Ok_0;
        assert(spent_outpoints(tx) =~= outpoints(sorted));
    }
}

/// White space in front of a text is taken off.
proof fn lemma_trimmed_front(before: Seq<char>, s: Seq<char>)
    requires
        forall|i: int| 0 <= i < before.len() ==> is_white_space(#[trigger] before[i]),
    ensures
        trimmed_start(before + s) == trimmed_start(s),
    decreases before.len(),
{
    if before.len() == 0 {
        assert(before + s =~= s);
    } else {
        let rest = before.skip(1);
        assert forall|i: int| 0 <= i < rest.len() implies is_white_space(#[trigger] rest[i]) by {
            assert(rest[i] == before[i + 1]);
        }
        assert(is_white_space(before[0]));
        assert((before + s)[0] == before[0]);
        assert((before + s).skip(1) =~= rest + s);
        lemma_trimmed_front(rest, s);
    }
}

/// White space behind a text is taken off.
proof fn lemma_trimmed_back(s: Seq<char>, after: Seq<char>)
    requires
        forall|i: int| 0 <= i < after.len() ==> is_white_space(#[trigger] after[i]),
    ensures
        trimmed_end(s + after) == trimmed_end(s),
    decreases after.len(),
{
    if after.len() == 0 {
        assert(s + after =~= s);
    } else {
        let rest = after.drop_last();
        assert forall|i: int| 0 <= i < rest.len() implies is_white_space(#[trigger] rest[i]) by {
            assert(rest[i] == after[i]);
        }
        assert(is_white_space(after[after.len() - 1]));
        assert((s + after).last() == after.last());
        assert((s + after).drop_last() =~= s + rest);
        lemma_trimmed_back(s, rest);
    }
}

/// The white space around a text, and nothing else, is taken off: what is between white space and
/// neither starts nor ends with it is kept as it is.
pub proof fn trimming_takes_off_the_white_space_around(
    before: Seq<char>,
    s: Seq<char>,
    after: Seq<char>,
)
    requires
        forall|i: int| 0 <= i < before.len() ==> is_white_space(#[trigger] before[i]),
        forall|i: int| 0 <= i < after.len() ==> is_white_space(#[trigger] after[i]),
        s.len() > 0 ==> !is_white_space(s[0]) && !is_white_space(s.last()),
    ensures
        trimmed(before + s + after) == s,
{
    assert(before + s + after =~= before + (s + after));
    lemma_trimmed_front(before, s + after);
    if s.len() == 0 {
        assert(s + after =~= after + s);
        lemma_trimmed_front(after, s);
    } else {
        assert((s + after)[0] == s[0]);
        lemma_trimmed_back(s, after);
    }
}

/// What digits in a row stand for, in two parts.
proof fn lemma_digits_join(a: Seq<char>, b: Seq<char>)
    ensures
        digits_value(a + b) == digits_value(a) * ten_to(b.len()) + digits_value(b),
    decreases b.len(),
{
    if b.len() == 0 {
        assert(a + b =~= a);
        assert(digits_value(a) * ten_to(0) == digits_value(a)) by (nonlinear_arith)
            requires
                ten_to(0) == 1,
        ;
    } else {
        lemma_digits_join(a, b.drop_last());
        assert((a + b).drop_last() =~= a + b.drop_last());
        assert((a + b).last() == b.last());
        let (v, x, y) = (digits_value(a), ten_to((b.len() - 1) as nat), ten_to(b.len()));
        assert((v * x) * 10 == v * y) by (nonlinear_arith)
            requires
                y == 10 * x,
        ;
    }
}

/// An amount is read by its digits, wherever the point stands among them: with `k` digits behind
/// the point it is the number that all digits make, without the point, divided by ten to the
/// power of `k`, in coins of 10^18 base units. White space around it does not count, and neither
/// does a point at its end. It is refused only where it is zero or too large.
pub proof fn amount_is_read_by_its_digits(
    before: Seq<char>,
    whole: Seq<char>,
    frac: Seq<char>,
    after: Seq<char>,
)
    requires
        forall|i: int| 0 <= i < before.len() ==> is_white_space(#[trigger] before[i]),
        forall|i: int| 0 <= i < after.len() ==> is_white_space(#[trigger] after[i]),
        all_digits(whole),
        all_digits(frac),
        frac.len() <= 18,
    ensures
        ({
            let text = before + (whole + seq!['.'] + frac) + after;
            let coins = digits_value(whole + frac) * 1_000_000_000_000_000_000;
            let parts = ten_to(frac.len());
            match base_units(text) {
                Ok(units) => units * parts == coins && units > 0,
                Err(_) => coins == 0 || coins > u128::MAX * parts,
            }
        }),
        whole.len() > 0 ==> match base_units(before + whole + after) {
            Ok(units) => units == digits_value(whole) * 1_000_000_000_000_000_000 && units > 0,
            Err(_) => digits_value(whole) == 0 || digits_value(whole) * 1_000_000_000_000_000_000
                > u128::MAX,
        },
{
    let s = whole + seq!['.'] + frac;
    let none = Seq::<char>::empty();
    assert(!is_white_space('.'));
    if whole.len() > 0 {
        assert(is_digit(whole[0]) && is_digit(whole[whole.len() - 1]));
        assert(s[0] == whole[0]);
    } else {
        assert(s[0] == '.');
    }
    if frac.len() > 0 {
        assert(is_digit(frac[frac.len() - 1]));
        assert(s.last() == frac[frac.len() - 1]);
    } else {
        assert(s.last() == '.');
    }
    trimming_takes_off_the_white_space_around(before, s, after);
    let k = whole.len() as int;
    assert forall|i: int| 0 <= i < k implies #[trigger] s[i] != '.' by {
        assert(s[i] == whole[i]);
        assert(is_digit(whole[i]));
    }
    assert(s[k] == '.');
    lemma_point_is(s, k);
    assert(s.take(k) =~= whole);
    assert(s.skip(k + 1) =~= frac);
    lemma_digits_join(whole, frac);
    lemma_ten_to_18();
    let n = frac.len();
    lemma_ten_to_sum(n, (18 - n) as nat);
    let (w, f) = (digits_value(whole), digits_value(frac));
    let (p, q) = (ten_to(n), ten_to((18 - n) as nat));
    let base = 1_000_000_000_000_000_000nat;
    let units = units_of(whole, frac);
    assert(units * p == (w * p + f) * base) by (nonlinear_arith)
        requires
            units == w * base + f * q,
            p * q == base,
    ;
    assert(p > 0);
    if units > u128::MAX {
        assert(units * p > u128::MAX * p) by (nonlinear_arith)
            requires
                units > u128::MAX,
                p > 0,
        ;
    }
    if units > 0 {
        assert(units * p > 0) by (nonlinear_arith)
            requires
                units > 0,
                p > 0,
        ;
    } else {
        assert(units * p == 0) by (nonlinear_arith)
            requires
                units == 0,
        ;
    }
    if whole.len() > 0 {
        trimming_takes_off_the_white_space_around(before, whole, after);
        assert forall|i: int| 0 <= i < k implies #[trigger] whole[i] != '.' by {
            assert(is_digit(whole[i]));
        }
        lemma_point_is(whole, k);
        assert(whole.take(k) =~= whole);
        assert(digits_value(none) == 0);
        assert(digits_value(none) * ten_to(18) == 0) by (nonlinear_arith)
            requires
                digits_value(none) == 0,
        ;
    }
}

/// White space at the start of a text.
proof fn lemma_split_front(s: Seq<char>) -> (before: Seq<char>)
    ensures
        forall|i: int| 0 <= i < before.len() ==> is_white_space(#[trigger] before[i]),
        s == before + trimmed_start(s),
    decreases s.len(),
{
    if s.len() > 0 && is_white_space(s[0]) {
        let rest = lemma_split_front(s.skip(1));
        let before = seq![s[0]] + rest;
        assert forall|i: int| 0 <= i < before.len() implies is_white_space(#[trigger] before[i]) by {
            if i > 0 {
                assert(before[i] == rest[i - 1]);
            }
        }
        assert(s =~= before + trimmed_start(s)) by {
            assert(s =~= seq![s[0]] + s.skip(1));
        }
        before
    } else {
        assert(s =~= Seq::<char>::empty() + s);
        Seq::empty()
    }
}

/// White space at the end of a text.
proof fn lemma_split_back(s: Seq<char>) -> (after: Seq<char>)
    ensures
        forall|i: int| 0 <= i < after.len() ==> is_white_space(#[trigger] after[i]),
        s == trimmed_end(s) + after,
    decreases s.len(),
{
    if s.len() > 0 && is_white_space(s.last()) {
        let rest = lemma_split_back(s.drop_last());
        let after = rest.push(s.last());
        assert forall|i: int| 0 <= i < after.len() implies is_white_space(#[trigger] after[i]) by {
            if i < rest.len() {
                assert(after[i] == rest[i]);
            }
        }
        assert(s =~= trimmed_end(s) + after) by {
            assert(s =~= s.drop_last().push(s.last()));
        }
        after
    } else {
        assert(s =~= s + Seq::<char>::empty());
        Seq::empty()
    }
}

/// Nothing but digits, with at most one point among them and at most 18 digits behind it, is read
/// as an amount, apart from white space around it: the parts of a text that is read are given
/// back.
pub proof fn amount_that_is_read_is_digits(raw: Seq<char>) -> (parts: (
    Seq<char>,
    Seq<char>,
    Seq<char>,
    Seq<char>,
))
    requires
        base_units(raw) is Ok,
    ensures
        forall|i: int| 0 <= i < parts.0.len() ==> is_white_space(#[trigger] parts.0[i]),
        forall|i: int| 0 <= i < parts.3.len() ==> is_white_space(#[trigger] parts.3[i]),
        all_digits(parts.1),
        all_digits(parts.2),
        parts.2.len() <= 18,
        raw == parts.0 + (parts.1 + seq!['.'] + parts.2) + parts.3 || (parts.2.len() == 0 && raw
            == parts.0 + parts.1 + parts.3),
{
    let before = lemma_split_front(raw);
    let rest = trimmed_start(raw);
    let after = lemma_split_back(rest);
    let s = trimmed(raw);
    lemma_point(s);
    let whole = s.take(point(s));
    let frac = fraction(s);
    if point(s) < s.len() {
        assert(s =~= whole + seq!['.'] + frac);
        assert(raw =~= before + (whole + seq!['.'] + frac) + after);
    } else {
        assert(s =~= whole);
        assert(raw =~= before + whole + after);
    }
    (before, whole, frac, after)
}

/// An amount is written with the shortest fraction: whole coins without a point, and no zero at
/// the end behind one.
pub proof fn amounts_are_written_short(coins: nat, units: nat)
    ensures
        znx_text(coins * 1_000_000_000_000_000_000) == decimal_text(coins),
        units % 1_000_000_000_000_000_000 != 0 ==> znx_text(units).last() != '0' && is_digit(
            znx_text(units).last(),
        ),
{
    let scale = BASE_UNITS_PER_ZNX as nat;
    vstd::arithmetic::div_mod::lemma_div_multiples_vanish(coins as int, scale as int);
    vstd::arithmetic::div_mod::lemma_mod_multiples_basic(coins as int, scale as int);
    assert(scale * coins == coins * scale) by (nonlinear_arith);
    let f = units % scale;
    if f != 0 {
        let all = fixed_digits(f, 18);
        let frac = without_zeros(all);
        lemma_ten_to_18();
        lemma_fixed_digits(f, 18);
        lemma_without_zeros(all);
        if frac.len() == 0 {
            assert(digits_value(frac) * ten_to(18) == 0) by (nonlinear_arith)
                requires
                    digits_value(frac) == 0,
            ;
        }
        assert(is_digit(frac[frac.len() - 1]));
        assert(znx_text(units).last() == frac.last());
    }
}

/// A transaction in the latest block has one confirmation, and each block on top of it adds one.
pub proof fn each_block_adds_a_confirmation(latest: u64, height: u64)
    requires
        height <= latest < u64::MAX,
    ensures
        confirmations(height, height) == 1,
        confirmations((latest + 1) as u64, height) == confirmations(latest, height) + 1,
{
}

/// A request is sent exactly if none was entered under its name.
pub proof fn new_request_is_sent(
    sent: Map<Seq<char>, JournalEntryView>,
    request_id: Seq<char>,
    to: Seq<char>,
    amount: u128,
    fee: u128,
)
    ensures
        withdrawal_step(sent, request_id, to, amount, fee) == WithdrawalStepView::Send
            <==> !sent.contains_key(request_id),
{
}

/// A journal that is read back from its entries has for each request the last entry that was made
/// for it, and none where none was made.
pub proof fn last_entry_of_a_request_counts(entries: Seq<JournalEntry>, id: Seq<char>, i: int)
    requires
        -1 <= i < entries.len(),
        i >= 0 ==> entries[i].request_id@ == id,
        forall|k: int| i < k < entries.len() ==> (#[trigger] entries[k]).request_id@ != id,
    ensures
        i >= 0 ==> by_request(entries).get(id) == Some(entries[i]@),
        i < 0 ==> by_request(entries).get(id) is None,
    decreases entries.len(),
{
    if entries.len() > 0 && i < entries.len() - 1 {
        let front = entries.drop_last();
        assert(entries[entries.len() - 1].request_id@ != id);
        assert forall|k: int| i < k < front.len() implies (#[trigger] front[k]).request_id@
            != id by {
            assert(front[k] == entries[k]);
        }
        last_entry_of_a_request_counts(front, id, i);
    }
}

/// A request says what is to be withdrawn: the address that was read, the amount and the fee in
/// base units, and no fee where none is given.
pub proof fn request_says_what_is_withdrawn(to: Address, amount: u128, fee: u128)
    ensures
        withdrawal_of(
            Ok(to),
            decimal_text(amount as nat),
            Some(decimal_text(fee as nat)),
        ) == Ok::<_, RpcFaultView>(Withdrawal { to, amount, fee }),
        withdrawal_of(Ok(to), decimal_text(amount as nat), None) == Ok::<_, RpcFaultView>(
            Withdrawal { to, amount, fee: 0 },
        ),
{
    reading_inverts_decimal_writing(amount);
    reading_inverts_decimal_writing(fee);
}

/// A withdrawal that waits is sent, to the address that was read and with the amount that was
/// written; it fails only where the address or the amount cannot be read.
pub proof fn waiting_withdrawal_is_sent_as_written(
    address: Result<Address, CryptoErrorView>,
    amount: Seq<char>,
    units: u128,
)
    ensures
        address is Ok && units > 0 ==> pending_outcome(address, znx_text(units as nat))
            == (PendingActionView::Send { to: address->Ok_0, amount: units }),
        pending_outcome(address, amount) is Fail <==> address is Err || base_units(amount) is Err,
        address is Ok && base_units(amount) is Ok ==> pending_outcome(address, amount) == (
        PendingActionView::Send { to: address->Ok_0, amount: base_units(amount)->Ok_0 }),
{
    if units > 0 {
        amounts_round_trip(units);
    }
}

/// A report says where a deposit is and how much it holds: both can be read back from it.
pub proof fn report_states_the_deposit(utxo: (OutPoint, u128))
    requires
        utxo.1 > 0,
    ensures
        unhexed(report_of(utxo).tx_hash) == Some(utxo.0.txid@),
        report_of(utxo).vout == utxo.0.vout,
        base_units(report_of(utxo).amount) == Ok::<u128, Seq<char>>(utxo.1),
{
    amounts_round_trip(utxo.1);
    decoding_inverts_hex(utxo.0.txid@);
}

} // verus!
