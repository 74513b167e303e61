//! Byte strings: fixed-width integers in both byte orders, comparison and copying.

use vstd::prelude::*;

verus! {

/// The array whose elements are `s`.
pub open spec fn array_of<const N: usize>(s: Seq<u8>) -> [u8; N] {
    choose|a: [u8; N]| a@ == s
}

/// An array is determined by its elements.
pub proof fn lemma_array_of<const N: usize>(a: [u8; N])
    ensures
        array_of::<N>(a@) == a,
{
    let c = array_of::<N>(a@);
    assert(c@ == a@);
    assert(c =~= a);
}

/// Two arrays with the same elements are the same array.
pub proof fn lemma_array_ext<const N: usize>(a: [u8; N], b: [u8; N])
    requires
        a@ == b@,
    ensures
        a == b,
{
    assert(a =~= b);
}

/// The `n` low base-256 digits of `v`, least significant first.
pub open spec fn le_bytes(v: nat, n: nat) -> Seq<u8>
    decreases n,
{
    if n == 0 {
        Seq::empty()
    } else {
        seq![(v % 256) as u8] + le_bytes(v / 256, (n - 1) as nat)
    }
}

/// The number whose base-256 digits are `s`, least significant first.
pub open spec fn le_value(s: Seq<u8>) -> nat
    decreases s.len(),
{
    if s.len() == 0 {
        0
    } else {
        s[0] as nat + 256 * le_value(s.skip(1))
    }
}

/// The `n` low base-256 digits of `v`, most significant first.
pub open spec fn be_bytes(v: nat, n: nat) -> Seq<u8>
    decreases n,
{
    if n == 0 {
        Seq::empty()
    } else {
        be_bytes(v / 256, (n - 1) as nat).push((v % 256) as u8)
    }
}

/// The number whose base-256 digits are `s`, most significant first.
pub open spec fn be_value(s: Seq<u8>) -> nat
    decreases s.len(),
{
    if s.len() == 0 {
        0
    } else {
        256 * be_value(s.drop_last()) + s.last() as nat
    }
}

/// `256` to the power `n`.
pub open spec fn pow256(n: nat) -> nat
    decreases n,
{
    if n == 0 {
        1
    } else {
        256 * pow256((n - 1) as nat)
    }
}

pub proof fn lemma_pow256()
    ensures
        pow256(4) == 0x1_0000_0000,
        pow256(8) == 0x1_0000_0000_0000_0000,
        pow256(16) == 0x1_0000_0000_0000_0000_0000_0000_0000_0000,
{
    reveal_with_fuel(pow256, 17);
}

pub proof fn lemma_le_bytes_len(v: nat, n: nat)
    ensures
        le_bytes(v, n).len() == n,
    decreases n,
{
    if n > 0 {
        lemma_le_bytes_len(v / 256, (n - 1) as nat);
    }
}

pub proof fn lemma_be_bytes_len(v: nat, n: nat)
    ensures
        be_bytes(v, n).len() == n,
    decreases n,
{
    if n > 0 {
        lemma_be_bytes_len(v / 256, (n - 1) as nat);
    }
}

/// Reading back the digits of a number that fits gives the number.
pub proof fn lemma_le_round_trip(v: nat, n: nat)
    requires
        v < pow256(n),
    ensures
        le_value(le_bytes(v, n)) == v,
    decreases n,
{
    if n > 0 {
        lemma_le_round_trip(v / 256, (n - 1) as nat);
        assert(le_bytes(v, n).skip(1) =~= le_bytes(v / 256, (n - 1) as nat));
        assert(le_bytes(v, n)[0] == (v % 256) as u8);
    }
}

/// Every byte string is the digits of the number it stands for.
pub proof fn lemma_le_value_bytes(s: Seq<u8>)
    ensures
        le_bytes(le_value(s), s.len()) == s,
        le_value(s) < pow256(s.len()),
    decreases s.len(),
{
    if s.len() > 0 {
        lemma_le_value_bytes(s.skip(1));
        let low = s[0] as nat;
        let high = le_value(s.skip(1));
        assert((low + 256 * high) % 256 == low);
        assert((low + 256 * high) / 256 == high);
        assert(seq![s[0]] + s.skip(1) =~= s);
    }
}

/// Reading back the digits of a number that fits gives the number.
pub proof fn lemma_be_round_trip(v: nat, n: nat)
    requires
        v < pow256(n),
    ensures
        be_value(be_bytes(v, n)) == v,
    decreases n,
{
    if n > 0 {
        lemma_be_round_trip(v / 256, (n - 1) as nat);
        assert(be_bytes(v, n).drop_last() =~= be_bytes(v / 256, (n - 1) as nat));
    }
}

/// Every byte string is the digits of the number it stands for.
pub proof fn lemma_be_value_bytes(s: Seq<u8>)
    ensures
        be_bytes(be_value(s), s.len()) == s,
        be_value(s) < pow256(s.len()),
    decreases s.len(),
{
    if s.len() > 0 {
        lemma_be_value_bytes(s.drop_last());
        let low = s.last() as nat;
        let high = be_value(s.drop_last());
        assert((256 * high + low) % 256 == low);
        assert((256 * high + low) / 256 == high);
        assert(s.drop_last().push(s.last()) =~= s);
    }
}

/// The first byte of a big-endian number carries the weight of all that follow.
pub proof fn lemma_be_value_head(s: Seq<u8>)
    requires
        s.len() > 0,
    ensures
        be_value(s) == s[0] as nat * pow256((s.len() - 1) as nat) + be_value(s.skip(1)),
    decreases s.len(),
{
    if s.len() == 1 {
        assert(s.drop_last() =~= Seq::<u8>::empty());
        assert(s.skip(1) =~= Seq::<u8>::empty());
        assert(be_value(Seq::<u8>::empty()) == 0);
        assert(pow256(0) == 1);
        assert(be_value(s) == s[0] as nat);
        assert(s[0] as nat * 1 == s[0] as nat);
    } else {
        let front = s.drop_last();
        lemma_be_value_head(front);
        assert(front.skip(1) =~= s.skip(1).drop_last());
        assert(s.skip(1).last() == s.last());
        let w = pow256((front.len() - 1) as nat);
        assert(pow256((s.len() - 1) as nat) == 256 * w);
        let h = s[0] as nat;
        assert(256 * (h * w) == h * (256 * w)) by (nonlinear_arith);
        assert(front[0] == s[0]);
        assert(be_value(s) == 256 * be_value(front) + s.last() as nat);
        assert(be_value(s.skip(1)) == 256 * be_value(front.skip(1)) + s.last() as nat);
    }
}

/// Whether two byte strings are the same.
pub fn same_bytes(a: &[u8], b: &[u8]) -> (r: bool)
    ensures
        r == (a@ == b@),
{
    if a.len() != b.len() {
        return false;
    }
    let mut i: usize = 0;
    while i < a.len()
        invariant
            i <= a.len(),
            a.len() == b.len(),
            forall|j: int| 0 <= j < i ==> a@[j] == b@[j],
        decreases a.len() - i,
    {
        if a[i] != b[i] {
            return false;
        }
        i += 1;
    }
    assert(a@ =~= b@);
    true
}

/// Whether two byte arrays are the same.
pub fn same_array<const N: usize>(a: &[u8; N], b: &[u8; N]) -> (r: bool)
    ensures
        r == (*a == *b),
{
    let r = same_bytes(a.as_slice(), b.as_slice());
    proof {
        if a@ == b@ {
            lemma_array_ext(*a, *b);
        }
    }
    r
}

/// Copies `N` bytes into an array.
pub fn to_array<const N: usize>(s: &[u8]) -> (r: [u8; N])
    requires
        s@.len() == N,
    ensures
        r@ == s@,
{
    let mut r: [u8; N] = [0u8; N];
    let mut i: usize = 0;
    while i < N
        invariant
            i <= N,
            s@.len() == N,
            forall|j: int| 0 <= j < i ==> r@[j] == s@[j],
        decreases N - i,
    {
        r[i] = s[i];
        i += 1;
    }
    assert(r@ =~= s@);
    r
}

/// Copies a byte string.
pub fn to_vec(s: &[u8]) -> (r: Vec<u8>)
    ensures
        r@ == s@,
{
    let mut r: Vec<u8> = Vec::new();
    r.extend_from_slice(s);
    assert(r@ =~= s@);
    r
}

/// The part of `s` from `from` up to `to`.
pub fn part(s: &[u8], from: usize, to: usize) -> (r: &[u8])
    requires
        from <= to <= s@.len(),
    ensures
        r@ == s@.subrange(from as int, to as int),
{
    vstd::slice::slice_subrange(s, from, to)
}

/// The `N` low bytes of `v`, least significant first.
fn le_digits<const N: usize>(v: u64) -> (r: [u8; N])
    ensures
        r@ == le_bytes(v as nat, N as nat),
{
    let mut r: [u8; N] = [0u8; N];
    let mut x: u64 = v;
    let mut i: usize = 0;
    assert(r@.take(0) + le_bytes(x as nat, N as nat) =~= le_bytes(v as nat, N as nat));
    while i < N
        invariant
            i <= N,
            r@.take(i as int) + le_bytes(x as nat, (N - i) as nat) == le_bytes(v as nat, N as nat),
        decreases N - i,
    {
        let ghost before = r@.take(i as int);
        let ghost rest = le_bytes((x / 256) as nat, (N - i - 1) as nat);
        assert(le_bytes(x as nat, (N - i) as nat) == seq![(x % 256) as u8] + rest);
        r[i] = (x % 256) as u8;
        assert(r@.take(i + 1) =~= before.push((x % 256) as u8));
        assert(before.push((x % 256) as u8) + rest =~= before + (seq![(x % 256) as u8] + rest));
        x = x / 256;
        i += 1;
    }
    assert(r@.take(N as int) + Seq::<u8>::empty() =~= r@);
    r
}

/// The `N` low bytes of `v`, most significant first.
fn be_digits<const N: usize>(v: u64) -> (r: [u8; N])
    ensures
        r@ == be_bytes(v as nat, N as nat),
{
    let mut r: [u8; N] = [0u8; N];
    let mut x: u64 = v;
    let mut i: usize = N;
    assert(be_bytes(x as nat, N as nat) + r@.skip(N as int) =~= be_bytes(v as nat, N as nat));
    while i > 0
        invariant
            i <= N,
            be_bytes(x as nat, i as nat) + r@.skip(i as int) == be_bytes(v as nat, N as nat),
        decreases i,
    {
        let ghost after = r@.skip(i as int);
        let ghost rest = be_bytes((x / 256) as nat, (i - 1) as nat);
        assert(be_bytes(x as nat, i as nat) == rest.push((x % 256) as u8));
        i -= 1;
        r[i] = (x % 256) as u8;
        assert(r@.skip(i as int) =~= seq![(x % 256) as u8] + after);
        assert(rest + (seq![(x % 256) as u8] + after) =~= rest.push((x % 256) as u8) + after);
        x = x / 256;
    }
    assert(Seq::<u8>::empty() + r@.skip(0) =~= r@);
    r
}

/// The eight bytes of `v`, least significant first.
pub fn u64_to_le(v: u64) -> (r: [u8; 8])
    ensures
        r@ == le_bytes(v as nat, 8),
{
    le_digits(v)
}

/// The number that eight bytes stand for, least significant first.
pub fn u64_from_le(b: &[u8]) -> (r: u64)
    requires
        b@.len() == 8,
    ensures
        r as nat == le_value(b@),
{
    proof {
        lemma_pow256();
        lemma_le_value_bytes(b@);
    }
    let mut i: usize = 8;
    let mut v: u64 = 0;
    assert(b@.skip(8) =~= Seq::<u8>::empty());
    while i > 0
        invariant
            i <= 8,
            b@.len() == 8,
            v as nat == le_value(b@.skip(i as int)),
        decreases i,
    {
        i -= 1;
        proof {
            let rest = b@.skip(i as int);
            assert(rest.skip(1) =~= b@.skip(i + 1));
            assert(rest[0] == b@[i as int]);
            lemma_le_value_bytes(rest);
            reveal_with_fuel(pow256, 9);
            assert(le_value(rest) < pow256(8)) by {
                lemma_pow256_monotone(rest.len(), 8);
            }
            lemma_pow256();
        }
        v = v * 256 + b[i] as u64;
    }
    assert(b@.skip(0) =~= b@);
    v
}

pub proof fn lemma_pow256_monotone(m: nat, n: nat)
    requires
        m <= n,
    ensures
        pow256(m) <= pow256(n),
    decreases n,
{
    if m < n {
        lemma_pow256_monotone(m, (n - 1) as nat);
    }
}

/// The eight bytes of `v`, most significant first.
pub fn u64_to_be(v: u64) -> (r: [u8; 8])
    ensures
        r@ == be_bytes(v as nat, 8),
{
    be_digits(v)
}

/// The four bytes of `v`, most significant first.
pub fn u32_to_be(v: u32) -> (r: [u8; 4])
    ensures
        r@ == be_bytes(v as nat, 4),
{
    be_digits(v as u64)
}

/// The number that up to eight bytes stand for, most significant first.
pub fn u64_from_be(b: &[u8]) -> (r: u64)
    requires
        b@.len() <= 8,
    ensures
        r as nat == be_value(b@),
{
    let mut i: usize = 0;
    let mut v: u64 = 0;
    assert(b@.take(0) =~= Seq::<u8>::empty());
    while i < b.len()
        invariant
            i <= b.len() <= 8,
            v as nat == be_value(b@.take(i as int)),
        decreases b.len() - i,
    {
        proof {
            let next = b@.take(i + 1);
            assert(next.drop_last() =~= b@.take(i as int));
            lemma_be_value_bytes(next);
            lemma_pow256_monotone(next.len(), 8);
            lemma_pow256();
        }
        v = v * 256 + b[i] as u64;
        i += 1;
    }
    assert(b@.take(b@.len() as int) =~= b@);
    v
}

/// The number that four bytes stand for, most significant first.
pub fn u32_from_be(b: &[u8]) -> (r: u32)
    requires
        b@.len() == 4,
    ensures
        r as nat == be_value(b@),
{
    proof {
        lemma_be_value_bytes(b@);
        lemma_pow256();
    }
    u64_from_be(b) as u32
}

/// Big-endian numbers of one width are ordered as their bytes are, from the front.
pub fn be_at_most(a: &[u8], b: &[u8]) -> (r: bool)
    requires
        a@.len() == b@.len(),
    ensures
        r == (be_value(a@) <= be_value(b@)),
{
    let mut i: usize = 0;
    assert(a@.skip(0) =~= a@);
    assert(b@.skip(0) =~= b@);
    while i < a.len()
        invariant
            i <= a.len(),
            a@.len() == b@.len(),
            (be_value(a@) <= be_value(b@)) == (be_value(a@.skip(i as int)) <= be_value(
                b@.skip(i as int),
            )),
        decreases a.len() - i,
    {
        proof {
            let x = a@.skip(i as int);
            let y = b@.skip(i as int);
            lemma_be_value_head(x);
            lemma_be_value_head(y);
            assert(x.skip(1) =~= a@.skip(i + 1));
            assert(y.skip(1) =~= b@.skip(i + 1));
            lemma_be_value_bytes(x.skip(1));
            lemma_be_value_bytes(y.skip(1));
            let w = pow256((x.len() - 1) as nat);
            let p = x[0] as nat;
            let q = y[0] as nat;
            if p < q {
                assert(p * w + w <= q * w) by (nonlinear_arith)
                    requires
                        p + 1 <= q,
                ;
            }
            if q < p {
                assert(q * w + w <= p * w) by (nonlinear_arith)
                    requires
                        q + 1 <= p,
                ;
            }
        }
        if a[i] < b[i] {
            return true;
        }
        if a[i] > b[i] {
            return false;
        }
        i += 1;
    }
    assert(a@.skip(i as int) =~= Seq::<u8>::empty());
    assert(b@.skip(i as int) =~= Seq::<u8>::empty());
    true
}

/// The same digits come in both orders, one the reverse of the other: with the least significant
/// byte first, or last.
pub proof fn byte_orders_are_each_others_reverse(v: nat, n: nat)
    ensures
        be_bytes(v, n) == le_bytes(v, n).reverse(),
        n > 0 ==> le_bytes(v, n)[0] == (v % 256) as u8,
    decreases n,
{
    lemma_le_bytes_len(v, n);
    lemma_be_bytes_len(v, n);
    if n > 0 {
        byte_orders_are_each_others_reverse(v / 256, (n - 1) as nat);
        lemma_le_bytes_len(v / 256, (n - 1) as nat);
        assert(be_bytes(v, n) =~= le_bytes(v, n).reverse());
    } else {
        assert(be_bytes(v, n) =~= le_bytes(v, n).reverse());
    }
}

} // verus!
