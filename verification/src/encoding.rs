//! The canonical encoding of the ledger's types.
//!
//! A value always encodes to the same bytes on every node; these bytes are what is hashed and
//! signed. Integers and strings go through `borsh`; how they are put together (fields in order,
//! sequences after a four-byte count) is written and proved here, together with the fact that no
//! encoding is a prefix of another.

use vstd::prelude::*;
use vstd::utf8::encode_utf8;

use crate::bytes::{
    le_bytes, le_value, lemma_array_ext, lemma_le_bytes_len, lemma_le_round_trip,
    lemma_le_value_bytes, lemma_pow256, part, to_array,
};
use crate::crypto::Address;
use crate::text::lemma_utf8_injective;
use crate::types::{
    transaction_views, Block, BlockHeader, BlockView, OutPoint, Transaction, TransactionView, TxIn,
    TxOut,
};

verus! {

/// `borsh::to_vec` of a `u32`. Claimed: four bytes, least significant first.
#[verifier::external_body]
fn borsh_u32(v: u32) -> (r: Vec<u8>)
    ensures
        r@ == le_bytes(v as nat, 4),
{
    borsh::to_vec(&v).expect("writing to memory does not fail")
}

/// `borsh::to_vec` of a `u64`. Claimed: eight bytes, least significant first.
#[verifier::external_body]
fn borsh_u64(v: u64) -> (r: Vec<u8>)
    ensures
        r@ == le_bytes(v as nat, 8),
{
    borsh::to_vec(&v).expect("writing to memory does not fail")
}

/// `borsh::to_vec` of a `u128`. Claimed: sixteen bytes, least significant first.
#[verifier::external_body]
fn borsh_u128(v: u128) -> (r: Vec<u8>)
    ensures
        r@ == le_bytes(v as nat, 16),
{
    borsh::to_vec(&v).expect("writing to memory does not fail")
}

/// `borsh::to_vec` of a string whose length fits its prefix. Claimed: the number of its UTF-8
/// bytes in four bytes, then those bytes.
#[verifier::external_body]
fn borsh_text(v: &str) -> (r: Vec<u8>)
    requires
        text_fits(v@),
    ensures
        r@ == text_bytes(v@),
{
    borsh::to_vec(v).expect("writing to memory does not fail")
}

/// `u32::try_from_slice` of `borsh`. Claimed: four bytes are read as a number, least significant
/// first; any other length is refused.
#[verifier::external_body]
fn borsh_read_u32(bytes: &[u8]) -> (r: Option<u32>)
    ensures
        match r {
            Some(v) => bytes@.len() == 4 && v as nat == le_value(bytes@),
            None => bytes@.len() != 4,
        },
{
    borsh::from_slice(bytes).ok()
}

/// `u64::try_from_slice` of `borsh`. Claimed: eight bytes are read as a number, least significant
/// first; any other length is refused.
#[verifier::external_body]
fn borsh_read_u64(bytes: &[u8]) -> (r: Option<u64>)
    ensures
        match r {
            Some(v) => bytes@.len() == 8 && v as nat == le_value(bytes@),
            None => bytes@.len() != 8,
        },
{
    borsh::from_slice(bytes).ok()
}

/// `u128::try_from_slice` of `borsh`. Claimed: sixteen bytes are read as a number, least
/// significant first; any other length is refused.
#[verifier::external_body]
fn borsh_read_u128(bytes: &[u8]) -> (r: Option<u128>)
    ensures
        match r {
            Some(v) => bytes@.len() == 16 && v as nat == le_value(bytes@),
            None => bytes@.len() != 16,
        },
{
    borsh::from_slice(bytes).ok()
}

/// `String::try_from_slice` of `borsh`. Claimed: exactly the encodings of strings are read, each
/// as the string it encodes; a wrong count, missing or left-over bytes and invalid UTF-8 are
/// refused.
#[verifier::external_body]
fn borsh_read_text(bytes: &[u8]) -> (r: Option<String>)
    ensures
        match r {
            Some(s) => text_fits(s@) && bytes@ == text_bytes(s@),
            None => forall|t: Seq<char>| text_fits(t) ==> bytes@ != #[trigger] text_bytes(t),
        },
{
    borsh::from_slice(bytes).ok()
}

/// The number of UTF-8 bytes fits the four-byte count.
pub open spec fn text_fits(t: Seq<char>) -> bool {
    encode_utf8(t).len() <= u32::MAX
}

/// The encoding of a string: its byte count, then its UTF-8 bytes.
pub open spec fn text_bytes(t: Seq<char>) -> Seq<u8> {
    le_bytes(encode_utf8(t).len(), 4) + encode_utf8(t)
}

/// `s` starts with `p`.
pub open spec fn starts_with(s: Seq<u8>, p: Seq<u8>) -> bool {
    p.len() <= s.len() && s.take(p.len() as int) == p
}

/// A type with a canonical encoding.
pub trait Canonical: Sized {
    /// What an encoding says of a value.
    type Model;

    spec fn model(&self) -> Self::Model;

    /// Every count in the value fits the four bytes that hold it.
    spec fn encodable(m: Self::Model) -> bool;

    /// The encoding.
    spec fn bytes(m: Self::Model) -> Seq<u8>;

    /// Encodings can be told apart from the front: no encoding is a prefix of another.
    proof fn lemma_prefix_free(a: Self::Model, b: Self::Model, s: Seq<u8>, t: Seq<u8>)
        requires
            Self::encodable(a),
            Self::encodable(b),
            Self::bytes(a) + s == Self::bytes(b) + t,
        ensures
            a == b,
            s == t,
    ;

    /// Appends the encoding of the value.
    fn write(&self, out: &mut Vec<u8>)
        requires
            Self::encodable(self.model()),
        ensures
            final(out)@ == old(out)@ + Self::bytes(self.model()),
    ;

    /// Reads a value from position `pos` on; the result says where its encoding ends.
    fn read(input: &[u8], pos: usize) -> (r: Option<(Self, usize)>)
        requires
            pos <= input@.len(),
        ensures
            match r {
                Some((v, next)) => {
                    &&& pos <= next <= input@.len()
                    &&& Self::encodable(v.model())
                    &&& input@.subrange(pos as int, next as int) == Self::bytes(v.model())
                },
                None => forall|m: Self::Model|
                    Self::encodable(m) ==> !starts_with(
                        input@.skip(pos as int),
                        #[trigger] Self::bytes(m),
                    ),
            },
    ;
}

/// Equal sums with first parts of one length have equal parts.
proof fn lemma_same_split(a: Seq<u8>, b: Seq<u8>, s: Seq<u8>, t: Seq<u8>)
    requires
        a + s == b + t,
        a.len() == b.len(),
    ensures
        a == b,
        s == t,
{
    assert((a + s).take(a.len() as int) =~= a);
    assert((b + t).take(b.len() as int) =~= b);
    assert((a + s).skip(a.len() as int) =~= s);
    assert((b + t).skip(b.len() as int) =~= t);
}

/// What starts with `p + q` starts with `p`, and goes on with `q`.
proof fn lemma_starts_with_sum(s: Seq<u8>, p: Seq<u8>, q: Seq<u8>)
    requires
        starts_with(s, p + q),
    ensures
        starts_with(s, p),
        starts_with(s.skip(p.len() as int), q),
{
    assert(s.take(p.len() as int) =~= (p + q).take(p.len() as int));
    assert((p + q).take(p.len() as int) =~= p);
    assert(s.skip(p.len() as int).take(q.len() as int) =~= (p + q).skip(p.len() as int));
    assert((p + q).skip(p.len() as int) =~= q);
}

/// A value that was read is the one that any encoding at that place is of.
proof fn lemma_read_is_unique<T: Canonical>(
    input: Seq<u8>,
    pos: int,
    next: int,
    v: T::Model,
    m: T::Model,
)
    requires
        0 <= pos <= next <= input.len(),
        T::encodable(v),
        T::encodable(m),
        input.subrange(pos, next) == T::bytes(v),
        starts_with(input.skip(pos), T::bytes(m)),
    ensures
        v == m,
        next - pos == T::bytes(m).len(),
{
    let rest = input.skip(pos);
    let n = T::bytes(m).len() as int;
    assert(T::bytes(v) + input.skip(next) =~= rest);
    assert(T::bytes(m) + rest.skip(n) =~= rest) by {
        assert(rest.take(n) + rest.skip(n) =~= rest);
    }
    T::lemma_prefix_free(v, m, input.skip(next), rest.skip(n));
}

impl Canonical for u32 {
    type Model = u32;

    open spec fn model(&self) -> u32 {
        *self
    }

    open spec fn encodable(m: u32) -> bool {
        true
    }

    open spec fn bytes(m: u32) -> Seq<u8> {
        le_bytes(m as nat, 4)
    }

    proof fn lemma_prefix_free(a: u32, b: u32, s: Seq<u8>, t: Seq<u8>) {
        lemma_le_bytes_len(a as nat, 4);
        lemma_le_bytes_len(b as nat, 4);
        lemma_same_split(Self::bytes(a), Self::bytes(b), s, t);
        lemma_pow256();
        lemma_le_round_trip(a as nat, 4);
        lemma_le_round_trip(b as nat, 4);
    }

    fn write(&self, out: &mut Vec<u8>) {
        let mut b = borsh_u32(*self);
        out.append(&mut b);
    }

    fn read(input: &[u8], pos: usize) -> (r: Option<(Self, usize)>) {
        proof {
            assert forall|m: u32| Self::bytes(m).len() == 4 by {
                lemma_le_bytes_len(m as nat, 4);
            }
        }
        if input.len() - pos < 4 {
            return None;
        }
        let piece = part(input, pos, pos + 4);
        proof {
            lemma_le_value_bytes(piece@);
        }
        match borsh_read_u32(piece) {
            Some(v) => Some((v, pos + 4)),
            None => None,
        }
    }
}

impl Canonical for u64 {
    type Model = u64;

    open spec fn model(&self) -> u64 {
        *self
    }

    open spec fn encodable(m: u64) -> bool {
        true
    }

    open spec fn bytes(m: u64) -> Seq<u8> {
        le_bytes(m as nat, 8)
    }

    proof fn lemma_prefix_free(a: u64, b: u64, s: Seq<u8>, t: Seq<u8>) {
        lemma_le_bytes_len(a as nat, 8);
        lemma_le_bytes_len(b as nat, 8);
        lemma_same_split(Self::bytes(a), Self::bytes(b), s, t);
        lemma_pow256();
        lemma_le_round_trip(a as nat, 8);
        lemma_le_round_trip(b as nat, 8);
    }

    fn write(&self, out: &mut Vec<u8>) {
        let mut b = borsh_u64(*self);
        out.append(&mut b);
    }

    fn read(input: &[u8], pos: usize) -> (r: Option<(Self, usize)>) {
        proof {
            assert forall|m: u64| Self::bytes(m).len() == 8 by {
                lemma_le_bytes_len(m as nat, 8);
            }
        }
        if input.len() - pos < 8 {
            return None;
        }
        let piece = part(input, pos, pos + 8);
        proof {
            lemma_le_value_bytes(piece@);
        }
        match borsh_read_u64(piece) {
            Some(v) => Some((v, pos + 8)),
            None => None,
        }
    }
}

impl Canonical for u128 {
    type Model = u128;

    open spec fn model(&self) -> u128 {
        *self
    }

    open spec fn encodable(m: u128) -> bool {
        true
    }

    open spec fn bytes(m: u128) -> Seq<u8> {
        le_bytes(m as nat, 16)
    }

    proof fn lemma_prefix_free(a: u128, b: u128, s: Seq<u8>, t: Seq<u8>) {
        lemma_le_bytes_len(a as nat, 16);
        lemma_le_bytes_len(b as nat, 16);
        lemma_same_split(Self::bytes(a), Self::bytes(b), s, t);
        lemma_pow256();
        lemma_le_round_trip(a as nat, 16);
        lemma_le_round_trip(b as nat, 16);
    }

    fn write(&self, out: &mut Vec<u8>) {
        let mut b = borsh_u128(*self);
        out.append(&mut b);
    }

    fn read(input: &[u8], pos: usize) -> (r: Option<(Self, usize)>) {
        proof {
            assert forall|m: u128| Self::bytes(m).len() == 16 by {
                lemma_le_bytes_len(m as nat, 16);
            }
        }
        if input.len() - pos < 16 {
            return None;
        }
        let piece = part(input, pos, pos + 16);
        proof {
            lemma_le_value_bytes(piece@);
        }
        match borsh_read_u128(piece) {
            Some(v) => Some((v, pos + 16)),
            None => None,
        }
    }
}

impl<const N: usize> Canonical for [u8; N] {
    type Model = [u8; N];

    open spec fn model(&self) -> [u8; N] {
        *self
    }

    open spec fn encodable(m: [u8; N]) -> bool {
        true
    }

    open spec fn bytes(m: [u8; N]) -> Seq<u8> {
        m@
    }

    proof fn lemma_prefix_free(a: [u8; N], b: [u8; N], s: Seq<u8>, t: Seq<u8>) {
        lemma_same_split(a@, b@, s, t);
        lemma_array_ext(a, b);
    }

    fn write(&self, out: &mut Vec<u8>) {
        let ghost before = out@;
        out.extend_from_slice(self.as_slice());
        assert(out@ =~= before + self@);
        assert(Self::bytes(self.model()) == self@);
    }

    fn read(input: &[u8], pos: usize) -> (r: Option<(Self, usize)>) {
        if input.len() - pos < N {
            return None;
        }
        let v: [u8; N] = to_array(part(input, pos, pos + N));
        Some((v, pos + N))
    }
}

impl Canonical for String {
    type Model = Seq<char>;

    open spec fn model(&self) -> Seq<char> {
        self@
    }

    open spec fn encodable(m: Seq<char>) -> bool {
        text_fits(m)
    }

    open spec fn bytes(m: Seq<char>) -> Seq<u8> {
        text_bytes(m)
    }

    proof fn lemma_prefix_free(a: Seq<char>, b: Seq<char>, s: Seq<u8>, t: Seq<u8>) {
        let x = encode_utf8(a);
        let y = encode_utf8(b);
        assert(le_bytes(x.len(), 4) + (x + s) =~= text_bytes(a) + s);
        assert(le_bytes(y.len(), 4) + (y + t) =~= text_bytes(b) + t);
        <u32 as Canonical>::lemma_prefix_free(x.len() as u32, y.len() as u32, x + s, y + t);
        lemma_same_split(x, y, s, t);
        lemma_utf8_injective(a, b);
    }

    fn write(&self, out: &mut Vec<u8>) {
        let mut b = borsh_text(self.as_str());
        out.append(&mut b);
    }

    fn read(input: &[u8], pos: usize) -> (r: Option<(Self, usize)>) {
        let ghost rest = input@.skip(pos as int);
        proof {
            assert forall|m: Seq<char>|
                text_fits(m) && starts_with(rest, #[trigger] text_bytes(m)) implies starts_with(
                rest,
                <u32 as Canonical>::bytes(encode_utf8(m).len() as u32),
            ) by {
                lemma_starts_with_sum(rest, le_bytes(encode_utf8(m).len(), 4), encode_utf8(m));
            }
        }
        let (count, start) = match <u32 as Canonical>::read(input, pos) {
            Some(p) => p,
            None => {
                assert forall|m: Seq<char>| text_fits(m) implies !starts_with(
                    rest,
                    #[trigger] text_bytes(m),
                ) by {
                    let n = encode_utf8(m).len() as u32;
                    assert(!starts_with(rest, <u32 as Canonical>::bytes(n)));
                }
                return None;
            },
        };
        proof {
            assert forall|m: Seq<char>|
                text_fits(m) && starts_with(rest, #[trigger] text_bytes(m)) implies encode_utf8(
                m,
            ).len() == count && start == pos + 4 && start + count <= input@.len() by {
                lemma_le_bytes_len(encode_utf8(m).len(), 4);
                lemma_read_is_unique::<u32>(
                    input@,
                    pos as int,
                    start as int,
                    count,
                    encode_utf8(m).len() as u32,
                );
            }
        }
        if input.len() - start < count as usize {
            return None;
        }
        let end: usize = start + count as usize;
        match borsh_read_text(part(input, pos, end)) {
            Some(s) => Some((s, end)),
            None => {
                assert forall|m: Seq<char>| text_fits(m) implies !starts_with(
                    rest,
                    #[trigger] text_bytes(m),
                ) by {
                    if starts_with(rest, text_bytes(m)) {
                        lemma_le_bytes_len(encode_utf8(m).len(), 4);
                        assert(text_bytes(m).len() == end - pos);
                        assert(rest.take(end - pos) =~= input@.subrange(pos as int, end as int));
                    }
                }
                None
            },
        }
    }
}

impl<A: Canonical, B: Canonical> Canonical for (A, B) {
    type Model = (A::Model, B::Model);

    open spec fn model(&self) -> (A::Model, B::Model) {
        (self.0.model(), self.1.model())
    }

    open spec fn encodable(m: (A::Model, B::Model)) -> bool {
        A::encodable(m.0) && B::encodable(m.1)
    }

    open spec fn bytes(m: (A::Model, B::Model)) -> Seq<u8> {
        A::bytes(m.0) + B::bytes(m.1)
    }

    proof fn lemma_prefix_free(
        a: (A::Model, B::Model),
        b: (A::Model, B::Model),
        s: Seq<u8>,
        t: Seq<u8>,
    ) {
        assert(A::bytes(a.0) + (B::bytes(a.1) + s) =~= Self::bytes(a) + s);
        assert(A::bytes(b.0) + (B::bytes(b.1) + t) =~= Self::bytes(b) + t);
        A::lemma_prefix_free(a.0, b.0, B::bytes(a.1) + s, B::bytes(b.1) + t);
        B::lemma_prefix_free(a.1, b.1, s, t);
    }

    fn write(&self, out: &mut Vec<u8>) {
        let ghost before = out@;
        self.0.write(out);
        self.1.write(out);
        assert(out@ =~= before + Self::bytes(self.model()));
    }

    fn read(input: &[u8], pos: usize) -> (r: Option<(Self, usize)>) {
        let ghost rest = input@.skip(pos as int);
        let (first, mid) = match A::read(input, pos) {
            Some(p) => p,
            None => {
                assert forall|m: (A::Model, B::Model)| Self::encodable(m) implies !starts_with(
                    rest,
                    #[trigger] Self::bytes(m),
                ) by {
                    if starts_with(rest, Self::bytes(m)) {
                        lemma_starts_with_sum(rest, A::bytes(m.0), B::bytes(m.1));
                    }
                }
                return None;
            },
        };
        match B::read(input, mid) {
            Some((second, next)) => {
                assert(input@.subrange(pos as int, next as int) =~= input@.subrange(
                    pos as int,
                    mid as int,
                ) + input@.subrange(mid as int, next as int));
                Some(((first, second), next))
            },
            None => {
                assert forall|m: (A::Model, B::Model)| Self::encodable(m) implies !starts_with(
                    rest,
                    #[trigger] Self::bytes(m),
                ) by {
                    if starts_with(rest, Self::bytes(m)) {
                        lemma_starts_with_sum(rest, A::bytes(m.0), B::bytes(m.1));
                        lemma_read_is_unique::<A>(
                            input@,
                            pos as int,
                            mid as int,
                            first.model(),
                            m.0,
                        );
                        assert(rest.skip(A::bytes(m.0).len() as int) =~= input@.skip(mid as int));
                    }
                }
                None
            },
        }
    }
}

/// The encodings of a sequence of values, one after the other.
pub open spec fn all_bytes<T: Canonical>(m: Seq<T::Model>) -> Seq<u8>
    decreases m.len(),
{
    if m.len() == 0 {
        Seq::empty()
    } else {
        T::bytes(m[0]) + all_bytes::<T>(m.skip(1))
    }
}

proof fn lemma_all_bytes_prefix_free<T: Canonical>(
    a: Seq<T::Model>,
    b: Seq<T::Model>,
    s: Seq<u8>,
    t: Seq<u8>,
)
    requires
        a.len() == b.len(),
        forall|i: int| 0 <= i < a.len() ==> T::encodable(#[trigger] a[i]),
        forall|i: int| 0 <= i < b.len() ==> T::encodable(#[trigger] b[i]),
        all_bytes::<T>(a) + s == all_bytes::<T>(b) + t,
    ensures
        a == b,
        s == t,
    decreases a.len(),
{
    if a.len() == 0 {
        assert(a =~= b);
        assert(all_bytes::<T>(a) + s =~= s);
        assert(all_bytes::<T>(b) + t =~= t);
    } else {
        let x = all_bytes::<T>(a.skip(1));
        let y = all_bytes::<T>(b.skip(1));
        assert(T::bytes(a[0]) + (x + s) =~= all_bytes::<T>(a) + s);
        assert(T::bytes(b[0]) + (y + t) =~= all_bytes::<T>(b) + t);
        T::lemma_prefix_free(a[0], b[0], x + s, y + t);
        lemma_all_bytes_prefix_free::<T>(a.skip(1), b.skip(1), s, t);
        assert(a =~= seq![a[0]] + a.skip(1));
        assert(b =~= seq![b[0]] + b.skip(1));
    }
}

proof fn lemma_all_bytes_push<T: Canonical>(m: Seq<T::Model>, x: T::Model)
    ensures
        all_bytes::<T>(m.push(x)) == all_bytes::<T>(m) + T::bytes(x),
    decreases m.len(),
{
    if m.len() == 0 {
        assert(m.push(x).skip(1) =~= Seq::<T::Model>::empty());
        assert(m.push(x)[0] == x);
        assert(all_bytes::<T>(m.push(x).skip(1)) =~= Seq::<u8>::empty());
        assert(all_bytes::<T>(m.push(x)) =~= T::bytes(x));
        assert(all_bytes::<T>(m) + T::bytes(x) =~= T::bytes(x));
    } else {
        lemma_all_bytes_push::<T>(m.skip(1), x);
        assert(m.push(x).skip(1) =~= m.skip(1).push(x));
        assert(all_bytes::<T>(m.push(x)) =~= all_bytes::<T>(m) + T::bytes(x));
    }
}

impl<T: Canonical> Canonical for Vec<T> {
    type Model = Seq<T::Model>;

    open spec fn model(&self) -> Seq<T::Model> {
        self@.map_values(|t: T| t.model())
    }

    open spec fn encodable(m: Seq<T::Model>) -> bool {
        m.len() <= u32::MAX && forall|i: int| 0 <= i < m.len() ==> T::encodable(#[trigger] m[i])
    }

    open spec fn bytes(m: Seq<T::Model>) -> Seq<u8> {
        le_bytes(m.len(), 4) + all_bytes::<T>(m)
    }

    proof fn lemma_prefix_free(
        a: Seq<T::Model>,
        b: Seq<T::Model>,
        s: Seq<u8>,
        t: Seq<u8>,
    ) {
        let x = all_bytes::<T>(a);
        let y = all_bytes::<T>(b);
        assert(le_bytes(a.len(), 4) + (x + s) =~= Self::bytes(a) + s);
        assert(le_bytes(b.len(), 4) + (y + t) =~= Self::bytes(b) + t);
        <u32 as Canonical>::lemma_prefix_free(a.len() as u32, b.len() as u32, x + s, y + t);
        lemma_all_bytes_prefix_free::<T>(a, b, s, t);
    }

    fn write(&self, out: &mut Vec<u8>) {
        let ghost before = out@;
        let ghost all = self.model();
        (self.len() as u32).write(out);
        let ghost head = out@;
        let mut i: usize = 0;
        assert(all.take(0) =~= Seq::<T::Model>::empty());
        assert(head + all_bytes::<T>(all.take(0)) =~= head);
        while i < self.len()
            invariant
                i <= self.len(),
                all == self.model(),
                Self::encodable(all),
                out@ == head + all_bytes::<T>(all.take(i as int)),
            decreases self.len() - i,
        {
            let ghost so_far = all_bytes::<T>(all.take(i as int));
            proof {
                assert(all[i as int] == self@[i as int].model());
                lemma_all_bytes_push::<T>(all.take(i as int), all[i as int]);
                assert(all.take(i as int).push(all[i as int]) =~= all.take(i + 1));
            }
            self[i].write(out);
            assert(out@ =~= head + (so_far + T::bytes(all[i as int])));
            i += 1;
        }
        assert(all.take(all.len() as int) =~= all);
        assert(out@ =~= before + Self::bytes(all));
    }

    fn read(input: &[u8], pos: usize) -> (r: Option<(Self, usize)>) {
        let ghost rest = input@.skip(pos as int);
        proof {
            assert forall|m: Seq<T::Model>|
                Self::encodable(m) && starts_with(
                    rest,
                    #[trigger] Self::bytes(m),
                ) implies starts_with(rest, <u32 as Canonical>::bytes(m.len() as u32)) && starts_with(
                rest.skip(4),
                all_bytes::<T>(m),
            ) by {
                lemma_le_bytes_len(m.len(), 4);
                lemma_starts_with_sum(rest, le_bytes(m.len(), 4), all_bytes::<T>(m));
            }
        }
        let (count, start) = match <u32 as Canonical>::read(input, pos) {
            Some(p) => p,
            None => {
                assert forall|m: Seq<T::Model>| Self::encodable(m) implies !starts_with(
                    rest,
                    #[trigger] Self::bytes(m),
                ) by {
                    let n = m.len() as u32;
                    assert(!starts_with(rest, <u32 as Canonical>::bytes(n)));
                }
                return None;
            },
        };
        proof {
            assert(start == pos + 4) by {
                lemma_le_bytes_len(count as nat, 4);
                assert(input@.subrange(pos as int, start as int).len() == start - pos);
            }
            assert forall|m: Seq<T::Model>|
                Self::encodable(m) && starts_with(
                    rest,
                    #[trigger] Self::bytes(m),
                ) implies m.len() == count && starts_with(
                input@.skip(start as int),
                all_bytes::<T>(m.skip(0)),
            ) by {
                lemma_read_is_unique::<u32>(
                    input@,
                    pos as int,
                    start as int,
                    count,
                    m.len() as u32,
                );
                assert(m.skip(0) =~= m);
                assert(rest.skip(4) =~= input@.skip(start as int));
            }
        }
        let mut items: Vec<T> = Vec::new();
        let mut at: usize = start;
        let mut i: u32 = 0;
        assert(items.model() =~= Seq::<T::Model>::empty());
        assert(input@.subrange(start as int, start as int) =~= Seq::<u8>::empty());
        while i < count
            invariant
                i <= count,
                i == items@.len(),
                start <= at <= input@.len(),
                rest == input@.skip(pos as int),
                Self::encodable(items.model()),
                input@.subrange(start as int, at as int) == all_bytes::<T>(items.model()),
                forall|m: Seq<T::Model>|
                    Self::encodable(m) && starts_with(
                        rest,
                        #[trigger] Self::bytes(m),
                    ) ==> m.len() == count && starts_with(
                        input@.skip(at as int),
                        all_bytes::<T>(m.skip(i as int)),
                    ),
            decreases count - i,
        {
            let ghost done = items.model();
            match T::read(input, at) {
                Some((v, next)) => {
                    proof {
                        lemma_all_bytes_push::<T>(done, v.model());
                        assert(input@.subrange(start as int, next as int) =~= input@.subrange(
                            start as int,
                            at as int,
                        ) + input@.subrange(at as int, next as int));
                        assert forall|m: Seq<T::Model>|
                            Self::encodable(m) && starts_with(
                                rest,
                                #[trigger] Self::bytes(m),
                            ) implies m.len() == count && starts_with(
                            input@.skip(next as int),
                            all_bytes::<T>(m.skip(i + 1)),
                        ) by {
                            let tail = m.skip(i as int);
                            assert(tail[0] == m[i as int]);
                            assert(tail.skip(1) =~= m.skip(i + 1));
                            lemma_starts_with_sum(
                                input@.skip(at as int),
                                T::bytes(m[i as int]),
                                all_bytes::<T>(m.skip(i + 1)),
                            );
                            lemma_read_is_unique::<T>(
                                input@,
                                at as int,
                                next as int,
                                v.model(),
                                m[i as int],
                            );
                            assert(input@.skip(at as int).skip(next - at) =~= input@.skip(
                                next as int,
                            ));
                        }
                    }
                    items.push(v);
                    assert(items.model() =~= done.push(v.model()));
                    at = next;
                },
                None => {
                    assert forall|m: Seq<T::Model>| Self::encodable(m) implies !starts_with(
                        rest,
                        #[trigger] Self::bytes(m),
                    ) by {
                        if starts_with(rest, Self::bytes(m)) {
                            let tail = m.skip(i as int);
                            assert(tail[0] == m[i as int]);
                            lemma_starts_with_sum(
                                input@.skip(at as int),
                                T::bytes(m[i as int]),
                                all_bytes::<T>(tail.skip(1)),
                            );
                        }
                    }
                    return None;
                },
            }
            i += 1;
        }
        assert(input@.subrange(pos as int, at as int) =~= input@.subrange(pos as int, start as int)
            + input@.subrange(start as int, at as int));
        Some((items, at))
    }
}

impl Canonical for Address {
    type Model = Address;

    open spec fn model(&self) -> Address {
        *self
    }

    open spec fn encodable(m: Address) -> bool {
        true
    }

    open spec fn bytes(m: Address) -> Seq<u8> {
        m.0@
    }

    proof fn lemma_prefix_free(a: Address, b: Address, s: Seq<u8>, t: Seq<u8>) {
        lemma_same_split(a.0@, b.0@, s, t);
        lemma_array_ext(a.0, b.0);
    }

    fn write(&self, out: &mut Vec<u8>) {
        self.0.write(out);
    }

    fn read(input: &[u8], pos: usize) -> (r: Option<(Self, usize)>) {
        match <[u8; 20] as Canonical>::read(input, pos) {
            Some((v, next)) => Some((Address(v), next)),
            None => {
                assert forall|m: Address| !starts_with(
                    input@.skip(pos as int),
                    #[trigger] Self::bytes(m),
                ) by {
                    assert(!starts_with(
                        input@.skip(pos as int),
                        <[u8; 20] as Canonical>::bytes(m.0),
                    ));
                }
                None
            },
        }
    }
}

/// The fields of [`OutPoint`] in the order in which they are encoded.
pub type OutPointFields = ([u8; 32], u32);

impl Canonical for OutPoint {
    type Model = OutPoint;

    open spec fn model(&self) -> OutPoint {
        *self
    }

    open spec fn encodable(m: OutPoint) -> bool {
        <OutPointFields as Canonical>::encodable((m.txid, m.vout))
    }

    open spec fn bytes(m: OutPoint) -> Seq<u8> {
        <OutPointFields as Canonical>::bytes((m.txid, m.vout))
    }

    proof fn lemma_prefix_free(a: OutPoint, b: OutPoint, s: Seq<u8>, t: Seq<u8>) {
        <OutPointFields as Canonical>::lemma_prefix_free(
            (a.txid, a.vout),
            (b.txid, b.vout),
            s,
            t,
        );
    }

    fn write(&self, out: &mut Vec<u8>) {
        let ghost before = out@;
        self.txid.write(out);
        self.vout.write(out);
        assert(out@ =~= before + Self::bytes(self.model()));
    }

    fn read(input: &[u8], pos: usize) -> (r: Option<(Self, usize)>) {
        match <OutPointFields as Canonical>::read(input, pos) {
            Some(((txid, vout), next)) => {
                let v = OutPoint { txid, vout };
                Some((v, next))
            },
            None => {
                assert forall|m: OutPoint| Self::encodable(m) implies !starts_with(
                    input@.skip(pos as int),
                    #[trigger] Self::bytes(m),
                ) by {
                    let fields = (m.txid, m.vout);
                    assert(!starts_with(
                        input@.skip(pos as int),
                        <OutPointFields as Canonical>::bytes(fields),
                    ));
                }
                None
            },
        }
    }
}

/// The fields of [`TxOut`] in the order in which they are encoded.
pub type TxOutFields = (u128, Address);

impl Canonical for TxOut {
    type Model = TxOut;

    open spec fn model(&self) -> TxOut {
        *self
    }

    open spec fn encodable(m: TxOut) -> bool {
        <TxOutFields as Canonical>::encodable((m.amount, m.pubkey_hash))
    }

    open spec fn bytes(m: TxOut) -> Seq<u8> {
        <TxOutFields as Canonical>::bytes((m.amount, m.pubkey_hash))
    }

    proof fn lemma_prefix_free(a: TxOut, b: TxOut, s: Seq<u8>, t: Seq<u8>) {
        <TxOutFields as Canonical>::lemma_prefix_free(
            (a.amount, a.pubkey_hash),
            (b.amount, b.pubkey_hash),
            s,
            t,
        );
    }

    fn write(&self, out: &mut Vec<u8>) {
        let ghost before = out@;
        self.amount.write(out);
        self.pubkey_hash.write(out);
        assert(out@ =~= before + Self::bytes(self.model()));
    }

    fn read(input: &[u8], pos: usize) -> (r: Option<(Self, usize)>) {
        match <TxOutFields as Canonical>::read(input, pos) {
            Some(((amount, pubkey_hash), next)) => {
                let v = TxOut { amount, pubkey_hash };
                Some((v, next))
            },
            None => {
                assert forall|m: TxOut| Self::encodable(m) implies !starts_with(
                    input@.skip(pos as int),
                    #[trigger] Self::bytes(m),
                ) by {
                    let fields = (m.amount, m.pubkey_hash);
                    assert(!starts_with(
                        input@.skip(pos as int),
                        <TxOutFields as Canonical>::bytes(fields),
                    ));
                }
                None
            },
        }
    }
}

/// The fields of [`TxIn`] in the order in which they are encoded.
pub type TxInFields = (OutPoint, ([u8; 32], [u8; 64]));

impl Canonical for TxIn {
    type Model = TxIn;

    open spec fn model(&self) -> TxIn {
        *self
    }

    open spec fn encodable(m: TxIn) -> bool {
        <TxInFields as Canonical>::encodable((m.prev_out, (m.public_key, m.signature)))
    }

    open spec fn bytes(m: TxIn) -> Seq<u8> {
        <TxInFields as Canonical>::bytes((m.prev_out, (m.public_key, m.signature)))
    }

    proof fn lemma_prefix_free(a: TxIn, b: TxIn, s: Seq<u8>, t: Seq<u8>) {
        <TxInFields as Canonical>::lemma_prefix_free(
            (a.prev_out, (a.public_key, a.signature)),
            (b.prev_out, (b.public_key, b.signature)),
            s,
            t,
        );
    }

    fn write(&self, out: &mut Vec<u8>) {
        let ghost before = out@;
        self.prev_out.write(out);
        self.public_key.write(out);
        self.signature.write(out);
        assert(out@ =~= before + Self::bytes(self.model()));
    }

    fn read(input: &[u8], pos: usize) -> (r: Option<(Self, usize)>) {
        match <TxInFields as Canonical>::read(input, pos) {
            Some(((prev_out, (public_key, signature)), next)) => {
                let v = TxIn { prev_out, public_key, signature };
                Some((v, next))
            },
            None => {
                assert forall|m: TxIn| Self::encodable(m) implies !starts_with(
                    input@.skip(pos as int),
                    #[trigger] Self::bytes(m),
                ) by {
                    let fields = (m.prev_out, (m.public_key, m.signature));
                    assert(!starts_with(
                        input@.skip(pos as int),
                        <TxInFields as Canonical>::bytes(fields),
                    ));
                }
                None
            },
        }
    }
}

/// The fields of [`Transaction`] in the order in which they are encoded.
pub type TransactionFields = (String, (Vec<TxIn>, Vec<TxOut>));

impl Canonical for Transaction {
    type Model = TransactionView;

    open spec fn model(&self) -> TransactionView {
        self@
    }

    open spec fn encodable(m: TransactionView) -> bool {
        <TransactionFields as Canonical>::encodable((m.chain_id, (m.inputs, m.outputs)))
    }

    open spec fn bytes(m: TransactionView) -> Seq<u8> {
        <TransactionFields as Canonical>::bytes((m.chain_id, (m.inputs, m.outputs)))
    }

    proof fn lemma_prefix_free(a: TransactionView, b: TransactionView, s: Seq<u8>, t: Seq<u8>) {
        <TransactionFields as Canonical>::lemma_prefix_free(
            (a.chain_id, (a.inputs, a.outputs)),
            (b.chain_id, (b.inputs, b.outputs)),
            s,
            t,
        );
    }

    fn write(&self, out: &mut Vec<u8>) {
        let ghost before = out@;
        assert(self.inputs.model() =~= self.inputs@);
        assert(self.outputs.model() =~= self.outputs@);
        self.chain_id.write(out);
        self.inputs.write(out);
        self.outputs.write(out);
        assert(out@ =~= before + Self::bytes(self.model()));
    }

    fn read(input: &[u8], pos: usize) -> (r: Option<(Self, usize)>) {
        match <TransactionFields as Canonical>::read(input, pos) {
            Some(((chain_id, (inputs, outputs)), next)) => {
                assert(inputs.model() =~= inputs@);
                assert(outputs.model() =~= outputs@);
                let v = Transaction { chain_id, inputs, outputs };
                Some((v, next))
            },
            None => {
                assert forall|m: TransactionView| Self::encodable(m) implies !starts_with(
                    input@.skip(pos as int),
                    #[trigger] Self::bytes(m),
                ) by {
                    let fields = (m.chain_id, (m.inputs, m.outputs));
                    assert(!starts_with(
                        input@.skip(pos as int),
                        <TransactionFields as Canonical>::bytes(fields),
                    ));
                }
                None
            },
        }
    }
}

/// The fields of [`BlockHeader`] in the order in which they are encoded.
pub type BlockHeaderFields = (u64, ([u8; 32], ([u8; 32], (u64, ([u8; 32], u64)))));

impl Canonical for BlockHeader {
    type Model = BlockHeader;

    open spec fn model(&self) -> BlockHeader {
        *self
    }

    open spec fn encodable(m: BlockHeader) -> bool {
        <BlockHeaderFields as Canonical>::encodable((m.height, (m.parent_hash, (m.tx_root, (m.timestamp, (m.target, m.pow_nonce))))))
    }

    open spec fn bytes(m: BlockHeader) -> Seq<u8> {
        <BlockHeaderFields as Canonical>::bytes((m.height, (m.parent_hash, (m.tx_root, (m.timestamp, (m.target, m.pow_nonce))))))
    }

    proof fn lemma_prefix_free(a: BlockHeader, b: BlockHeader, s: Seq<u8>, t: Seq<u8>) {
        <BlockHeaderFields as Canonical>::lemma_prefix_free(
            (a.height, (a.parent_hash, (a.tx_root, (a.timestamp, (a.target, a.pow_nonce))))),
            (b.height, (b.parent_hash, (b.tx_root, (b.timestamp, (b.target, b.pow_nonce))))),
            s,
            t,
        );
    }

    fn write(&self, out: &mut Vec<u8>) {
        let ghost before = out@;
        self.height.write(out);
        self.parent_hash.write(out);
        self.tx_root.write(out);
        self.timestamp.write(out);
        self.target.write(out);
        self.pow_nonce.write(out);
        assert(out@ =~= before + Self::bytes(self.model()));
    }

    fn read(input: &[u8], pos: usize) -> (r: Option<(Self, usize)>) {
        match <BlockHeaderFields as Canonical>::read(input, pos) {
            Some(((height, (parent_hash, (tx_root, (timestamp, (target, pow_nonce))))), next)) => {
                let v = BlockHeader { height, parent_hash, tx_root, timestamp, target, pow_nonce };
                Some((v, next))
            },
            None => {
                assert forall|m: BlockHeader| Self::encodable(m) implies !starts_with(
                    input@.skip(pos as int),
                    #[trigger] Self::bytes(m),
                ) by {
                    let fields = (m.height, (m.parent_hash, (m.tx_root, (m.timestamp, (m.target, m.pow_nonce)))));
                    assert(!starts_with(
                        input@.skip(pos as int),
                        <BlockHeaderFields as Canonical>::bytes(fields),
                    ));
                }
                None
            },
        }
    }
}

/// The fields of [`Block`] in the order in which they are encoded.
pub type BlockFields = (BlockHeader, Vec<Transaction>);

impl Canonical for Block {
    type Model = BlockView;

    open spec fn model(&self) -> BlockView {
        self@
    }

    open spec fn encodable(m: BlockView) -> bool {
        <BlockFields as Canonical>::encodable((m.header, m.transactions))
    }

    open spec fn bytes(m: BlockView) -> Seq<u8> {
        <BlockFields as Canonical>::bytes((m.header, m.transactions))
    }

    proof fn lemma_prefix_free(a: BlockView, b: BlockView, s: Seq<u8>, t: Seq<u8>) {
        <BlockFields as Canonical>::lemma_prefix_free(
            (a.header, a.transactions),
            (b.header, b.transactions),
            s,
            t,
        );
    }

    fn write(&self, out: &mut Vec<u8>) {
        let ghost before = out@;
        assert(self.transactions.model() =~= transaction_views(self.transactions@));
        self.header.write(out);
        self.transactions.write(out);
        assert(out@ =~= before + Self::bytes(self.model()));
    }

    fn read(input: &[u8], pos: usize) -> (r: Option<(Self, usize)>) {
        match <BlockFields as Canonical>::read(input, pos) {
            Some(((header, transactions), next)) => {
                assert(transactions.model() =~= transaction_views(transactions@));
                let v = Block { header, transactions };
                Some((v, next))
            },
            None => {
                assert forall|m: BlockView| Self::encodable(m) implies !starts_with(
                    input@.skip(pos as int),
                    #[trigger] Self::bytes(m),
                ) by {
                    let fields = (m.header, m.transactions);
                    assert(!starts_with(
                        input@.skip(pos as int),
                        <BlockFields as Canonical>::bytes(fields),
                    ));
                }
                None
            },
        }
    }
}

/// How the parts of a transaction are laid out: an outpoint is the id and the number of the
/// output, an output is the amount and the address, an input is the outpoint, the public key and
/// the signature, and a transaction is the chain's name, its inputs and its outputs. Numbers have
/// their least significant byte first; texts and lists have their length before them, in four
/// bytes.
pub proof fn layout_of_a_transaction(o: OutPoint, output: TxOut, input: TxIn, tx: TransactionView)
    ensures
        <OutPoint as Canonical>::bytes(o) == o.txid@ + le_bytes(o.vout as nat, 4),
        <TxOut as Canonical>::bytes(output) == le_bytes(output.amount as nat, 16)
            + output.pubkey_hash.0@,
        <TxIn as Canonical>::bytes(input) == input.prev_out.txid@ + le_bytes(
            input.prev_out.vout as nat,
            4,
        ) + input.public_key@ + input.signature@,
        <Transaction as Canonical>::bytes(tx) == le_bytes(encode_utf8(tx.chain_id).len(), 4)
            + encode_utf8(tx.chain_id) + le_bytes(tx.inputs.len(), 4) + all_bytes::<TxIn>(
            tx.inputs,
        ) + le_bytes(tx.outputs.len(), 4) + all_bytes::<TxOut>(tx.outputs),
{
    assert(<TxIn as Canonical>::bytes(input) =~= input.prev_out.txid@ + le_bytes(
        input.prev_out.vout as nat,
        4,
    ) + input.public_key@ + input.signature@);
    assert(<Transaction as Canonical>::bytes(tx) =~= le_bytes(encode_utf8(tx.chain_id).len(), 4)
        + encode_utf8(tx.chain_id) + le_bytes(tx.inputs.len(), 4) + all_bytes::<TxIn>(tx.inputs)
        + le_bytes(tx.outputs.len(), 4) + all_bytes::<TxOut>(tx.outputs));
}

/// How a block is laid out: the header, which is the height, the parent's hash, the root of the
/// transactions, the time, the target and the nonce, and then the transactions, with their number
/// before them.
pub proof fn layout_of_a_block(block: BlockView)
    ensures
        ({
            let header = block.header;
            <BlockHeader as Canonical>::bytes(header) == le_bytes(header.height as nat, 8)
                + header.parent_hash@ + header.tx_root@ + le_bytes(header.timestamp as nat, 8)
                + header.target@ + le_bytes(header.pow_nonce as nat, 8)
        }),
        <Block as Canonical>::bytes(block) == <BlockHeader as Canonical>::bytes(block.header)
            + le_bytes(block.transactions.len(), 4) + all_bytes::<Transaction>(block.transactions),
{
    let header = block.header;
    assert(<BlockHeader as Canonical>::bytes(header) =~= le_bytes(header.height as nat, 8)
        + header.parent_hash@ + header.tx_root@ + le_bytes(header.timestamp as nat, 8)
        + header.target@ + le_bytes(header.pow_nonce as nat, 8));
    assert(<Block as Canonical>::bytes(block) =~= <BlockHeader as Canonical>::bytes(block.header)
        + le_bytes(block.transactions.len(), 4) + all_bytes::<Transaction>(block.transactions));
}

/// A list is laid out item by item.
pub proof fn lists_are_laid_out_item_by_item<T: Canonical>(
    a: Seq<T::Model>,
    b: Seq<T::Model>,
    one: T::Model,
)
    ensures
        all_bytes::<T>(Seq::empty()) == Seq::<u8>::empty(),
        all_bytes::<T>(seq![one]) == T::bytes(one),
        all_bytes::<T>(a + b) == all_bytes::<T>(a) + all_bytes::<T>(b),
    decreases a.len(),
{
    let none = Seq::<T::Model>::empty();
    assert(all_bytes::<T>(none) == Seq::<u8>::empty());
    assert(seq![one].skip(1) =~= none);
    assert(all_bytes::<T>(seq![one]) =~= T::bytes(one));
    if a.len() == 0 {
        assert(a + b =~= b);
        assert(all_bytes::<T>(a) + all_bytes::<T>(b) =~= all_bytes::<T>(b));
    } else {
        lists_are_laid_out_item_by_item::<T>(a.skip(1), b, one);
        assert((a + b).skip(1) =~= a.skip(1) + b);
        assert((a + b)[0] == a[0]);
        assert(all_bytes::<T>(a + b) =~= all_bytes::<T>(a) + all_bytes::<T>(b));
    }
}

} // verus!
