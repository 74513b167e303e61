//! Proof-of-work rules: checking a header's work, retargeting the difficulty, the emission
//! schedule, and accumulated work for choosing between chains.
//!
//! Difficulty arithmetic is exact: `num_bigint` computes on numbers given as big-endian bytes, so
//! every node reaches the same result.

use vstd::arithmetic::div_mod::{
    lemma_div_denominator, lemma_div_is_ordered, lemma_div_is_ordered_by_denominator,
    lemma_div_multiples_vanish, lemma_fundamental_div_mod,
};
use vstd::arithmetic::power2::{lemma_pow2_adds, lemma_pow2_pos, pow2};
use vstd::bits::lemma_u128_shr_is_div;
use vstd::prelude::*;

use crate::bytes::{
    array_of, be_bytes, be_value, lemma_array_of, lemma_be_bytes_len, lemma_be_round_trip,
    lemma_be_value_bytes, part, pow256, to_vec, u64_to_be,
};
use crate::codec::{header_hash, meets_target, pow_hash};
use crate::crypto::digest;
use crate::encoding::Canonical;
use crate::types::BlockHeader;

verus! {

/// Why a header is refused.
#[derive(Debug, Clone, Copy, PartialEq, Eq)]
pub enum ConsensusError {
    /// The header's hash does not meet the target that the header declares.
    InsufficientWork,
}

/// The highest target, that is the lowest difficulty, the network allows.
pub const MAX_TARGET: [u8; 32] = [
    0x00, 0xff, 0xff, 0xff, 0xff, 0xff, 0xff, 0xff, 0xff, 0xff, 0xff, 0xff, 0xff, 0xff, 0xff, 0xff,
    0xff, 0xff, 0xff, 0xff, 0xff, 0xff, 0xff, 0xff, 0xff, 0xff, 0xff, 0xff, 0xff, 0xff, 0xff, 0xff,
];

/// How far one retarget can move the difficulty, up or down.
pub const MAX_ADJUSTMENT_FACTOR: u64 = 4;

/// The sum of two `num_bigint::BigUint`, from and to big-endian bytes. Claimed: exact addition.
#[verifier::external_body]
fn big_sum(a: &[u8], b: &[u8]) -> (r: Vec<u8>)
    ensures
        be_value(r@) == be_value(a@) + be_value(b@),
{
    let x = num_bigint::BigUint::from_bytes_be(a);
    let y = num_bigint::BigUint::from_bytes_be(b);
    (x + y).to_bytes_be()
}

/// The product of two `num_bigint::BigUint`, from and to big-endian bytes. Claimed: exact
/// multiplication.
#[verifier::external_body]
fn big_product(a: &[u8], b: &[u8]) -> (r: Vec<u8>)
    ensures
        be_value(r@) == be_value(a@) * be_value(b@),
{
    let x = num_bigint::BigUint::from_bytes_be(a);
    let y = num_bigint::BigUint::from_bytes_be(b);
    (x * y).to_bytes_be()
}

/// The quotient of two `num_bigint::BigUint`, from and to big-endian bytes. Claimed: division
/// rounding down. Dividing by zero would panic.
#[verifier::external_body]
fn big_quotient(a: &[u8], b: &[u8]) -> (r: Vec<u8>)
    requires
        be_value(b@) != 0,
    ensures
        be_value(r@) == be_value(a@) / be_value(b@),
{
    let x = num_bigint::BigUint::from_bytes_be(a);
    let y = num_bigint::BigUint::from_bytes_be(b);
    (x / y).to_bytes_be()
}

/// One shifted left as a `num_bigint::BigUint`, to big-endian bytes. Claimed: the power of two.
#[verifier::external_body]
fn big_power_of_two(bits: u32) -> (r: Vec<u8>)
    ensures
        be_value(r@) == pow2(bits as nat),
{
    (num_bigint::BigUint::from(1u8) << bits).to_bytes_be()
}

/// The order of two `num_bigint::BigUint`, from big-endian bytes. Claimed: numeric order.
#[verifier::external_body]
fn big_less(a: &[u8], b: &[u8]) -> (r: bool)
    ensures
        r == (be_value(a@) < be_value(b@)),
{
    num_bigint::BigUint::from_bytes_be(a) < num_bigint::BigUint::from_bytes_be(b)
}

/// A target or hash as the integer it stands for.
pub open spec fn target_value(target: [u8; 32]) -> nat {
    be_value(target@)
}

/// The target that stands for an integer.
pub open spec fn target_from(value: nat) -> [u8; 32] {
    array_of(be_bytes(value, 32))
}

/// A target is determined by the integer it stands for.
pub proof fn lemma_target_from(target: [u8; 32])
    ensures
        target_from(target_value(target)) == target,
{
    lemma_be_value_bytes(target@);
    lemma_array_of(target);
}

/// Every integer below 2^256 has a target that stands for it.
pub proof fn lemma_value_of_target(value: nat)
    requires
        value < pow256(32),
    ensures
        target_value(target_from(value)) == value,
{
    let digits = be_bytes(value, 32);
    lemma_be_bytes_len(value, 32);
    lemma_be_round_trip(value, 32);
    let witness: [u8; 32] = [
        digits[0], digits[1], digits[2], digits[3], digits[4], digits[5], digits[6], digits[7],
        digits[8], digits[9], digits[10], digits[11], digits[12], digits[13], digits[14], digits[15],
        digits[16], digits[17], digits[18], digits[19], digits[20], digits[21], digits[22], digits[23],
        digits[24], digits[25], digits[26], digits[27], digits[28], digits[29], digits[30], digits[31],
    ];
    assert(witness@ =~= digits);
    lemma_array_of(witness);
}

/// A header's hash meets the header's own target.
pub open spec fn has_work(header: BlockHeader) -> bool {
    be_value(header_hash(header)@) <= target_value(header.target)
}

/// Checks that a header's hash meets the target that the header itself declares. Whether that
/// target is the right one for the height is another question.
pub fn verify_pow(header: &BlockHeader) -> (r: Result<(), ConsensusError>)
    ensures
        r == if has_work(*header) {
            Ok::<(), ConsensusError>(())
        } else {
            Err(ConsensusError::InsufficientWork)
        },
{
    let hash = pow_hash(header);
    if meets_target(&hash, &header.target) {
        Ok(())
    } else {
        Err(ConsensusError::InsufficientWork)
    }
}

/// The subsidy of the block at `height`: step `k` of the schedule rules the `k`-th period, and
/// past the last step it halves, rounding down, with every further period.
pub open spec fn subsidy(height: nat, schedule: Seq<u128>, period_blocks: nat) -> nat {
    let period = height / period_blocks;
    let last = (schedule.len() - 1) as nat;
    if period <= last {
        schedule[period as int] as nat
    } else {
        schedule[last as int] as nat / pow2((period - last) as nat)
    }
}

/// The subsidy of the block at `height`.
pub fn subsidy_for_height(height: u64, subsidy_schedule: &[u128], period_blocks: u64) -> (r: u128)
    requires
        subsidy_schedule@.len() > 0,
        period_blocks > 0,
    ensures
        r as nat == subsidy(height as nat, subsidy_schedule@, period_blocks as nat),
{
    let period: u64 = height / period_blocks;
    let last_index: u64 = (subsidy_schedule.len() - 1) as u64;
    if period <= last_index {
        subsidy_schedule[period as usize]
    } else {
        let halvings: u64 = period - last_index;
        let last: u128 = subsidy_schedule[last_index as usize];
        proof {
            lemma_pow2_pos(halvings as nat);
        }
        if halvings >= 128 {
            proof {
                lemma_past_128_halvings(last, halvings as nat);
            }
            0
        } else {
            proof {
                lemma_u128_shr_is_div(last, halvings as u128);
                assert(last >> (halvings as u128) == last >> halvings);
            }
            last >> halvings
        }
    }
}

/// Nothing is left of a 128-bit amount after 128 halvings.
proof fn lemma_past_128_halvings(amount: u128, halvings: nat)
    requires
        halvings >= 128,
    ensures
        amount as nat / pow2(halvings) == 0,
{
    let extra = (halvings - 128) as nat;
    vstd::arithmetic::power2::lemma2_to64();
    vstd::arithmetic::power2::lemma2_to64_rest();
    lemma_pow2_adds(64, 64);
    lemma_pow2_adds(128, extra);
    lemma_pow2_pos(extra);
    assert(pow2(128) == 0x1_0000_0000_0000_0000_0000_0000_0000_0000);
    assert(pow2(128) * pow2(extra) >= pow2(128)) by (nonlinear_arith)
        requires
            pow2(extra) >= 1,
            pow2(128) >= 0,
    ;
    vstd::arithmetic::div_mod::lemma_basic_div(amount as int, pow2(halvings) as int);
}

pub open spec fn nat_min(a: nat, b: nat) -> nat {
    if a <= b {
        a
    } else {
        b
    }
}

/// A number brought between two others.
pub open spec fn clamped(value: nat, low: nat, high: nat) -> nat {
    if value < low {
        low
    } else if value > high {
        high
    } else {
        value
    }
}

/// The new target: the old one scaled by observed over expected timespan, rounding down, but no
/// less than a fourth of the old one and no more than its fourfold, and never above the ceiling.
pub open spec fn retargeted(prev: nat, actual: nat, expected: nat) -> nat {
    nat_min(
        clamped(
            prev * actual / expected,
            prev / MAX_ADJUSTMENT_FACTOR as nat,
            prev * MAX_ADJUSTMENT_FACTOR as nat,
        ),
        target_value(MAX_TARGET),
    )
}

/// Adjusts the target at the end of a period that took `actual_timespan_secs` where it should
/// have taken `expected_timespan_secs`.
pub fn retarget(
    prev_target: &[u8; 32],
    actual_timespan_secs: u64,
    expected_timespan_secs: u64,
) -> (r: [u8; 32])
    requires
        expected_timespan_secs > 0,
    ensures
        target_value(r) == retargeted(
            target_value(*prev_target),
            actual_timespan_secs as nat,
            expected_timespan_secs as nat,
        ),
{
    let actual_digits = u64_to_be(actual_timespan_secs);
    let expected_digits = u64_to_be(expected_timespan_secs);
    let factor_digits = u64_to_be(MAX_ADJUSTMENT_FACTOR);
    proof {
        crate::bytes::lemma_pow256();
        crate::bytes::lemma_be_round_trip(actual_timespan_secs as nat, 8);
        crate::bytes::lemma_be_round_trip(expected_timespan_secs as nat, 8);
        crate::bytes::lemma_be_round_trip(MAX_ADJUSTMENT_FACTOR as nat, 8);
    }
    let product = big_product(prev_target.as_slice(), actual_digits.as_slice());
    let scaled = big_quotient(product.as_slice(), expected_digits.as_slice());
    let low = big_quotient(prev_target.as_slice(), factor_digits.as_slice());
    let high = big_product(prev_target.as_slice(), factor_digits.as_slice());
    let adjusted = if big_less(scaled.as_slice(), low.as_slice()) {
        low
    } else if big_less(high.as_slice(), scaled.as_slice()) {
        high
    } else {
        scaled
    };
    let ceiling = MAX_TARGET;
    let next = if big_less(ceiling.as_slice(), adjusted.as_slice()) {
        to_vec(ceiling.as_slice())
    } else {
        adjusted
    };
    proof {
        lemma_be_value_bytes(ceiling@);
    }
    biguint_to_target(next.as_slice())
}

/// A number's value, split into the digits before and after a place.
proof fn lemma_be_value_split(s: Seq<u8>, k: int)
    requires
        0 <= k <= s.len(),
    ensures
        be_value(s) == be_value(s.take(k)) * pow256((s.len() - k) as nat) + be_value(s.skip(k)),
    decreases s.len() - k,
{
    if k == s.len() {
        assert(s.take(k) =~= s);
        assert(s.skip(k) =~= Seq::<u8>::empty());
        assert(be_value(s) * 1 == be_value(s));
    } else {
        let front = s.drop_last();
        lemma_be_value_split(front, k);
        assert(front.take(k) =~= s.take(k));
        assert(front.skip(k) =~= s.skip(k).drop_last());
        let h = be_value(s.take(k));
        let w = pow256((front.len() - k) as nat);
        assert(256 * (h * w) == h * (256 * w)) by (nonlinear_arith);
    }
}

/// Puts a number into 32 bytes, zeros first. A number too large keeps its low 32 bytes.
fn biguint_to_target(value: &[u8]) -> (r: [u8; 32])
    ensures
        be_value(value@) < pow256(32) ==> target_value(r) == be_value(value@),
{
    let mut target: [u8; 32] = [0u8; 32];
    let take: usize = if value.len() < 32 {
        value.len()
    } else {
        32
    };
    let from: usize = value.len() - take;
    let start: usize = 32 - take;
    let low = part(value, from, value.len());
    let mut i: usize = 0;
    while i < take
        invariant
            i <= take <= 32,
            start == 32 - take,
            low@.len() == take,
            forall|j: int| 0 <= j < start ==> target@[j] == 0,
            forall|j: int| start <= j < start + i ==> target@[j] == low@[j - start],
        decreases take - i,
    {
        target[start + i] = low[i];
        i += 1;
    }
    proof {
        assert(target@.skip(start as int) =~= low@);
        assert(low@ =~= value@.skip(from as int));
        lemma_be_value_split(target@, start as int);
        lemma_be_value_zeros(target@.take(start as int));
        lemma_be_value_split(value@, from as int);
        if be_value(value@) < pow256(32) && from > 0 {
            let h = be_value(value@.take(from as int));
            assert(h == 0) by {
                if h >= 1 {
                    assert(h * pow256(32) >= pow256(32)) by (nonlinear_arith)
                        requires
                            h >= 1,
                    ;
                }
            }
        }
        if from == 0 {
            assert(value@.take(0) =~= Seq::<u8>::empty());
        }
    }
    target
}

proof fn lemma_be_value_zeros(s: Seq<u8>)
    requires
        forall|i: int| 0 <= i < s.len() ==> s[i] == 0,
    ensures
        be_value(s) == 0,
    decreases s.len(),
{
    if s.len() > 0 {
        lemma_be_value_zeros(s.drop_last());
    }
}

/// An amount of work: a number too large for the machine's integers, held as big-endian bytes.
#[derive(Debug)]
pub struct Work {
    digits: Vec<u8>,
}

impl View for Work {
    type V = nat;

    closed spec fn view(&self) -> nat {
        be_value(self.digits@)
    }
}

impl PartialEq for Work {
    fn eq(&self, other: &Self) -> (r: bool) {
        !self.less_than(other) && !other.less_than(self)
    }
}

impl vstd::std_specs::cmp::PartialEqSpecImpl for Work {
    open spec fn obeys_eq_spec() -> bool {
        true
    }

    open spec fn eq_spec(&self, other: &Self) -> bool {
        self@ == other@
    }
}

impl PartialOrd for Work {
    fn partial_cmp(&self, other: &Self) -> (r: Option<std::cmp::Ordering>) {
        if self.less_than(other) {
            Some(std::cmp::Ordering::Less)
        } else if other.less_than(self) {
            Some(std::cmp::Ordering::Greater)
        } else {
            Some(std::cmp::Ordering::Equal)
        }
    }
}

impl vstd::std_specs::cmp::PartialOrdSpecImpl for Work {
    open spec fn obeys_partial_cmp_spec() -> bool {
        true
    }

    open spec fn partial_cmp_spec(&self, other: &Self) -> Option<std::cmp::Ordering> {
        if self@ < other@ {
            Some(std::cmp::Ordering::Less)
        } else if self@ > other@ {
            Some(std::cmp::Ordering::Greater)
        } else {
            Some(std::cmp::Ordering::Equal)
        }
    }
}

impl Work {
    /// No work.
    pub fn zero() -> (r: Work)
        ensures
            r@ == 0,
    {
        Work { digits: Vec::new() }
    }

    /// The sum of two amounts.
    pub fn plus(&self, other: &Work) -> (r: Work)
        ensures
            r@ == self@ + other@,
    {
        Work { digits: big_sum(self.digits.as_slice(), other.digits.as_slice()) }
    }

    /// Whether this is less than `other`.
    pub fn less_than(&self, other: &Work) -> (r: bool)
        ensures
            r == (self@ < other@),
    {
        big_less(self.digits.as_slice(), other.digits.as_slice())
    }
}

/// The work that meeting a target stands for: `2^256 / (target + 1)`.
pub open spec fn work_of(target: nat) -> nat {
    pow2(256) / (target + 1)
}

/// The work that meeting a target stands for. The lower the target, the more work.
pub fn block_work(target: &[u8; 32]) -> (r: Work)
    ensures
        r@ == work_of(target_value(*target)),
        r@ * (be_value(target@) + 1) <= pow2(256) < (r@ + 1) * (be_value(target@) + 1),
{
    let one: [u8; 8] = u64_to_be(1);
    proof {
        work_is_how_often_the_targets_fit(be_value(target@));
        crate::bytes::lemma_pow256();
        crate::bytes::lemma_be_round_trip(1, 8);
    }
    let numerator = big_power_of_two(256);
    let denominator = big_sum(target.as_slice(), one.as_slice());
    Work { digits: big_quotient(numerator.as_slice(), denominator.as_slice()) }
}

/// The work of a sequence of targets.
pub open spec fn total_work(targets: Seq<[u8; 32]>) -> nat
    decreases targets.len(),
{
    if targets.len() == 0 {
        0
    } else {
        total_work(targets.drop_last()) + work_of(target_value(targets.last()))
    }
}

/// The accumulated work of a sequence of targets. The chain with the most work wins, not the
/// longest one.
pub fn cumulative_work(targets: &[[u8; 32]]) -> (r: Work)
    ensures
        r@ == total_work(targets@),
{
    let mut total = Work::zero();
    let mut i: usize = 0;
    assert(targets@.take(0) =~= Seq::<[u8; 32]>::empty());
    while i < targets.len()
        invariant
            i <= targets@.len(),
            total@ == total_work(targets@.take(i as int)),
        decreases targets.len() - i,
    {
        let work = block_work(&targets[i]);
        total = total.plus(&work);
        assert(targets@.take(i + 1).drop_last() =~= targets@.take(i as int));
        i += 1;
    }
    assert(targets@.take(targets@.len() as int) =~= targets@);
    total
}

/// A retarget never goes above the network's ceiling nor above four times the old target, and
/// never below a fourth of the old target, unless the ceiling is lower.
pub proof fn retarget_is_bounded(prev: nat, actual: nat, expected: nat)
    requires
        expected > 0,
    ensures
        retargeted(prev, actual, expected) <= target_value(MAX_TARGET),
        retargeted(prev, actual, expected) <= prev * 4,
        retargeted(prev, actual, expected) >= nat_min(prev / 4, target_value(MAX_TARGET)),
{
}

/// Blocks that came exactly as expected leave the target as it was.
pub proof fn retarget_keeps_a_target_on_time(prev: nat, expected: nat)
    requires
        expected > 0,
        prev <= target_value(MAX_TARGET),
    ensures
        retargeted(prev, expected, expected) == prev,
{
    lemma_div_multiples_vanish(prev as int, expected as int);
    assert(expected * prev == prev * expected) by (nonlinear_arith);
}

/// Slower blocks never make the next target lower: the longer the observed timespan, the easier
/// the target.
pub proof fn retarget_is_monotone(prev: nat, actual1: nat, actual2: nat, expected: nat)
    requires
        expected > 0,
        actual1 <= actual2,
    ensures
        retargeted(prev, actual1, expected) <= retargeted(prev, actual2, expected),
{
    assert(prev * actual1 <= prev * actual2) by (nonlinear_arith)
        requires
            actual1 <= actual2,
    ;
    lemma_div_is_ordered((prev * actual1) as int, (prev * actual2) as int, expected as int);
}

/// What was scaled is the old target times the time taken, divided by the time it should have
/// taken, rounding down: a new target that stands above its lower bound is not too high for that,
/// and one that stands below both of its upper bounds is not too low.
pub proof fn retarget_is_proportional(prev: nat, actual: nat, expected: nat)
    requires
        expected > 0,
    ensures
        retargeted(prev, actual, expected) > prev / 4 ==> retargeted(prev, actual, expected)
            * expected <= prev * actual,
        retargeted(prev, actual, expected) < prev * 4 && retargeted(prev, actual, expected)
            < target_value(MAX_TARGET) ==> prev * actual < (retargeted(prev, actual, expected) + 1)
            * expected,
{
    let t = retargeted(prev, actual, expected);
    let q = prev * actual / expected;
    lemma_fundamental_div_mod((prev * actual) as int, expected as int);
    let rest = (prev * actual) % expected;
    assert(prev * actual == expected * q + rest);
    if t > prev / 4 {
        assert(t <= q);
        assert(t * expected <= q * expected) by (nonlinear_arith)
            requires
                t <= q,
        ;
        assert(q * expected == expected * q) by (nonlinear_arith);
    }
    if t < prev * 4 && t < target_value(MAX_TARGET) {
        assert(t >= q);
        assert((t + 1) * expected >= (q + 1) * expected) by (nonlinear_arith)
            requires
                t >= q,
        ;
        assert((q + 1) * expected == expected * q + expected) by (nonlinear_arith);
    }
}

/// The work of a target is how often one more than the target fits into all 2^256 hashes.
pub proof fn work_is_how_often_the_targets_fit(target: nat)
    ensures
        work_of(target) * (target + 1) <= pow2(256) < (work_of(target) + 1) * (target + 1),
{
    let d = target + 1;
    let q = pow2(256) / d;
    lemma_fundamental_div_mod(pow2(256) as int, d as int);
    assert(pow2(256) == d * q + pow2(256) % d);
    assert(q * d == d * q) by (nonlinear_arith);
    assert((q + 1) * d == d * q + d) by (nonlinear_arith);
}

/// Halving a target doubles its work, at every difficulty.
pub proof fn halving_a_target_doubles_its_work(k: nat)
    requires
        k < 256,
    ensures
        work_of((pow2(k) - 1) as nat) == 2 * work_of((pow2(k + 1) - 1) as nat),
        work_of((pow2(k) - 1) as nat) == pow2((256 - k) as nat),
{
    lemma_pow2_pos(k);
    lemma_pow2_pos(k + 1);
    lemma_work_of_power(k);
    lemma_work_of_power(k + 1);
    vstd::arithmetic::power2::lemma2_to64();
    lemma_pow2_adds(1, (255 - k) as nat);
}

proof fn lemma_work_of_power(k: nat)
    requires
        k <= 256,
    ensures
        work_of((pow2(k) - 1) as nat) == pow2((256 - k) as nat),
{
    lemma_pow2_pos(k);
    lemma_pow2_adds(k, (256 - k) as nat);
    let a = pow2(k) as int;
    let b = pow2((256 - k) as nat) as int;
    lemma_div_multiples_vanish(b, a);
    assert(a * b == b * a) by (nonlinear_arith);
}

/// A single block weighs what its target does, and no blocks weigh nothing.
pub proof fn work_of_one_block(target: [u8; 32])
    ensures
        total_work(Seq::empty()) == 0,
        total_work(seq![target]) == work_of(be_value(target@)),
{
    assert(seq![target].drop_last() =~= Seq::<[u8; 32]>::empty());
    assert(total_work(Seq::<[u8; 32]>::empty()) == 0);
}

/// Each step of a schedule is the subsidy of exactly the blocks of its period.
pub proof fn each_step_rules_its_period(
    height: nat,
    schedule: Seq<u128>,
    period_blocks: nat,
    k: nat,
)
    requires
        period_blocks > 0,
        k < schedule.len(),
        k * period_blocks <= height < (k + 1) * period_blocks,
    ensures
        subsidy(height, schedule, period_blocks) == schedule[k as int],
{
    assert(height / period_blocks == k) by (nonlinear_arith)
        requires
            period_blocks > 0,
            k * period_blocks <= height < (k + 1) * period_blocks,
    ;
}

/// A header has its work exactly where its hash, as a number, is at most its target.
pub proof fn work_is_a_low_hash(header: BlockHeader)
    ensures
        has_work(header) <==> be_value(digest(<BlockHeader as Canonical>::bytes(header))@)
            <= be_value(header.target@),
{
}

/// A lower target stands for at least as much work.
pub proof fn lower_target_is_more_work(t1: nat, t2: nat)
    requires
        t1 <= t2,
    ensures
        work_of(t1) >= work_of(t2),
{
    lemma_div_is_ordered_by_denominator(pow2(256) as int, (t1 + 1) as int, (t2 + 1) as int);
}

/// The work of two stretches of chain put together is the sum of their works.
pub proof fn work_adds_up(a: Seq<[u8; 32]>, b: Seq<[u8; 32]>)
    ensures
        total_work(a + b) == total_work(a) + total_work(b),
    decreases b.len(),
{
    if b.len() == 0 {
        assert(a + b =~= a);
    } else {
        work_adds_up(a, b.drop_last());
        assert((a + b).drop_last() =~= a + b.drop_last());
        assert((a + b).last() == b.last());
    }
}

/// With one step the schedule is plain halving: the subsidy is that step divided by two once per
/// full period.
pub proof fn single_step_schedule_is_plain_halving(height: nat, initial: u128, period_blocks: nat)
    requires
        period_blocks > 0,
    ensures
        subsidy(height, seq![initial], period_blocks) == initial as nat / pow2(
            height / period_blocks,
        ),
{
    vstd::arithmetic::power2::lemma2_to64();
    assert(initial as nat / 1 == initial as nat);
}

/// Past the last step, each further period halves the subsidy, rounding down.
pub proof fn subsidy_halves_past_the_last_step(
    height: nat,
    schedule: Seq<u128>,
    period_blocks: nat,
)
    requires
        schedule.len() > 0,
        period_blocks > 0,
        height / period_blocks >= schedule.len() - 1,
    ensures
        subsidy(height + period_blocks, schedule, period_blocks) == subsidy(
            height,
            schedule,
            period_blocks,
        ) / 2,
{
    let p = height / period_blocks;
    let last = (schedule.len() - 1) as nat;
    assert((height + period_blocks) / period_blocks == p + 1) by {
        lemma_fundamental_div_mod(height as int, period_blocks as int);
        vstd::arithmetic::div_mod::lemma_div_plus_one(height as int, period_blocks as int);
    }
    let n = (p - last) as nat;
    let amount = schedule[last as int] as nat;
    lemma_pow2_pos(n);
    vstd::arithmetic::power2::lemma2_to64();
    lemma_pow2_adds(n, 1);
    lemma_div_denominator(amount as int, pow2(n) as int, 2);
    assert(amount / 1 == amount);
}

/// The emission ends: from 128 periods past the last step on, the subsidy is zero.
pub proof fn emission_ends(height: nat, schedule: Seq<u128>, period_blocks: nat)
    requires
        schedule.len() > 0,
        period_blocks > 0,
        height / period_blocks >= schedule.len() - 1 + 128,
    ensures
        subsidy(height, schedule, period_blocks) == 0,
{
    let last = (schedule.len() - 1) as nat;
    lemma_past_128_halvings(schedule[last as int], (height / period_blocks - last) as nat);
}

/// Bytes that are all 255 stand for the largest number that fits into them.
proof fn lemma_all_ones(s: Seq<u8>)
    requires
        forall|i: int| 0 <= i < s.len() ==> #[trigger] s[i] == 255,
    ensures
        be_value(s) + 1 == pow256(s.len()),
    decreases s.len(),
{
    if s.len() > 0 {
        let front = s.drop_last();
        assert forall|i: int| 0 <= i < front.len() implies #[trigger] front[i] == 255 by {
            assert(front[i] == s[i]);
        }
        assert(s[s.len() - 1] == 255);
        lemma_all_ones(front);
    }
}

/// The network's ceiling is the largest target that starts with a zero byte.
pub proof fn ceiling_starts_with_a_zero_byte()
    ensures
        be_value(MAX_TARGET@) + 1 == pow256(31),
{
    let s = MAX_TARGET@;
    crate::bytes::lemma_be_value_head(s);
    assert(s[0] == 0);
    let weight = pow256(31);
    assert(s[0] as nat * weight == 0) by (nonlinear_arith)
        requires
            s[0] == 0,
    ;
    let rest = s.skip(1);
    assert forall|i: int| 0 <= i < rest.len() implies #[trigger] rest[i] == 255 by {
        assert(rest[i] == s[i + 1]);
    }
    lemma_all_ones(rest);
}

} // verus!
