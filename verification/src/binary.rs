use vstd::arithmetic::div_mod::lemma_div_denominator;
use vstd::prelude::*;

use crate::solver::{
    clause_in_range, lit_holds, lit_in_range, literal_truth, negated, Solver, MAX_LITERALS,
};

verus! {

pub open spec fn pow2(e: nat) -> nat
    decreases e,
{
    if e == 0 {
        1
    } else {
        2 * pow2((e - 1) as nat)
    }
}

pub open spec fn b2n(b: bool) -> nat {
    if b {
        1
    } else {
        0
    }
}

/// The unsigned value, least-significant bit first, that a literal vector takes
/// under a model.
pub open spec fn decode_val(m: Seq<bool>, bits: Seq<i32>) -> nat
    decreases bits.len(),
{
    if bits.len() == 0 {
        0
    } else {
        decode_val(m, bits.drop_last()) + pow2((bits.len() - 1) as nat) * b2n(
            lit_holds(m, bits.last()),
        )
    }
}

/// How many of the given literals hold under a model.
pub open spec fn count_true(m: Seq<bool>, bits: Seq<i32>) -> nat
    decreases bits.len(),
{
    if bits.len() == 0 {
        0
    } else {
        count_true(m, bits.drop_last()) + b2n(lit_holds(m, bits.last()))
    }
}

/// Bit `i` of an unsigned value, least-significant bit first.
pub open spec fn bit_of(value: nat, i: nat) -> bool {
    (value / pow2(i)) % 2 == 1
}

/// The literal that pins bit `i` of `bits` to bit `i` of `value`.
pub open spec fn enc_lit(bits: Seq<i32>, value: nat, i: int) -> int {
    if bit_of(value, i as nat) {
        bits[i] as int
    } else {
        -(bits[i] as int)
    }
}

/// Every bit literal agrees with the corresponding binary digit of `value`.
pub open spec fn encodes(m: Seq<bool>, bits: Seq<i32>, value: nat) -> bool {
    forall|i: int| 0 <= i < bits.len() ==> lit_holds(m, #[trigger] bits[i]) == bit_of(value, i as nat)
}

/// The literals can be read against a model of the given length.
pub open spec fn bits_readable(bits: Seq<i32>, len: int) -> bool {
    forall|i: int|
        0 <= i < bits.len() ==> #[trigger] bits[i] != 0 && bits[i] != i32::MIN && -len <= bits[i]
            as int <= len
}

pub proof fn lemma_pow2_pos(e: nat)
    ensures
        pow2(e) >= 1,
    decreases e,
{
    if e > 0 {
        lemma_pow2_pos((e - 1) as nat);
    }
}

pub proof fn lemma_pow2_adds(a: nat, b: nat)
    ensures
        pow2(a + b) == pow2(a) * pow2(b),
    decreases b,
{
    if b == 0 {
        assert(pow2(a) * 1 == pow2(a)) by (nonlinear_arith);
    } else {
        lemma_pow2_adds(a, (b - 1) as nat);
        assert(pow2(a + b) == 2 * (pow2(a) * pow2((b - 1) as nat)));
        assert(2 * (pow2(a) * pow2((b - 1) as nat)) == pow2(a) * (2 * pow2((b - 1) as nat)))
            by (nonlinear_arith);
    }
}

pub proof fn lemma_pow2_monotone(a: nat, b: nat)
    requires
        a <= b,
    ensures
        pow2(a) <= pow2(b),
    decreases b,
{
    if a < b {
        lemma_pow2_monotone(a, (b - 1) as nat);
        lemma_pow2_pos((b - 1) as nat);
    }
}

/// A bit-vector's value is bounded by the range its length declares.
pub proof fn lemma_decode_bound(m: Seq<bool>, bits: Seq<i32>)
    ensures
        decode_val(m, bits) < pow2(bits.len()),
    decreases bits.len(),
{
    if bits.len() > 0 {
        lemma_decode_bound(m, bits.drop_last());
    }
}

/// Reading one more literal extends the decoded prefix by one weighted bit.
pub proof fn lemma_decode_take_step(m: Seq<bool>, bits: Seq<i32>, i: int)
    requires
        0 <= i < bits.len(),
    ensures
        decode_val(m, bits.take(i + 1)) == decode_val(m, bits.take(i)) + pow2(i as nat) * b2n(
            lit_holds(m, bits[i]),
        ),
{
    assert(bits.take(i + 1).drop_last() =~= bits.take(i));
    assert(bits.take(i + 1).last() == bits[i]);
}

pub proof fn lemma_count_take_step(m: Seq<bool>, bits: Seq<i32>, i: int)
    requires
        0 <= i < bits.len(),
    ensures
        count_true(m, bits.take(i + 1)) == count_true(m, bits.take(i)) + b2n(
            lit_holds(m, bits[i]),
        ),
{
    assert(bits.take(i + 1).drop_last() =~= bits.take(i));
    assert(bits.take(i + 1).last() == bits[i]);
}

/// A bit-vector splits at its least-significant bit: the rest carries double weight.
pub proof fn lemma_decode_skip(m: Seq<bool>, bits: Seq<i32>)
    requires
        bits.len() > 0,
    ensures
        decode_val(m, bits) == b2n(lit_holds(m, bits[0])) + 2 * decode_val(m, bits.skip(1)),
    decreases bits.len(),
{
    if bits.len() == 1 {
        assert(bits.skip(1) =~= Seq::<i32>::empty());
        assert(bits.drop_last() =~= Seq::<i32>::empty());
        assert(bits.last() == bits[0]);
    } else {
        let n = bits.len() as int;
        lemma_decode_skip(m, bits.drop_last());
        assert(bits.skip(1).drop_last() =~= bits.drop_last().skip(1));
        assert(bits.skip(1).last() == bits.last());
        assert(bits.drop_last()[0] == bits[0]);
        assert(decode_val(m, bits.skip(1)) == decode_val(m, bits.skip(1).drop_last()) + pow2(
            (n - 2) as nat,
        ) * b2n(lit_holds(m, bits.last())));
        assert(pow2((n - 1) as nat) == 2 * pow2((n - 2) as nat));
        assert(2 * (decode_val(m, bits.drop_last().skip(1)) + pow2((n - 2) as nat) * b2n(
            lit_holds(m, bits.last()),
        )) == 2 * decode_val(m, bits.drop_last().skip(1)) + 2 * pow2((n - 2) as nat) * b2n(
            lit_holds(m, bits.last()),
        )) by (nonlinear_arith);
    }
}

/// Appended literals that are all false leave the decoded value unchanged.
pub proof fn lemma_decode_padded(m: Seq<bool>, padded: Seq<i32>, len: int)
    requires
        0 <= len <= padded.len(),
        forall|j: int| len <= j < padded.len() ==> !lit_holds(m, #[trigger] padded[j]),
    ensures
        decode_val(m, padded) == decode_val(m, padded.take(len)),
    decreases padded.len() - len,
{
    if padded.len() == len {
        assert(padded.take(len) =~= padded);
    } else {
        assert(padded.drop_last() =~= padded.take(padded.len() - 1));
        lemma_decode_padded(m, padded.take(padded.len() - 1), len);
        assert(padded.take(padded.len() - 1).take(len) =~= padded.take(len));
    }
}

/// A vector whose literals spell out the binary digits of `value` decodes to it.
pub proof fn lemma_decode_encodes(m: Seq<bool>, bits: Seq<i32>, value: nat)
    requires
        value < pow2(bits.len()),
        encodes(m, bits, value),
    ensures
        decode_val(m, bits) == value,
    decreases bits.len(),
{
    if bits.len() == 0 {
        lemma_pow2_pos(0);
    } else {
        lemma_decode_skip(m, bits);
        let rest = bits.skip(1);
        let half = value / 2;
        assert(lit_holds(m, bits[0]) == bit_of(value, 0));
        lemma_pow2_pos(0);
        assert(pow2(0) == 1);
        assert(value / pow2(0) == value);
        assert(b2n(lit_holds(m, bits[0])) == value % 2);
        assert forall|i: int| 0 <= i < rest.len() implies lit_holds(m, #[trigger] rest[i])
            == bit_of(half, i as nat) by {
            assert(rest[i] == bits[i + 1]);
            assert(lit_holds(m, bits[i + 1]) == bit_of(value, (i + 1) as nat));
            lemma_pow2_pos(i as nat);
            lemma_div_denominator(value as int, 2, pow2(i as nat) as int);
            assert(pow2((i + 1) as nat) == 2 * pow2(i as nat));
            assert(half / pow2(i as nat) == value / pow2((i + 1) as nat));
        }
        assert(encodes(m, rest, half));
        assert(2 * half <= value < pow2(bits.len()));
        assert(pow2(bits.len()) == 2 * pow2(rest.len()));
        lemma_decode_encodes(m, rest, half);
        assert(value == 2 * (value / 2) + value % 2);
    }
}

/// Allocates bit-vectors and bridges them to unsigned integers.
pub struct Binary;

impl Binary {
    /// Allocate `n` fresh literals, least-significant bit first.
    pub fn of_length(s: &mut Solver, n: usize) -> (bits: Vec<i32>)
        requires
            old(s).wf(),
            old(s).literals + n <= MAX_LITERALS,
        ensures
            final(s).wf(),
            final(s).extends(*old(s)),
            final(s).clauses == old(s).clauses,
            final(s).pending == old(s).pending,
            final(s).assumptions == old(s).assumptions,
            final(s).literals == old(s).literals + n,
            bits@.len() == n,
            forall|i: int| 0 <= i < n ==> #[trigger] bits@[i] as int == old(s).literals + 1 + i,
            forall|i: int| 0 <= i < n ==> lit_in_range(#[trigger] bits@[i], final(s).literals),
    {
        let ghost s0 = *s;
        let mut bits: Vec<i32> = Vec::new();
        let mut i: usize = 0;
        while i < n
            invariant
                s.wf(),
                s.extends(s0),
                s.clauses == s0.clauses,
                s.pending == s0.pending,
                s.assumptions == s0.assumptions,
                i <= n,
                s0.literals + n <= MAX_LITERALS,
                s.literals == s0.literals + i,
                bits@.len() == i,
                forall|j: int| 0 <= j < i ==> #[trigger] bits@[j] as int == s0.literals + 1 + j,
            decreases n - i,
        {
            let lit = s.new_literal();
            bits.push(lit);
            i = i + 1;
        }
        bits
    }

    /// Reconstruct the unsigned value of a solved bit-vector from the model,
    /// most-significant bit first, doubling an accumulator.
    pub fn decode(model: &Vec<bool>, bits: &Vec<i32>) -> (value: u32)
        requires
            bits@.len() <= 32,
            bits_readable(bits@, model@.len() as int),
        ensures
            value as nat == decode_val(model@, bits@),
    {
        let mut decimal: u32 = 0;
        let mut i: usize = bits.len();
        proof {
            assert(bits@.skip(i as int) =~= Seq::<i32>::empty());
        }
        while i > 0
            invariant
                i <= bits@.len() <= 32,
                bits_readable(bits@, model@.len() as int),
                decimal as nat == decode_val(model@, bits@.skip(i as int)),
            decreases i,
        {
            i = i - 1;
            proof {
                lemma_decode_skip(model@, bits@.skip(i as int));
                assert(bits@.skip(i as int).skip(1) =~= bits@.skip(i as int + 1));
                assert(bits@.skip(i as int)[0] == bits@[i as int]);
                lemma_decode_bound(model@, bits@.skip(i as int));
                lemma_pow2_monotone(bits@.skip(i as int).len(), 32);
                lemma_pow2_32();
            }
            decimal = decimal * 2;
            if literal_truth(model, bits[i]) {
                decimal = decimal + 1;
            }
        }
        proof {
            assert(bits@.skip(0) =~= bits@);
        }
        decimal
    }

    /// Permanently force the bit-vector to equal `value`, one unit clause per bit.
    pub fn assign(s: &mut Solver, bits: &Vec<i32>, value: u32)
        requires
            old(s).wf(),
            old(s).pending@.len() == 0,
            clause_in_range(bits@, old(s).literals),
            value < pow2(bits@.len()),
        ensures
            final(s).wf(),
            final(s).extends(*old(s)),
            final(s).literals == old(s).literals,
            final(s).pending@.len() == 0,
            final(s).assumptions == old(s).assumptions,
            final(s).clauses@.len() == old(s).clauses@.len() + bits@.len(),
            forall|i: int|
                0 <= i < bits@.len() ==> (#[trigger] final(s).clauses@[old(s).clauses@.len() + i])@
                    =~= seq![enc_lit(bits@, value as nat, i) as i32],
            forall|m: Seq<bool>| #[trigger] final(s).models(m) ==> decode_val(m, bits@)
                == value as nat,
    {
        assign_with(s, bits, value, true);
        proof {
            assert forall|m: Seq<bool>| #[trigger] s.models(m) implies decode_val(m, bits@)
                == value as nat by {
                lemma_forced_bits_encode(*s, old(s).clauses@.len() as int, m, bits@, value as nat);
                lemma_decode_encodes(m, bits@, value as nat);
            }
        }
    }

    /// Assume the bit-vector equal to `value` for the next solve only: the same
    /// polarity computation as `assign`, registered as one-shot assumptions.
    pub fn assume_value(s: &mut Solver, bits: &Vec<i32>, value: u32)
        requires
            old(s).wf(),
            old(s).pending@.len() == 0,
            clause_in_range(bits@, old(s).literals),
            value < pow2(bits@.len()),
        ensures
            final(s).wf(),
            final(s).extends(*old(s)),
            final(s).literals == old(s).literals,
            final(s).clauses == old(s).clauses,
            final(s).pending@.len() == 0,
            final(s).assumptions@.len() == old(s).assumptions@.len() + bits@.len(),
            forall|i: int|
                0 <= i < old(s).assumptions@.len() ==> #[trigger] final(s).assumptions@[i] == old(
                    s,
                ).assumptions@[i],
            forall|i: int|
                0 <= i < bits@.len() ==> #[trigger] final(s).assumptions@[old(
                    s,
                ).assumptions@.len() + i] as int == enc_lit(bits@, value as nat, i),
            forall|m: Seq<bool>| #[trigger] final(s).models_assumed(m) ==> decode_val(m, bits@)
                == value as nat,
    {
        let ghost base = s.assumptions@.len() as int;
        assign_with(s, bits, value, false);
        proof {
            assert forall|m: Seq<bool>| #[trigger] s.models_assumed(m) implies decode_val(
                m,
                bits@,
            ) == value as nat by {
                assert forall|i: int| 0 <= i < bits@.len() implies lit_holds(
                    m,
                    #[trigger] bits@[i],
                ) == bit_of(value as nat, i as nat) by {
                    let lit = s.assumptions@[base + i];
                    assert(lit_holds(m, lit));
                    if !bit_of(value as nat, i as nat) {
                        crate::solver::lemma_lit_negated(m, bits@[i], lit);
                    }
                }
                lemma_decode_encodes(m, bits@, value as nat);
            }
        }
    }
}

/// Under any model of the grown base, the unit clauses written by `assign` force
/// every bit literal to its digit.
proof fn lemma_forced_bits_encode(s: Solver, base: int, m: Seq<bool>, bits: Seq<i32>, value: nat)
    requires
        s.models(m),
        0 <= base,
        base + bits.len() <= s.clauses@.len(),
        forall|i: int|
            0 <= i < bits.len() ==> (#[trigger] s.clauses@[base + i])@ =~= seq![
                enc_lit(bits, value, i) as i32,
            ],
        forall|i: int| 0 <= i < bits.len() ==> #[trigger] bits[i] != 0,
        forall|i: int| 0 <= i < bits.len() ==> -0x7fff_ffff <= #[trigger] bits[i] as int,
    ensures
        encodes(m, bits, value),
{
    assert forall|i: int| 0 <= i < bits.len() implies lit_holds(m, #[trigger] bits[i]) == bit_of(
        value,
        i as nat,
    ) by {
        assert(crate::solver::clause_holds(m, s.clauses@[base + i]@));
        let lit = s.clauses@[base + i]@[0];
        assert(lit_holds(m, lit));
        if !bit_of(value, i as nat) {
            crate::solver::lemma_lit_negated(m, bits[i], lit);
        }
    }
}

/// Shared polarity computation: emit, per bit, the literal or its negation so the
/// vector spells `value` in binary, permanently (unit clauses) or as assumptions.
fn assign_with(s: &mut Solver, bits: &Vec<i32>, value: u32, permanent: bool)
    requires
        old(s).wf(),
        old(s).pending@.len() == 0,
        clause_in_range(bits@, old(s).literals),
        value < pow2(bits@.len()),
    ensures
        final(s).wf(),
        final(s).extends(*old(s)),
        final(s).literals == old(s).literals,
        final(s).pending@.len() == 0,
        permanent ==> final(s).assumptions == old(s).assumptions,
        permanent ==> final(s).clauses@.len() == old(s).clauses@.len() + bits@.len(),
        permanent ==> forall|i: int|
            0 <= i < bits@.len() ==> (#[trigger] final(s).clauses@[old(s).clauses@.len() + i])@
                =~= seq![enc_lit(bits@, value as nat, i) as i32],
        !permanent ==> final(s).clauses == old(s).clauses,
        !permanent ==> final(s).assumptions@.len() == old(s).assumptions@.len() + bits@.len(),
        !permanent ==> forall|i: int|
            0 <= i < old(s).assumptions@.len() ==> #[trigger] final(s).assumptions@[i] == old(
                s,
            ).assumptions@[i],
        !permanent ==> forall|i: int|
            0 <= i < bits@.len() ==> #[trigger] final(s).assumptions@[old(s).assumptions@.len()
                + i] as int == enc_lit(bits@, value as nat, i),
{
    let ghost s0 = *s;
    let mut remaining = value;
    let mut i: usize = 0;
    proof {
        assert(pow2(0) == 1);
        assert(value as nat / pow2(0) == value as nat);
    }
    while i < bits.len()
        invariant
            s.wf(),
            s.extends(s0),
            s.literals == s0.literals,
            s.pending@.len() == 0,
            clause_in_range(bits@, s0.literals),
            i <= bits@.len(),
            value < pow2(bits@.len()),
            remaining as nat == value as nat / pow2(i as nat),
            permanent ==> s.assumptions == s0.assumptions,
            permanent ==> s.clauses@.len() == s0.clauses@.len() + i,
            permanent ==> forall|j: int|
                0 <= j < i ==> (#[trigger] s.clauses@[s0.clauses@.len() + j])@ =~= seq![
                    enc_lit(bits@, value as nat, j) as i32,
                ],
            !permanent ==> s.clauses == s0.clauses,
            !permanent ==> s.assumptions@.len() == s0.assumptions@.len() + i,
            !permanent ==> forall|j: int|
                0 <= j < s0.assumptions@.len() ==> #[trigger] s.assumptions@[j]
                    == s0.assumptions@[j],
            !permanent ==> forall|j: int|
                0 <= j < i ==> #[trigger] s.assumptions@[s0.assumptions@.len() + j] as int
                    == enc_lit(bits@, value as nat, j),
        decreases bits@.len() - i,
    {
        let digit_set = remaining % 2 == 1;
        let literal = if digit_set {
            bits[i]
        } else {
            negated(bits[i])
        };
        proof {
            assert(digit_set == bit_of(value as nat, i as nat));
            assert(literal as int == enc_lit(bits@, value as nat, i as int));
            lemma_pow2_pos(i as nat);
            lemma_div_denominator(value as int, pow2(i as nat) as int, 2);
            assert(pow2((i + 1) as nat) == pow2(i as nat) * 2) by {
                lemma_pow2_adds(i as nat, 1);
            }
        }
        if permanent {
            s.add(literal);
            s.add(0);
        } else {
            s.assume_literal(literal);
        }
        remaining = remaining / 2;
        i = i + 1;
    }
}

pub proof fn lemma_pow2_32()
    ensures
        pow2(8) == 0x100,
        pow2(16) == 0x1_0000,
        pow2(31) == 0x8000_0000,
        pow2(32) == 0x1_0000_0000,
{
    assert(pow2(8) == 0x100) by {
        reveal_with_fuel(pow2, 9);
    }
    lemma_pow2_adds(8, 8);
    assert(pow2(16) == 0x1_0000);
    lemma_pow2_adds(16, 16);
    assert(pow2(32) == 0x1_0000_0000);
    assert(pow2(32) == 2 * pow2(31));
}

} // verus!
