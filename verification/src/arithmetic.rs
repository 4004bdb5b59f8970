use vstd::prelude::*;

use crate::binary::{
    b2n, count_true, decode_val, lemma_count_take_step, lemma_decode_bound, lemma_decode_padded,
    lemma_decode_take_step, lemma_pow2_monotone, lemma_pow2_pos, pow2,
};
use crate::solver::{
    clause_holds, clause_in_range, lemma_extends_grounded, lemma_extends_trans, lemma_grounded_holds,
    lemma_lit_negated, lemma_models_monotone, lit_holds, lit_in_range, negated, Solver,
    MAX_LITERALS,
};

verus! {

pub open spec fn max_nat(a: nat, b: nat) -> nat {
    if a >= b {
        a
    } else {
        b
    }
}

/// Output width of a ripple-carry addition: one extra carry bit in uncapped mode,
/// the operand width when capped.
pub open spec fn rca_len(alen: nat, blen: nat, max_bits: nat) -> nat {
    if max_nat(alen, blen) < max_bits {
        max_nat(alen, blen) + 1
    } else {
        max_nat(alen, blen)
    }
}

/// The smallest exponent `e` with `pow2(e) >= n`.
pub open spec fn log2_ceil_spec(n: nat) -> nat
    decreases n,
{
    if n <= 1 {
        0
    } else {
        1 + log2_ceil_spec(((n + 1) / 2) as nat)
    }
}

/// Where the balanced recursion splits a list of `n` numbers: the smallest power
/// of two at least `n / 2`, clamped into the open interval so both halves are
/// nonempty (the clamp never fires for `n >= 3`).
pub open spec fn split_point(n: nat) -> int {
    let h = pow2(log2_ceil_spec(n / 2)) as int;
    if 1 <= h < n {
        h
    } else {
        1
    }
}

/// Output width of the balanced recursive-doubling addition over the given
/// operand widths.
pub open spec fn radd_len(lens: Seq<nat>, max_bits: nat) -> nat
    decreases lens.len(),
{
    if lens.len() == 0 {
        0
    } else if lens.len() == 1 {
        lens[0]
    } else if lens.len() == 2 {
        rca_len(lens[0], lens[1], max_bits)
    } else {
        let half = split_point(lens.len());
        rca_len(
            radd_len(lens.take(half), max_bits),
            radd_len(lens.skip(half), max_bits),
            max_bits,
        )
    }
}

/// How many fresh literals the balanced addition allocates: two per full adder.
pub open spec fn radd_lits(lens: Seq<nat>, max_bits: nat) -> nat
    decreases lens.len(),
{
    if lens.len() <= 1 {
        0
    } else if lens.len() == 2 {
        2 * max_nat(lens[0], lens[1])
    } else {
        let half = split_point(lens.len());
        radd_lits(lens.take(half), max_bits) + radd_lits(lens.skip(half), max_bits) + 2 * max_nat(
            radd_len(lens.take(half), max_bits),
            radd_len(lens.skip(half), max_bits),
        )
    }
}

pub open spec fn lens_of(numbers: Seq<Vec<i32>>) -> Seq<nat> {
    numbers.map_values(|v: Vec<i32>| v@.len())
}

/// The arithmetic sum of the values all listed bit-vectors take under a model.
pub open spec fn sum_decode(m: Seq<bool>, numbers: Seq<Vec<i32>>) -> nat
    decreases numbers.len(),
{
    if numbers.len() == 0 {
        0
    } else {
        decode_val(m, numbers[0]@) + sum_decode(m, numbers.skip(1))
    }
}

/// The operand widths the counter's pairing stage produces: two-bit partial sums,
/// and a final one-bit number when the input count is odd.
pub open spec fn chunk_lens(n: nat) -> Seq<nat> {
    Seq::new((n + 1) / 2, |i: int| if 2 * i + 1 < n { 2nat } else { 1nat })
}

pub open spec fn counter_len(n: nat) -> nat {
    radd_len(chunk_lens(n), log2_ceil_spec(n))
}

pub open spec fn counter_lits(n: nat) -> nat {
    2 * (n / 2) + radd_lits(chunk_lens(n), log2_ceil_spec(n))
}

/// The shape both adders share: two fresh output literals and an otherwise
/// untouched solver.
pub open spec fn adder_step(post: Solver, pre: Solver, sum: i32, carry: i32) -> bool {
    &&& post.wf()
    &&& post.extends(pre)
    &&& post.pending@.len() == 0
    &&& post.assumptions == pre.assumptions
    &&& post.literals == pre.literals + 2
    &&& sum as int == pre.literals + 1
    &&& carry as int == pre.literals + 2
    &&& 0 < sum
    &&& 0 < carry
    &&& lit_in_range(sum, post.literals)
    &&& lit_in_range(carry, post.literals)
    &&& (pre.grounded() ==> post.grounded())
}

/// `pow2(log2_ceil_spec(n))` is the least power of two at or above `n`.
pub proof fn lemma_log2_ceil_bounds(n: nat)
    ensures
        pow2(log2_ceil_spec(n)) >= n,
        n >= 2 ==> pow2(log2_ceil_spec(n)) < 2 * n,
    decreases n,
{
    if n >= 2 {
        let k = ((n + 1) / 2) as nat;
        assert(1 <= k < n);
        lemma_log2_ceil_bounds(k);
        assert(pow2(log2_ceil_spec(n)) == 2 * pow2(log2_ceil_spec(k)));
        assert(2 * k >= n);
        if k >= 2 {
            assert(pow2(log2_ceil_spec(k)) < 2 * k);
            assert(pow2(log2_ceil_spec(k)) <= 2 * k - 1);
            if n % 2 == 1 {
                assert(2 * k == n + 1);
                assert(pow2(log2_ceil_spec(k)) <= n);
                assert(pow2(log2_ceil_spec(k)) == 2 * pow2(
                    (log2_ceil_spec(k) - 1) as nat,
                ));
                assert(pow2(log2_ceil_spec(k)) != n);
            } else {
                assert(2 * k == n);
            }
        } else {
            assert(pow2(log2_ceil_spec(1)) == 1);
        }
    }
}

/// For three or more numbers the split lands strictly inside the list.
pub proof fn lemma_split_point(n: nat)
    requires
        n >= 3,
    ensures
        1 <= split_point(n) < n,
        split_point(n) == pow2(log2_ceil_spec(n / 2)),
{
    let m = n / 2;
    lemma_pow2_pos(log2_ceil_spec(m));
    lemma_log2_ceil_bounds(m);
    if m >= 2 {
        assert(pow2(log2_ceil_spec(m)) < 2 * m);
    } else {
        assert(m == 1);
        assert(pow2(log2_ceil_spec(1)) == 1);
    }
}

/// The sum of a list of numbers splits across any cut of the list.
pub proof fn lemma_sum_decode_split(m: Seq<bool>, numbers: Seq<Vec<i32>>, h: int)
    requires
        0 <= h <= numbers.len(),
    ensures
        sum_decode(m, numbers) == sum_decode(m, numbers.take(h)) + sum_decode(m, numbers.skip(h)),
    decreases h,
{
    if h == 0 {
        assert(numbers.take(0) =~= Seq::<Vec<i32>>::empty());
        assert(numbers.skip(0) =~= numbers);
    } else {
        lemma_sum_decode_split(m, numbers.skip(1), h - 1);
        assert(numbers.skip(1).take(h - 1) =~= numbers.take(h).skip(1));
        assert(numbers.skip(1).skip(h - 1) =~= numbers.skip(h));
        assert(numbers.take(h)[0] == numbers[0]);
        assert(sum_decode(m, numbers.take(h)) == decode_val(m, numbers[0]@) + sum_decode(
            m,
            numbers.take(h).skip(1),
        ));
    }
}

pub proof fn lemma_sum_decode_push(m: Seq<bool>, numbers: Seq<Vec<i32>>, v: Vec<i32>)
    ensures
        sum_decode(m, numbers.push(v)) == sum_decode(m, numbers) + decode_val(m, v@),
    decreases numbers.len(),
{
    let grown = numbers.push(v);
    assert(sum_decode(m, grown) == decode_val(m, grown[0]@) + sum_decode(m, grown.skip(1)));
    if numbers.len() == 0 {
        assert(grown[0] == v);
        assert(grown.skip(1) =~= Seq::<Vec<i32>>::empty());
        assert(sum_decode(m, grown.skip(1)) == 0);
        assert(sum_decode(m, numbers) == 0);
    } else {
        lemma_sum_decode_push(m, numbers.skip(1), v);
        assert(grown.skip(1) =~= numbers.skip(1).push(v));
        assert(grown[0] == numbers[0]);
        assert(sum_decode(m, numbers) == decode_val(m, numbers[0]@) + sum_decode(
            m,
            numbers.skip(1),
        ));
    }
}

/// Appending one literal adds one weighted bit at the top.
pub proof fn lemma_decode_push(m: Seq<bool>, bits: Seq<i32>, x: i32)
    ensures
        decode_val(m, bits.push(x)) == decode_val(m, bits) + pow2(bits.len()) * b2n(
            lit_holds(m, x),
        ),
{
    assert(bits.push(x).drop_last() =~= bits);
    assert(bits.push(x).last() == x);
}

/// Whether the adders emit the propagation-complete clause sets, which let the
/// oracle also propagate from output values back to the inputs, or the plain
/// functional encodings. Whether the stronger sets pay off across the balanced
/// summation is deliberately left open, so the choice is a switch; both
/// encodings force the same values, so every contract is the same either way.
pub const PROPAGATION_COMPLETE_ADDERS: bool = true;

/// A half adder: the sum and carry spell the two-bit total of the inputs under
/// every model. The default, propagation-complete encoding takes six clauses.
pub fn half_adder(s: &mut Solver, a: i32, b: i32) -> (r: (i32, i32))
    requires
        old(s).wf(),
        old(s).pending@.len() == 0,
        old(s).literals + 2 <= MAX_LITERALS,
        lit_in_range(a, old(s).literals),
        lit_in_range(b, old(s).literals),
    ensures
        adder_step(*final(s), *old(s), r.0, r.1),
        forall|m: Seq<bool>| #[trigger] final(s).models(m) ==> b2n(lit_holds(m, r.0)) + 2 * b2n(
            lit_holds(m, r.1),
        ) == b2n(lit_holds(m, a)) + b2n(lit_holds(m, b)),
{
    if PROPAGATION_COMPLETE_ADDERS {
        half_adder_complete(s, a, b)
    } else {
        half_adder_plain(s, a, b)
    }
}

/// The propagation-complete half adder: six clauses, not the seven a naive
/// specialization of the full adder would give.
fn half_adder_complete(s: &mut Solver, a: i32, b: i32) -> (r: (i32, i32))
    requires
        old(s).wf(),
        old(s).pending@.len() == 0,
        old(s).literals + 2 <= MAX_LITERALS,
        lit_in_range(a, old(s).literals),
        lit_in_range(b, old(s).literals),
    ensures
        adder_step(*final(s), *old(s), r.0, r.1),
        forall|m: Seq<bool>| #[trigger] final(s).models(m) ==> b2n(lit_holds(m, r.0)) + 2 * b2n(
            lit_holds(m, r.1),
        ) == b2n(lit_holds(m, a)) + b2n(lit_holds(m, b)),
{
    let ghost s0 = *s;
    let out = s.new_literal();
    let c_out = s.new_literal();
    let na = negated(a);
    let nb = negated(b);
    let no = negated(out);
    let nc = negated(c_out);

    s.add(a);
    s.add(nb);
    s.add(out);
    s.add(0);
    s.add(na);
    s.add(nb);
    s.add(no);
    s.add(0);
    s.add(na);
    s.add(c_out);
    s.add(out);
    s.add(0);
    s.add(a);
    s.add(nc);
    s.add(no);
    s.add(0);
    s.add(b);
    s.add(nc);
    s.add(0);
    s.add(a);
    s.add(b);
    s.add(no);
    s.add(0);

    proof {
        let n = s.clauses@.len() as int;
        assert(s.clauses@[n - 6]@ =~= seq![a, nb, out]);
        assert(s.clauses@[n - 5]@ =~= seq![na, nb, no]);
        assert(s.clauses@[n - 4]@ =~= seq![na, c_out, out]);
        assert(s.clauses@[n - 3]@ =~= seq![a, nc, no]);
        assert(s.clauses@[n - 2]@ =~= seq![b, nc]);
        assert(s.clauses@[n - 1]@ =~= seq![a, b, no]);
        assert forall|m: Seq<bool>| #[trigger] s.models(m) implies b2n(lit_holds(m, out)) + 2
            * b2n(lit_holds(m, c_out)) == b2n(lit_holds(m, a)) + b2n(lit_holds(m, b)) by {
            assert(clause_holds(m, s.clauses@[n - 6]@));
            assert(clause_holds(m, s.clauses@[n - 5]@));
            assert(clause_holds(m, s.clauses@[n - 4]@));
            assert(clause_holds(m, s.clauses@[n - 3]@));
            assert(clause_holds(m, s.clauses@[n - 2]@));
            assert(clause_holds(m, s.clauses@[n - 1]@));
            lemma_lit_negated(m, a, na);
            lemma_lit_negated(m, b, nb);
            lemma_lit_negated(m, out, no);
            lemma_lit_negated(m, c_out, nc);
            assert(lit_holds(m, a) || lit_holds(m, nb) || lit_holds(m, out));
            assert(lit_holds(m, na) || lit_holds(m, nb) || lit_holds(m, no));
            assert(lit_holds(m, na) || lit_holds(m, c_out) || lit_holds(m, out));
            assert(lit_holds(m, a) || lit_holds(m, nc) || lit_holds(m, no));
            assert(lit_holds(m, b) || lit_holds(m, nc));
            assert(lit_holds(m, a) || lit_holds(m, b) || lit_holds(m, no));
        }
        if s0.grounded() {
            lemma_extends_grounded(*s, s0);
        }
    }
    (out, c_out)
}

/// The plain half adder: the naive specialization, an exclusive-or for the sum
/// and a conjunction for the carry, seven clauses.
fn half_adder_plain(s: &mut Solver, a: i32, b: i32) -> (r: (i32, i32))
    requires
        old(s).wf(),
        old(s).pending@.len() == 0,
        old(s).literals + 2 <= MAX_LITERALS,
        lit_in_range(a, old(s).literals),
        lit_in_range(b, old(s).literals),
    ensures
        adder_step(*final(s), *old(s), r.0, r.1),
        forall|m: Seq<bool>| #[trigger] final(s).models(m) ==> b2n(lit_holds(m, r.0)) + 2 * b2n(
            lit_holds(m, r.1),
        ) == b2n(lit_holds(m, a)) + b2n(lit_holds(m, b)),
{
    let ghost s0 = *s;
    let out = s.new_literal();
    let c_out = s.new_literal();
    let na = negated(a);
    let nb = negated(b);
    let no = negated(out);
    let nc = negated(c_out);

    s.add(na);
    s.add(nb);
    s.add(no);
    s.add(0);
    s.add(a);
    s.add(b);
    s.add(no);
    s.add(0);
    s.add(a);
    s.add(nb);
    s.add(out);
    s.add(0);
    s.add(na);
    s.add(b);
    s.add(out);
    s.add(0);
    s.add(na);
    s.add(nb);
    s.add(c_out);
    s.add(0);
    s.add(a);
    s.add(nc);
    s.add(0);
    s.add(b);
    s.add(nc);
    s.add(0);

    proof {
        let n = s.clauses@.len() as int;
        assert(s.clauses@[n - 7]@ =~= seq![na, nb, no]);
        assert(s.clauses@[n - 6]@ =~= seq![a, b, no]);
        assert(s.clauses@[n - 5]@ =~= seq![a, nb, out]);
        assert(s.clauses@[n - 4]@ =~= seq![na, b, out]);
        assert(s.clauses@[n - 3]@ =~= seq![na, nb, c_out]);
        assert(s.clauses@[n - 2]@ =~= seq![a, nc]);
        assert(s.clauses@[n - 1]@ =~= seq![b, nc]);
        assert forall|m: Seq<bool>| #[trigger] s.models(m) implies b2n(lit_holds(m, out)) + 2
            * b2n(lit_holds(m, c_out)) == b2n(lit_holds(m, a)) + b2n(lit_holds(m, b)) by {
            assert(clause_holds(m, s.clauses@[n - 7]@));
            assert(clause_holds(m, s.clauses@[n - 6]@));
            assert(clause_holds(m, s.clauses@[n - 5]@));
            assert(clause_holds(m, s.clauses@[n - 4]@));
            assert(clause_holds(m, s.clauses@[n - 3]@));
            assert(clause_holds(m, s.clauses@[n - 2]@));
            assert(clause_holds(m, s.clauses@[n - 1]@));
            lemma_lit_negated(m, a, na);
            lemma_lit_negated(m, b, nb);
            lemma_lit_negated(m, out, no);
            lemma_lit_negated(m, c_out, nc);
            assert(lit_holds(m, na) || lit_holds(m, nb) || lit_holds(m, no));
            assert(lit_holds(m, a) || lit_holds(m, b) || lit_holds(m, no));
            assert(lit_holds(m, a) || lit_holds(m, nb) || lit_holds(m, out));
            assert(lit_holds(m, na) || lit_holds(m, b) || lit_holds(m, out));
            assert(lit_holds(m, na) || lit_holds(m, nb) || lit_holds(m, c_out));
            assert(lit_holds(m, a) || lit_holds(m, nc));
            assert(lit_holds(m, b) || lit_holds(m, nc));
        }
        if s0.grounded() {
            lemma_extends_grounded(*s, s0);
        }
    }
    (out, c_out)
}

/// A full adder: the sum and carry spell the two-bit total of the three inputs
/// under every model. The default, propagation-complete encoding takes ten
/// clauses, bidirectional over all three inputs and both outputs.
pub fn full_adder(s: &mut Solver, a: i32, b: i32, c_in: i32) -> (r: (i32, i32))
    requires
        old(s).wf(),
        old(s).pending@.len() == 0,
        old(s).literals + 2 <= MAX_LITERALS,
        lit_in_range(a, old(s).literals),
        lit_in_range(b, old(s).literals),
        lit_in_range(c_in, old(s).literals),
    ensures
        adder_step(*final(s), *old(s), r.0, r.1),
        forall|m: Seq<bool>| #[trigger] final(s).models(m) ==> b2n(lit_holds(m, r.0)) + 2 * b2n(
            lit_holds(m, r.1),
        ) == b2n(lit_holds(m, a)) + b2n(lit_holds(m, b)) + b2n(lit_holds(m, c_in)),
{
    if PROPAGATION_COMPLETE_ADDERS {
        full_adder_complete(s, a, b, c_in)
    } else {
        full_adder_plain(s, a, b, c_in)
    }
}

/// The propagation-complete full adder's ten clauses.
fn full_adder_complete(s: &mut Solver, a: i32, b: i32, c_in: i32) -> (r: (i32, i32))
    requires
        old(s).wf(),
        old(s).pending@.len() == 0,
        old(s).literals + 2 <= MAX_LITERALS,
        lit_in_range(a, old(s).literals),
        lit_in_range(b, old(s).literals),
        lit_in_range(c_in, old(s).literals),
    ensures
        adder_step(*final(s), *old(s), r.0, r.1),
        forall|m: Seq<bool>| #[trigger] final(s).models(m) ==> b2n(lit_holds(m, r.0)) + 2 * b2n(
            lit_holds(m, r.1),
        ) == b2n(lit_holds(m, a)) + b2n(lit_holds(m, b)) + b2n(lit_holds(m, c_in)),
{
    let ghost s0 = *s;
    let out = s.new_literal();
    let c_out = s.new_literal();
    let na = negated(a);
    let nb = negated(b);
    let nc_in = negated(c_in);
    let no = negated(out);
    let nc_out = negated(c_out);

    s.add(a);
    s.add(nb);
    s.add(c_in);
    s.add(out);
    s.add(0);
    s.add(a);
    s.add(b);
    s.add(nc_in);
    s.add(out);
    s.add(0);
    s.add(na);
    s.add(nb);
    s.add(c_in);
    s.add(no);
    s.add(0);
    s.add(na);
    s.add(b);
    s.add(nc_in);
    s.add(no);
    s.add(0);
    s.add(na);
    s.add(c_out);
    s.add(out);
    s.add(0);
    s.add(a);
    s.add(nc_out);
    s.add(no);
    s.add(0);
    s.add(nb);
    s.add(nc_in);
    s.add(c_out);
    s.add(0);
    s.add(b);
    s.add(c_in);
    s.add(nc_out);
    s.add(0);
    s.add(na);
    s.add(nb);
    s.add(nc_in);
    s.add(out);
    s.add(0);
    s.add(a);
    s.add(b);
    s.add(c_in);
    s.add(no);
    s.add(0);

    proof {
        let n = s.clauses@.len() as int;
        assert(s.clauses@[n - 10]@ =~= seq![a, nb, c_in, out]);
        assert(s.clauses@[n - 9]@ =~= seq![a, b, nc_in, out]);
        assert(s.clauses@[n - 8]@ =~= seq![na, nb, c_in, no]);
        assert(s.clauses@[n - 7]@ =~= seq![na, b, nc_in, no]);
        assert(s.clauses@[n - 6]@ =~= seq![na, c_out, out]);
        assert(s.clauses@[n - 5]@ =~= seq![a, nc_out, no]);
        assert(s.clauses@[n - 4]@ =~= seq![nb, nc_in, c_out]);
        assert(s.clauses@[n - 3]@ =~= seq![b, c_in, nc_out]);
        assert(s.clauses@[n - 2]@ =~= seq![na, nb, nc_in, out]);
        assert(s.clauses@[n - 1]@ =~= seq![a, b, c_in, no]);
        assert forall|m: Seq<bool>| #[trigger] s.models(m) implies b2n(lit_holds(m, out)) + 2
            * b2n(lit_holds(m, c_out)) == b2n(lit_holds(m, a)) + b2n(lit_holds(m, b)) + b2n(
            lit_holds(m, c_in),
        ) by {
            assert(clause_holds(m, s.clauses@[n - 10]@));
            assert(clause_holds(m, s.clauses@[n - 9]@));
            assert(clause_holds(m, s.clauses@[n - 8]@));
            assert(clause_holds(m, s.clauses@[n - 7]@));
            assert(clause_holds(m, s.clauses@[n - 6]@));
            assert(clause_holds(m, s.clauses@[n - 5]@));
            assert(clause_holds(m, s.clauses@[n - 4]@));
            assert(clause_holds(m, s.clauses@[n - 3]@));
            assert(clause_holds(m, s.clauses@[n - 2]@));
            assert(clause_holds(m, s.clauses@[n - 1]@));
            lemma_lit_negated(m, a, na);
            lemma_lit_negated(m, b, nb);
            lemma_lit_negated(m, c_in, nc_in);
            lemma_lit_negated(m, out, no);
            lemma_lit_negated(m, c_out, nc_out);
            assert(lit_holds(m, a) || lit_holds(m, nb) || lit_holds(m, c_in) || lit_holds(m, out));
            assert(lit_holds(m, a) || lit_holds(m, b) || lit_holds(m, nc_in) || lit_holds(m, out));
            assert(lit_holds(m, na) || lit_holds(m, nb) || lit_holds(m, c_in) || lit_holds(m, no));
            assert(lit_holds(m, na) || lit_holds(m, b) || lit_holds(m, nc_in) || lit_holds(m, no));
            assert(lit_holds(m, na) || lit_holds(m, c_out) || lit_holds(m, out));
            assert(lit_holds(m, a) || lit_holds(m, nc_out) || lit_holds(m, no));
            assert(lit_holds(m, nb) || lit_holds(m, nc_in) || lit_holds(m, c_out));
            assert(lit_holds(m, b) || lit_holds(m, c_in) || lit_holds(m, nc_out));
            assert(lit_holds(m, na) || lit_holds(m, nb) || lit_holds(m, nc_in) || lit_holds(
                m,
                out,
            ));
            assert(lit_holds(m, a) || lit_holds(m, b) || lit_holds(m, c_in) || lit_holds(m, no));
        }
        if s0.grounded() {
            lemma_extends_grounded(*s, s0);
        }
    }
    (out, c_out)
}

/// The plain full adder: a three-way exclusive-or for the sum and a majority
/// gadget for the carry, fourteen clauses.
fn full_adder_plain(s: &mut Solver, a: i32, b: i32, c_in: i32) -> (r: (i32, i32))
    requires
        old(s).wf(),
        old(s).pending@.len() == 0,
        old(s).literals + 2 <= MAX_LITERALS,
        lit_in_range(a, old(s).literals),
        lit_in_range(b, old(s).literals),
        lit_in_range(c_in, old(s).literals),
    ensures
        adder_step(*final(s), *old(s), r.0, r.1),
        forall|m: Seq<bool>| #[trigger] final(s).models(m) ==> b2n(lit_holds(m, r.0)) + 2 * b2n(
            lit_holds(m, r.1),
        ) == b2n(lit_holds(m, a)) + b2n(lit_holds(m, b)) + b2n(lit_holds(m, c_in)),
{
    let ghost s0 = *s;
    let out = s.new_literal();
    let c_out = s.new_literal();
    let na = negated(a);
    let nb = negated(b);
    let nc_in = negated(c_in);
    let no = negated(out);
    let nc_out = negated(c_out);

    s.add(a);
    s.add(b);
    s.add(c_in);
    s.add(no);
    s.add(0);
    s.add(a);
    s.add(b);
    s.add(nc_in);
    s.add(out);
    s.add(0);
    s.add(a);
    s.add(nb);
    s.add(c_in);
    s.add(out);
    s.add(0);
    s.add(a);
    s.add(nb);
    s.add(nc_in);
    s.add(no);
    s.add(0);
    s.add(na);
    s.add(b);
    s.add(c_in);
    s.add(out);
    s.add(0);
    s.add(na);
    s.add(b);
    s.add(nc_in);
    s.add(no);
    s.add(0);
    s.add(na);
    s.add(nb);
    s.add(c_in);
    s.add(no);
    s.add(0);
    s.add(na);
    s.add(nb);
    s.add(nc_in);
    s.add(out);
    s.add(0);
    s.add(na);
    s.add(nb);
    s.add(c_out);
    s.add(0);
    s.add(na);
    s.add(nc_in);
    s.add(c_out);
    s.add(0);
    s.add(nb);
    s.add(nc_in);
    s.add(c_out);
    s.add(0);
    s.add(a);
    s.add(b);
    s.add(nc_out);
    s.add(0);
    s.add(a);
    s.add(c_in);
    s.add(nc_out);
    s.add(0);
    s.add(b);
    s.add(c_in);
    s.add(nc_out);
    s.add(0);

    proof {
        let n = s.clauses@.len() as int;
        assert(s.clauses@[n - 14]@ =~= seq![a, b, c_in, no]);
        assert(s.clauses@[n - 13]@ =~= seq![a, b, nc_in, out]);
        assert(s.clauses@[n - 12]@ =~= seq![a, nb, c_in, out]);
        assert(s.clauses@[n - 11]@ =~= seq![a, nb, nc_in, no]);
        assert(s.clauses@[n - 10]@ =~= seq![na, b, c_in, out]);
        assert(s.clauses@[n - 9]@ =~= seq![na, b, nc_in, no]);
        assert(s.clauses@[n - 8]@ =~= seq![na, nb, c_in, no]);
        assert(s.clauses@[n - 7]@ =~= seq![na, nb, nc_in, out]);
        assert(s.clauses@[n - 6]@ =~= seq![na, nb, c_out]);
        assert(s.clauses@[n - 5]@ =~= seq![na, nc_in, c_out]);
        assert(s.clauses@[n - 4]@ =~= seq![nb, nc_in, c_out]);
        assert(s.clauses@[n - 3]@ =~= seq![a, b, nc_out]);
        assert(s.clauses@[n - 2]@ =~= seq![a, c_in, nc_out]);
        assert(s.clauses@[n - 1]@ =~= seq![b, c_in, nc_out]);
        assert forall|m: Seq<bool>| #[trigger] s.models(m) implies b2n(lit_holds(m, out)) + 2
            * b2n(lit_holds(m, c_out)) == b2n(lit_holds(m, a)) + b2n(lit_holds(m, b)) + b2n(
            lit_holds(m, c_in),
        ) by {
            assert(clause_holds(m, s.clauses@[n - 14]@));
            assert(clause_holds(m, s.clauses@[n - 13]@));
            assert(clause_holds(m, s.clauses@[n - 12]@));
            assert(clause_holds(m, s.clauses@[n - 11]@));
            assert(clause_holds(m, s.clauses@[n - 10]@));
            assert(clause_holds(m, s.clauses@[n - 9]@));
            assert(clause_holds(m, s.clauses@[n - 8]@));
            assert(clause_holds(m, s.clauses@[n - 7]@));
            assert(clause_holds(m, s.clauses@[n - 6]@));
            assert(clause_holds(m, s.clauses@[n - 5]@));
            assert(clause_holds(m, s.clauses@[n - 4]@));
            assert(clause_holds(m, s.clauses@[n - 3]@));
            assert(clause_holds(m, s.clauses@[n - 2]@));
            assert(clause_holds(m, s.clauses@[n - 1]@));
            lemma_lit_negated(m, a, na);
            lemma_lit_negated(m, b, nb);
            lemma_lit_negated(m, c_in, nc_in);
            lemma_lit_negated(m, out, no);
            lemma_lit_negated(m, c_out, nc_out);
            assert(lit_holds(m, a) || lit_holds(m, b) || lit_holds(m, c_in) || lit_holds(m, no));
            assert(lit_holds(m, a) || lit_holds(m, b) || lit_holds(m, nc_in) || lit_holds(m, out));
            assert(lit_holds(m, a) || lit_holds(m, nb) || lit_holds(m, c_in) || lit_holds(m, out));
            assert(lit_holds(m, a) || lit_holds(m, nb) || lit_holds(m, nc_in) || lit_holds(m, no));
            assert(lit_holds(m, na) || lit_holds(m, b) || lit_holds(m, c_in) || lit_holds(m, out));
            assert(lit_holds(m, na) || lit_holds(m, b) || lit_holds(m, nc_in) || lit_holds(m, no));
            assert(lit_holds(m, na) || lit_holds(m, nb) || lit_holds(m, c_in) || lit_holds(m, no));
            assert(lit_holds(m, na) || lit_holds(m, nb) || lit_holds(m, nc_in) || lit_holds(
                m,
                out,
            ));
            assert(lit_holds(m, na) || lit_holds(m, nb) || lit_holds(m, c_out));
            assert(lit_holds(m, na) || lit_holds(m, nc_in) || lit_holds(m, c_out));
            assert(lit_holds(m, nb) || lit_holds(m, nc_in) || lit_holds(m, c_out));
            assert(lit_holds(m, a) || lit_holds(m, b) || lit_holds(m, nc_out));
            assert(lit_holds(m, a) || lit_holds(m, c_in) || lit_holds(m, nc_out));
            assert(lit_holds(m, b) || lit_holds(m, c_in) || lit_holds(m, nc_out));
        }
        if s0.grounded() {
            lemma_extends_grounded(*s, s0);
        }
    }
    (out, c_out)
}

/// Extend a bit-vector to `len` bits with the ground-false constant; a vector
/// already long enough is copied unchanged.
fn pad_with_zeros(s: &Solver, bits: &Vec<i32>, len: usize) -> (out: Vec<i32>)
    requires
        s.grounded(),
        clause_in_range(bits@, s.literals),
    ensures
        out@.len() == max_nat(bits@.len(), len as nat),
        out@.take(bits@.len() as int) == bits@,
        forall|j: int| bits@.len() <= j < out@.len() ==> #[trigger] out@[j] == s.false_literal,
        clause_in_range(out@, s.literals),
    {
    let mut out: Vec<i32> = Vec::new();
    let mut i: usize = 0;
    while i < bits.len()
        invariant
            i <= bits@.len(),
            out@ == bits@.take(i as int),
            clause_in_range(bits@, s.literals),
        decreases bits@.len() - i,
    {
        out.push(bits[i]);
        proof {
            assert(bits@.take(i + 1) =~= bits@.take(i as int).push(bits@[i as int]));
        }
        i = i + 1;
    }
    proof {
        assert(bits@.take(bits@.len() as int) =~= bits@);
    }
    while out.len() < len
        invariant
            s.grounded(),
            out@.len() >= bits@.len(),
            out@.take(bits@.len() as int) == bits@,
            forall|j: int| bits@.len() <= j < out@.len() ==> #[trigger] out@[j] == s.false_literal,
            clause_in_range(bits@, s.literals),
            clause_in_range(out@, s.literals),
            out@.len() <= max_nat(bits@.len(), len as nat),
        decreases len - out@.len(),
    {
        out.push(s.false_literal);
        proof {
            assert(out@.take(bits@.len() as int) =~= out@.drop_last().take(bits@.len() as int));
        }
    }
    out
}

/// Chain full adders from least to most significant bit, threading the carry.
/// Uncapped (the width limit above the operand width), the final carry becomes
/// one extra output bit; capped, it is forced false by a permanent clause, so an
/// overflow is a contradiction for the oracle, never a silent truncation. Either
/// way, under every model the output decodes to the exact sum of the operands.
pub fn ripple_carry_adder(s: &mut Solver, a: &Vec<i32>, b: &Vec<i32>, max_bits: usize) -> (out:
    Vec<i32>)
    requires
        old(s).wf(),
        old(s).grounded(),
        old(s).pending@.len() == 0,
        clause_in_range(a@, old(s).literals),
        clause_in_range(b@, old(s).literals),
        old(s).literals + 2 * max_nat(a@.len(), b@.len()) <= MAX_LITERALS,
    ensures
        final(s).wf(),
        final(s).grounded(),
        final(s).extends(*old(s)),
        final(s).pending@.len() == 0,
        final(s).assumptions == old(s).assumptions,
        final(s).literals == old(s).literals + 2 * max_nat(a@.len(), b@.len()),
        out@.len() == rca_len(a@.len(), b@.len(), max_bits as nat),
        clause_in_range(out@, final(s).literals),
        forall|m: Seq<bool>| #[trigger] final(s).models(m) ==> decode_val(m, out@) == decode_val(
            m,
            a@,
        ) + decode_val(m, b@),
{
    let ghost s0 = *s;
    let padded_a = pad_with_zeros(s, a, b.len());
    let padded_b = pad_with_zeros(s, b, a.len());
    let width = padded_a.len();

    let mut out: Vec<i32> = Vec::new();
    let mut c_out = s.false_literal;
    let mut i: usize = 0;
    proof {
        assert(padded_a@.take(0) =~= Seq::<i32>::empty());
        assert(padded_b@.take(0) =~= Seq::<i32>::empty());
        assert forall|m: Seq<bool>| #[trigger] s.models(m) implies decode_val(m, out@) + pow2(0)
            * b2n(lit_holds(m, c_out)) == decode_val(m, padded_a@.take(0)) + decode_val(
            m,
            padded_b@.take(0),
        ) by {
            lemma_grounded_holds(*s, m);
            assert(decode_val(m, Seq::<i32>::empty()) == 0);
            assert(pow2(0) == 1);
        }
    }
    while i < width
        invariant
            s.wf(),
            s.grounded(),
            s.extends(s0),
            s.pending@.len() == 0,
            s.assumptions == s0.assumptions,
            s0.grounded(),
            width == padded_a@.len(),
            padded_a@.len() == padded_b@.len(),
            padded_a@.len() == max_nat(a@.len(), b@.len()),
            i <= width,
            out@.len() == i,
            clause_in_range(padded_a@, s0.literals),
            clause_in_range(padded_b@, s0.literals),
            s0.literals + 2 * padded_a@.len() <= MAX_LITERALS,
            s.literals == s0.literals + 2 * i,
            clause_in_range(out@, s.literals),
            lit_in_range(c_out, s.literals),
            forall|m: Seq<bool>| #[trigger] s.models(m) ==> decode_val(m, out@) + pow2(i as nat)
                * b2n(lit_holds(m, c_out)) == decode_val(m, padded_a@.take(i as int)) + decode_val(
                m,
                padded_b@.take(i as int),
            ),
        decreases width - i,
    {
        let ghost s_before = *s;
        let ghost c_before = c_out;
        let ghost out_before = out@;
        let (sum, carry) = full_adder(s, padded_a[i], padded_b[i], c_out);
        out.push(sum);
        c_out = carry;
        proof {
            assert forall|m: Seq<bool>| #[trigger] s.models(m) implies decode_val(m, out@) + pow2(
                (i + 1) as nat,
            ) * b2n(lit_holds(m, c_out)) == decode_val(m, padded_a@.take(i + 1)) + decode_val(
                m,
                padded_b@.take(i + 1),
            ) by {
                lemma_models_monotone(*s, s_before, m);
                lemma_decode_push(m, out_before, sum);
                lemma_decode_take_step(m, padded_a@, i as int);
                lemma_decode_take_step(m, padded_b@, i as int);
                let p = pow2(i as nat);
                let bs = b2n(lit_holds(m, sum));
                let bc = b2n(lit_holds(m, carry));
                let ba = b2n(lit_holds(m, padded_a@[i as int]));
                let bb = b2n(lit_holds(m, padded_b@[i as int]));
                let bi = b2n(lit_holds(m, c_before));
                assert(bs + 2 * bc == ba + bb + bi);
                assert(pow2((i + 1) as nat) == 2 * p);
                assert(p * bs + (2 * p) * bc == p * ba + p * bb + p * bi) by (nonlinear_arith)
                    requires
                        bs + 2 * bc == ba + bb + bi,
                ;
            }
        }
        i = i + 1;
    }
    proof {
        assert(padded_a@.take(width as int) =~= padded_a@);
        assert(padded_b@.take(width as int) =~= padded_b@);
    }
    let ghost s_loop = *s;
    let ghost c_final = c_out;
    if out.len() < max_bits {
        let ghost out_before = out@;
        out.push(c_out);
        proof {
            assert forall|m: Seq<bool>| #[trigger] s.models(m) implies decode_val(m, out@)
                == decode_val(m, padded_a@) + decode_val(m, padded_b@) by {
                lemma_decode_push(m, out_before, c_final);
            }
        }
    } else {
        let nc = negated(c_out);
        s.add(nc);
        s.add(0);
        proof {
            lemma_extends_trans(*s, s_loop, s0);
            lemma_extends_grounded(*s, s_loop);
            let n = s.clauses@.len() as int;
            assert(s.clauses@[n - 1]@ =~= seq![nc]);
            assert forall|m: Seq<bool>| #[trigger] s.models(m) implies decode_val(m, out@)
                == decode_val(m, padded_a@) + decode_val(m, padded_b@) by {
                lemma_models_monotone(*s, s_loop, m);
                assert(clause_holds(m, s.clauses@[n - 1]@));
                assert(lit_holds(m, nc));
                lemma_lit_negated(m, c_final, nc);
                assert(pow2(width as nat) * b2n(false) == 0) by (nonlinear_arith);
            }
        }
    }
    proof {
        assert forall|m: Seq<bool>| #[trigger] s.models(m) implies decode_val(m, out@)
            == decode_val(m, a@) + decode_val(m, b@) by {
            lemma_models_monotone(*s, s0, m);
            lemma_grounded_holds(s0, m);
            assert forall|j: int| a@.len() <= j < padded_a@.len() implies !lit_holds(
                m,
                #[trigger] padded_a@[j],
            ) by {}
            lemma_decode_padded(m, padded_a@, a@.len() as int);
            lemma_decode_padded(m, padded_b@, b@.len() as int);
        }
    }
    out
}

/// Law for the capped adder: the decoded sum always fits the output's width, so
/// operands forced to exceed it leave no model at all — the oracle reports the
/// branch unsatisfiable rather than truncating silently.
pub proof fn lemma_capped_sum_fits(m: Seq<bool>, out: Seq<i32>, a: Seq<i32>, b: Seq<i32>)
    requires
        decode_val(m, out) == decode_val(m, a) + decode_val(m, b),
    ensures
        decode_val(m, a) + decode_val(m, b) < pow2(out.len()),
{
    lemma_decode_bound(m, out);
}

/// Combine a list of numbers by balanced recursive doubling: split at the
/// smallest power of two at least half the count, combine each side, then add
/// the two results, keeping the adder-chain depth logarithmic. Under every model
/// the output decodes to the exact arithmetic sum of all the inputs.
pub fn recursive_adder(s: &mut Solver, numbers: &[Vec<i32>], max_bits: usize) -> (out: Vec<i32>)
    requires
        old(s).wf(),
        old(s).grounded(),
        old(s).pending@.len() == 0,
        numbers@.len() >= 1,
        forall|i: int|
            0 <= i < numbers@.len() ==> clause_in_range(
                (#[trigger] numbers@[i])@,
                old(s).literals,
            ),
        old(s).literals + radd_lits(lens_of(numbers@), max_bits as nat) <= MAX_LITERALS,
    ensures
        final(s).wf(),
        final(s).grounded(),
        final(s).extends(*old(s)),
        final(s).pending@.len() == 0,
        final(s).assumptions == old(s).assumptions,
        final(s).literals == old(s).literals + radd_lits(lens_of(numbers@), max_bits as nat),
        out@.len() == radd_len(lens_of(numbers@), max_bits as nat),
        clause_in_range(out@, final(s).literals),
        forall|m: Seq<bool>| #[trigger] final(s).models(m) ==> decode_val(m, out@) == sum_decode(
            m,
            numbers@,
        ),
    decreases numbers@.len(),
{
    if numbers.len() == 1 {
        let first = &numbers[0];
        let mut out: Vec<i32> = Vec::new();
        let mut j: usize = 0;
        while j < first.len()
            invariant
                j <= first@.len(),
                out@ == first@.take(j as int),
            decreases first@.len() - j,
        {
            out.push(first[j]);
            proof {
                assert(first@.take(j + 1) =~= first@.take(j as int).push(first@[j as int]));
            }
            j = j + 1;
        }
        proof {
            assert(first@.take(first@.len() as int) =~= first@);
            assert(numbers@.skip(1) =~= Seq::<Vec<i32>>::empty());
            assert(lens_of(numbers@).len() == 1);
            assert forall|m: Seq<bool>| #[trigger] s.models(m) implies decode_val(m, out@)
                == sum_decode(m, numbers@) by {
                assert(sum_decode(m, numbers@) == decode_val(m, numbers@[0]@) + sum_decode(
                    m,
                    numbers@.skip(1),
                ));
                assert(sum_decode(m, numbers@.skip(1)) == 0);
            }
        }
        out
    } else if numbers.len() == 2 {
        proof {
            assert(lens_of(numbers@).len() == 2);
        }
        let out = ripple_carry_adder(s, &numbers[0], &numbers[1], max_bits);
        proof {
            assert forall|m: Seq<bool>| #[trigger] s.models(m) implies decode_val(m, out@)
                == sum_decode(m, numbers@) by {
                let rest = numbers@.skip(1);
                assert(rest.skip(1) =~= Seq::<Vec<i32>>::empty());
                assert(rest[0] == numbers@[1]);
                assert(sum_decode(m, numbers@) == decode_val(m, numbers@[0]@) + sum_decode(
                    m,
                    rest,
                ));
                assert(sum_decode(m, rest) == decode_val(m, rest[0]@) + sum_decode(
                    m,
                    rest.skip(1),
                ));
                assert(sum_decode(m, rest.skip(1)) == 0);
            }
        }
        out
    } else {
        let ghost s0 = *s;
        proof {
            lemma_split_point(numbers@.len() as nat);
            lemma_log2_ceil_bounds((numbers@.len() / 2) as nat);
        }
        let half = round_up_to_power_of_2(numbers.len() / 2);
        proof {
            assert(half as int == split_point(numbers@.len() as nat));
            assert(lens_of(numbers@.subrange(0, half as int)) =~= lens_of(numbers@).take(
                half as int,
            ));
            assert(lens_of(numbers@.subrange(half as int, numbers@.len() as int)) =~= lens_of(
                numbers@,
            ).skip(half as int));
        }
        let left_numbers = vstd::slice::slice_subrange(numbers, 0, half);
        let right_numbers = vstd::slice::slice_subrange(numbers, half, numbers.len());
        let left = recursive_adder(s, left_numbers, max_bits);
        let ghost s1 = *s;
        let right = recursive_adder(s, right_numbers, max_bits);
        let ghost s2 = *s;
        proof {
            crate::solver::lemma_solver_widen(s1, s2.literals);
        }
        let out = ripple_carry_adder(s, &left, &right, max_bits);
        proof {
            lemma_extends_trans(*s, s2, s1);
            lemma_extends_trans(*s, s1, s0);
            assert forall|m: Seq<bool>| #[trigger] s.models(m) implies decode_val(m, out@)
                == sum_decode(m, numbers@) by {
                lemma_models_monotone(*s, s2, m);
                lemma_models_monotone(*s, s1, m);
                lemma_sum_decode_split(m, numbers@, half as int);
            }
        }
        out
    }
}

/// The parallel population counter: pair the inputs into two-bit partial sums by
/// half adders (an odd leftover input becomes its own one-bit number), then
/// combine the list by balanced recursive doubling, capped at the count's width.
/// Under every model the output decodes to exactly how many inputs are true.
pub fn counter(s: &mut Solver, bits: &Vec<i32>) -> (out: Vec<i32>)
    requires
        old(s).wf(),
        old(s).grounded(),
        old(s).pending@.len() == 0,
        bits@.len() >= 1,
        clause_in_range(bits@, old(s).literals),
        old(s).literals + counter_lits(bits@.len()) <= MAX_LITERALS,
    ensures
        final(s).wf(),
        final(s).grounded(),
        final(s).extends(*old(s)),
        final(s).pending@.len() == 0,
        final(s).assumptions == old(s).assumptions,
        final(s).literals == old(s).literals + counter_lits(bits@.len()),
        out@.len() == counter_len(bits@.len()),
        clause_in_range(out@, final(s).literals),
        forall|m: Seq<bool>| #[trigger] final(s).models(m) ==> decode_val(m, out@) == count_true(
            m,
            bits@,
        ),
{
    let ghost s0 = *s;
    let n = bits.len();
    let max_bits = log2_ceil(n);
    let mut numbers: Vec<Vec<i32>> = Vec::new();
    let mut i: usize = 0;
    proof {
        assert(bits@.take(0) =~= Seq::<i32>::empty());
    }
    while i + 1 < n
        invariant
            s.wf(),
            s.grounded(),
            s.extends(s0),
            s.pending@.len() == 0,
            s.assumptions == s0.assumptions,
            s0.grounded(),
            n == bits@.len(),
            i <= n,
            i % 2 == 0,
            numbers@.len() == i / 2,
            clause_in_range(bits@, s0.literals),
            s0.literals + counter_lits(bits@.len()) <= MAX_LITERALS,
            s.literals == s0.literals + 2 * (i / 2),
            forall|k: int|
                0 <= k < numbers@.len() ==> (#[trigger] numbers@[k])@.len() == 2
                    && clause_in_range(numbers@[k]@, s.literals),
            forall|m: Seq<bool>| #[trigger] s.models(m) ==> sum_decode(m, numbers@) == count_true(
                m,
                bits@.take(i as int),
            ),
        decreases n - i,
    {
        let ghost s_before = *s;
        let ghost numbers_before = numbers@;
        let (sum, carry) = half_adder(s, bits[i], bits[i + 1]);
        let mut pair: Vec<i32> = Vec::new();
        pair.push(sum);
        pair.push(carry);
        let ghost pair_snapshot = pair;
        numbers.push(pair);
        proof {
            assert(pair_snapshot@ =~= seq![sum, carry]);
            assert forall|m: Seq<bool>| #[trigger] s.models(m) implies sum_decode(m, numbers@)
                == count_true(m, bits@.take(i + 2)) by {
                lemma_models_monotone(*s, s_before, m);
                lemma_sum_decode_push(m, numbers_before, pair_snapshot);
                lemma_count_take_step(m, bits@, i as int);
                lemma_count_take_step(m, bits@, i + 1);
                assert(pair_snapshot@.drop_last() =~= seq![sum]);
                assert(seq![sum].drop_last() =~= Seq::<i32>::empty());
                assert(seq![sum].last() == sum);
                assert(decode_val(m, Seq::<i32>::empty()) == 0);
                assert(decode_val(m, seq![sum]) == b2n(lit_holds(m, sum)));
                assert(decode_val(m, pair_snapshot@) == b2n(lit_holds(m, sum)) + 2 * b2n(
                    lit_holds(m, carry),
                ));
            }
        }
        i = i + 2;
    }
    if i < n {
        let ghost s_before = *s;
        let ghost numbers_before = numbers@;
        let mut single: Vec<i32> = Vec::new();
        single.push(bits[i]);
        let ghost single_snapshot = single;
        numbers.push(single);
        proof {
            assert(single_snapshot@ =~= seq![bits@[i as int]]);
            assert forall|m: Seq<bool>| #[trigger] s.models(m) implies sum_decode(m, numbers@)
                == count_true(m, bits@.take(i + 1)) by {
                lemma_sum_decode_push(m, numbers_before, single_snapshot);
                lemma_count_take_step(m, bits@, i as int);
                assert(single_snapshot@.drop_last() =~= Seq::<i32>::empty());
                assert(single_snapshot@.last() == bits@[i as int]);
                assert(decode_val(m, Seq::<i32>::empty()) == 0);
                assert(pow2(0) == 1);
                assert(decode_val(m, single_snapshot@) == decode_val(m, Seq::<i32>::empty()) + pow2(
                    0,
                ) * b2n(lit_holds(m, single_snapshot@.last())));
                assert(decode_val(m, single_snapshot@) == b2n(lit_holds(m, bits@[i as int])));
            }
        }
        i = i + 1;
    }
    proof {
        assert(bits@.take(bits@.len() as int) =~= bits@);
        assert(lens_of(numbers@) =~= chunk_lens(bits@.len()));
        assert(max_bits as nat == log2_ceil_spec(bits@.len()));
    }
    let ghost s_mid = *s;
    let out = recursive_adder(s, numbers.as_slice(), max_bits);
    proof {
        lemma_extends_trans(*s, s_mid, s0);
        assert forall|m: Seq<bool>| #[trigger] s.models(m) implies decode_val(m, out@)
            == count_true(m, bits@) by {
            lemma_models_monotone(*s, s_mid, m);
        }
    }
    out
}

/// The smallest exponent whose power of two reaches `n`.
fn log2_ceil(n: usize) -> (r: usize)
    ensures
        r as nat == log2_ceil_spec(n as nat),
        r <= n,
    decreases n,
{
    if n <= 1 {
        0
    } else {
        let k = n / 2 + n % 2;
        proof {
            assert(k as int == (n as int + 1) / 2);
        }
        1 + log2_ceil(k)
    }
}

/// The smallest power of two at or above `n`.
fn round_up_to_power_of_2(n: usize) -> (r: usize)
    requires
        pow2(log2_ceil_spec(n as nat)) <= usize::MAX,
    ensures
        r as nat == pow2(log2_ceil_spec(n as nat)),
{
    let e = log2_ceil(n);
    let mut r: usize = 1;
    let mut j: usize = 0;
    while j < e
        invariant
            j <= e,
            r as nat == pow2(j as nat),
            e as nat == log2_ceil_spec(n as nat),
            pow2(e as nat) <= usize::MAX,
        decreases e - j,
    {
        proof {
            lemma_pow2_monotone((j + 1) as nat, e as nat);
        }
        r = r * 2;
        j = j + 1;
    }
    r
}

} // verus!
