use vstd::prelude::*;

use crate::binary::{
    b2n, decode_val, lemma_decode_bound, lemma_decode_take_step, lemma_pow2_pos, pow2,
};
use crate::solver::{
    clause_holds, clause_in_range, lemma_extends_grounded, lemma_extends_trans, lemma_lit_negated,
    lemma_models_monotone, lit_holds, lit_in_range, negated, Solver, MAX_LITERALS,
};

verus! {

/// The shape every gate shares: one fresh output literal is allocated, the
/// clause base grows, and nothing else about the solver changes.
pub open spec fn gate_step(post: Solver, pre: Solver, out: i32) -> bool {
    &&& post.wf()
    &&& post.extends(pre)
    &&& post.pending@.len() == 0
    &&& post.assumptions == pre.assumptions
    &&& post.literals == pre.literals + 1
    &&& out as int == pre.literals + 1
    &&& 0 < out
    &&& lit_in_range(out, post.literals)
    &&& (pre.grounded() ==> post.grounded())
}

/// The Tseitin transformation for an AND gate: under every model of the grown
/// base, the fresh output is true exactly when both inputs are.
pub fn and(s: &mut Solver, a: i32, b: i32) -> (out: i32)
    requires
        old(s).wf(),
        old(s).pending@.len() == 0,
        old(s).literals < MAX_LITERALS,
        lit_in_range(a, old(s).literals),
        lit_in_range(b, old(s).literals),
    ensures
        gate_step(*final(s), *old(s), out),
        forall|m: Seq<bool>| #[trigger] final(s).models(m) ==> lit_holds(m, out) == (lit_holds(
            m,
            a,
        ) && lit_holds(m, b)),
{
    let ghost s0 = *s;
    let out = s.new_literal();
    let na = negated(a);
    let nb = negated(b);
    let no = negated(out);

    s.add(na);
    s.add(nb);
    s.add(out);
    s.add(0);
    s.add(a);
    s.add(no);
    s.add(0);
    s.add(b);
    s.add(no);
    s.add(0);

    proof {
        let n = s.clauses@.len() as int;
        assert(s.clauses@[n - 3]@ =~= seq![na, nb, out]);
        assert(s.clauses@[n - 2]@ =~= seq![a, no]);
        assert(s.clauses@[n - 1]@ =~= seq![b, no]);
        assert forall|m: Seq<bool>| #[trigger] s.models(m) implies lit_holds(m, out) == (lit_holds(
            m,
            a,
        ) && lit_holds(m, b)) by {
            assert(clause_holds(m, s.clauses@[n - 3]@));
            assert(clause_holds(m, s.clauses@[n - 2]@));
            assert(clause_holds(m, s.clauses@[n - 1]@));
            lemma_lit_negated(m, a, na);
            lemma_lit_negated(m, b, nb);
            lemma_lit_negated(m, out, no);
            assert(lit_holds(m, na) || lit_holds(m, nb) || lit_holds(m, out));
            assert(lit_holds(m, a) || lit_holds(m, no));
            assert(lit_holds(m, b) || lit_holds(m, no));
        }
        if s0.grounded() {
            lemma_extends_grounded(*s, s0);
        }
    }
    out
}

/// The Tseitin transformation for an OR gate.
pub fn or(s: &mut Solver, a: i32, b: i32) -> (out: i32)
    requires
        old(s).wf(),
        old(s).pending@.len() == 0,
        old(s).literals < MAX_LITERALS,
        lit_in_range(a, old(s).literals),
        lit_in_range(b, old(s).literals),
    ensures
        gate_step(*final(s), *old(s), out),
        forall|m: Seq<bool>| #[trigger] final(s).models(m) ==> lit_holds(m, out) == (lit_holds(
            m,
            a,
        ) || lit_holds(m, b)),
{
    let ghost s0 = *s;
    let out = s.new_literal();
    let na = negated(a);
    let nb = negated(b);
    let no = negated(out);

    s.add(a);
    s.add(b);
    s.add(no);
    s.add(0);
    s.add(na);
    s.add(out);
    s.add(0);
    s.add(nb);
    s.add(out);
    s.add(0);

    proof {
        let n = s.clauses@.len() as int;
        assert(s.clauses@[n - 3]@ =~= seq![a, b, no]);
        assert(s.clauses@[n - 2]@ =~= seq![na, out]);
        assert(s.clauses@[n - 1]@ =~= seq![nb, out]);
        assert forall|m: Seq<bool>| #[trigger] s.models(m) implies lit_holds(m, out) == (lit_holds(
            m,
            a,
        ) || lit_holds(m, b)) by {
            assert(clause_holds(m, s.clauses@[n - 3]@));
            assert(clause_holds(m, s.clauses@[n - 2]@));
            assert(clause_holds(m, s.clauses@[n - 1]@));
            lemma_lit_negated(m, a, na);
            lemma_lit_negated(m, b, nb);
            lemma_lit_negated(m, out, no);
            assert(lit_holds(m, a) || lit_holds(m, b) || lit_holds(m, no));
            assert(lit_holds(m, na) || lit_holds(m, out));
            assert(lit_holds(m, nb) || lit_holds(m, out));
        }
        if s0.grounded() {
            lemma_extends_grounded(*s, s0);
        }
    }
    out
}

/// The Tseitin transformation for an XNOR gate: the output is true exactly when
/// the two inputs agree.
pub fn equal(s: &mut Solver, a: i32, b: i32) -> (out: i32)
    requires
        old(s).wf(),
        old(s).pending@.len() == 0,
        old(s).literals < MAX_LITERALS,
        lit_in_range(a, old(s).literals),
        lit_in_range(b, old(s).literals),
    ensures
        gate_step(*final(s), *old(s), out),
        forall|m: Seq<bool>| #[trigger] final(s).models(m) ==> lit_holds(m, out) == (lit_holds(
            m,
            a,
        ) == lit_holds(m, b)),
{
    let ghost s0 = *s;
    let out = s.new_literal();
    let na = negated(a);
    let nb = negated(b);
    let no = negated(out);

    s.add(na);
    s.add(nb);
    s.add(out);
    s.add(0);
    s.add(a);
    s.add(b);
    s.add(out);
    s.add(0);
    s.add(a);
    s.add(nb);
    s.add(no);
    s.add(0);
    s.add(na);
    s.add(b);
    s.add(no);
    s.add(0);

    proof {
        let n = s.clauses@.len() as int;
        assert(s.clauses@[n - 4]@ =~= seq![na, nb, out]);
        assert(s.clauses@[n - 3]@ =~= seq![a, b, out]);
        assert(s.clauses@[n - 2]@ =~= seq![a, nb, no]);
        assert(s.clauses@[n - 1]@ =~= seq![na, b, no]);
        assert forall|m: Seq<bool>| #[trigger] s.models(m) implies lit_holds(m, out) == (lit_holds(
            m,
            a,
        ) == lit_holds(m, b)) by {
            assert(clause_holds(m, s.clauses@[n - 4]@));
            assert(clause_holds(m, s.clauses@[n - 3]@));
            assert(clause_holds(m, s.clauses@[n - 2]@));
            assert(clause_holds(m, s.clauses@[n - 1]@));
            lemma_lit_negated(m, a, na);
            lemma_lit_negated(m, b, nb);
            lemma_lit_negated(m, out, no);
            assert(lit_holds(m, na) || lit_holds(m, nb) || lit_holds(m, out));
            assert(lit_holds(m, a) || lit_holds(m, b) || lit_holds(m, out));
            assert(lit_holds(m, a) || lit_holds(m, nb) || lit_holds(m, no));
            assert(lit_holds(m, na) || lit_holds(m, b) || lit_holds(m, no));
        }
        if s0.grounded() {
            lemma_extends_grounded(*s, s0);
        }
    }
    out
}

/// A bitwise strict less-than comparator over two equal-length bit-vectors,
/// built from most-significant to least-significant bit: the returned literal is
/// true, under every model, exactly when the first operand's value is smaller.
pub fn less_than(s: &mut Solver, a: &Vec<i32>, b: &Vec<i32>) -> (out: i32)
    requires
        old(s).wf(),
        old(s).grounded(),
        old(s).pending@.len() == 0,
        a@.len() == b@.len(),
        clause_in_range(a@, old(s).literals),
        clause_in_range(b@, old(s).literals),
        old(s).literals + 4 * a@.len() <= MAX_LITERALS,
    ensures
        final(s).wf(),
        final(s).grounded(),
        final(s).extends(*old(s)),
        final(s).pending@.len() == 0,
        final(s).assumptions == old(s).assumptions,
        final(s).literals == old(s).literals + 4 * a@.len(),
        lit_in_range(out, final(s).literals),
        forall|m: Seq<bool>| #[trigger] final(s).models(m) ==> lit_holds(m, out) == (decode_val(
            m,
            a@,
        ) < decode_val(m, b@)),
{
    let ghost s0 = *s;
    let mut accumulated = s.false_literal;
    let mut i: usize = 0;
    proof {
        assert(a@.take(0) =~= Seq::<i32>::empty());
        assert(b@.take(0) =~= Seq::<i32>::empty());
        assert forall|m: Seq<bool>| #[trigger] s.models(m) implies lit_holds(m, accumulated) == (
        decode_val(m, a@.take(0)) < decode_val(m, b@.take(0))) by {
            crate::solver::lemma_grounded_holds(*s, m);
        }
    }
    while i < a.len()
        invariant
            s.wf(),
            s.grounded(),
            s.extends(s0),
            s.pending@.len() == 0,
            s.assumptions == s0.assumptions,
            s0.grounded(),
            i <= a@.len(),
            a@.len() == b@.len(),
            clause_in_range(a@, s0.literals),
            clause_in_range(b@, s0.literals),
            s0.literals + 4 * a@.len() <= MAX_LITERALS,
            s.literals == s0.literals + 4 * i,
            lit_in_range(accumulated, s.literals),
            forall|m: Seq<bool>| #[trigger] s.models(m) ==> lit_holds(m, accumulated) == (
            decode_val(m, a@.take(i as int)) < decode_val(m, b@.take(i as int))),
        decreases a@.len() - i,
    {
        let ghost s_before = *s;
        let ghost acc_before = accumulated;
        let not_a = negated(a[i]);
        let bit_less = and(s, not_a, b[i]);
        let ghost s1 = *s;
        let bit_same = equal(s, a[i], b[i]);
        let ghost s2 = *s;
        let rest_less = and(s, bit_same, accumulated);
        let ghost s3 = *s;
        accumulated = or(s, bit_less, rest_less);

        proof {
            lemma_extends_trans(*s, s3, s2);
            lemma_extends_trans(*s, s2, s1);
            lemma_extends_trans(*s, s1, s_before);
            lemma_extends_trans(*s, s_before, s0);
            assert forall|m: Seq<bool>| #[trigger] s.models(m) implies lit_holds(m, accumulated)
                == (decode_val(m, a@.take(i + 1)) < decode_val(m, b@.take(i + 1))) by {
                lemma_models_monotone(*s, s3, m);
                lemma_models_monotone(*s, s2, m);
                lemma_models_monotone(*s, s1, m);
                lemma_models_monotone(*s, s_before, m);
                lemma_lit_negated(m, a@[i as int], not_a);
                assert(lit_holds(m, bit_less) == (!lit_holds(m, a@[i as int]) && lit_holds(
                    m,
                    b@[i as int],
                )));
                assert(lit_holds(m, bit_same) == (lit_holds(m, a@[i as int]) == lit_holds(
                    m,
                    b@[i as int],
                )));
                assert(lit_holds(m, rest_less) == (lit_holds(m, bit_same) && lit_holds(
                    m,
                    acc_before,
                )));
                assert(lit_holds(m, accumulated) == (lit_holds(m, bit_less) || lit_holds(
                    m,
                    rest_less,
                )));
                lemma_decode_take_step(m, a@, i as int);
                lemma_decode_take_step(m, b@, i as int);
                lemma_decode_bound(m, a@.take(i as int));
                lemma_decode_bound(m, b@.take(i as int));
                lemma_pow2_pos(i as nat);
                assert(pow2(i as nat) * b2n(true) == pow2(i as nat)) by (nonlinear_arith);
                assert(pow2(i as nat) * b2n(false) == 0) by (nonlinear_arith);
            }
        }
        i = i + 1;
    }
    proof {
        assert(a@.take(a@.len() as int) =~= a@);
        assert(b@.take(b@.len() as int) =~= b@);
    }
    accumulated
}

} // verus!
