use vstd::prelude::*;

use rand::Rng;

use crate::arithmetic::{counter, counter_len, counter_lits};
use crate::binary::{decode_val, Binary};
use crate::formula::Formula;
use crate::logic::less_than;
use crate::solver::{
    clause_holds, clause_in_range, lemma_extends_grounded, lemma_extends_trans, lemma_lit_negated,
    lemma_models_monotone, lit_holds, lit_in_range, literal_truth, negated, Solver, MAX_LITERALS,
};

verus! {

#[verifier::external_type_specification]
#[verifier::external_body]
pub struct ExSmallRng(rand::rngs::SmallRng);

/// Relies on rand::Rng::gen with the standard distribution on bool; nothing is
/// promised of the value drawn.
#[verifier::external_body]
fn random_bool(random: &mut rand::rngs::SmallRng) -> bool {
    random.gen()
}

/// The reduction engine: composes the counters and comparators into the two
/// cardinality constraints of the bounded local search, and owns the random
/// source that seeds the first iteration.
pub struct Reduction<'a> {
    pub formula: &'a Formula,
    pub random: rand::rngs::SmallRng,
}

impl<'a> Reduction<'a> {
    /// The random source is supplied by the caller, so runs are reproducible.
    pub fn new(formula: &'a Formula, random: rand::rngs::SmallRng) -> (r: Reduction<'a>)
        ensures
            r.formula == formula,
    {
        Reduction { formula, random }
    }

    /// Append one fresh "unsatisfied indicator" literal to every formula clause
    /// and commit the augmented clauses: an indicator being false forces its
    /// clause to be satisfied on its own.
    pub fn add_clauses_with_unsat_literals(&self, s: &mut Solver) -> (out: Vec<i32>)
        requires
            old(s).wf(),
            old(s).pending@.len() == 0,
            self.formula.wf(),
            self.formula.num_vars <= old(s).literals,
            old(s).literals + self.formula.clauses@.len() <= MAX_LITERALS,
        ensures
            final(s).wf(),
            final(s).extends(*old(s)),
            final(s).pending@.len() == 0,
            final(s).assumptions == old(s).assumptions,
            final(s).literals == old(s).literals + self.formula.clauses@.len(),
            old(s).grounded() ==> final(s).grounded(),
            out@.len() == self.formula.clauses@.len(),
            forall|i: int| 0 <= i < out@.len() ==> #[trigger] out@[i] as int == old(s).literals + 1 + i,
            clause_in_range(out@, final(s).literals),
            forall|m: Seq<bool>, i: int|
                #[trigger] final(s).models(m) && 0 <= i < out@.len() && !lit_holds(
                    m,
                    #[trigger] out@[i],
                ) ==> clause_holds(m, self.formula.clauses@[i]@),
    {
        let ghost s0 = *s;
        let mut out: Vec<i32> = Vec::new();
        let mut i: usize = 0;
        while i < self.formula.clauses.len()
            invariant
                s.wf(),
                s.extends(s0),
                s.pending@.len() == 0,
                s.assumptions == s0.assumptions,
                s0.grounded() ==> s.grounded(),
                self.formula.wf(),
                self.formula.num_vars <= s0.literals,
                s0.literals + self.formula.clauses@.len() <= MAX_LITERALS,
                i <= self.formula.clauses@.len(),
                s.literals == s0.literals + i,
                out@.len() == i,
                forall|j: int| 0 <= j < i ==> #[trigger] out@[j] as int == s0.literals + 1 + j,
                clause_in_range(out@, s.literals),
                forall|m: Seq<bool>, j: int|
                    #[trigger] s.models(m) && 0 <= j < i && !lit_holds(m, #[trigger] out@[j])
                        ==> clause_holds(m, self.formula.clauses@[j]@),
            decreases self.formula.clauses@.len() - i,
        {
            let ghost s_top = *s;
            let unsat_literal = s.new_literal();
            let clause = &self.formula.clauses[i];
            let mut augmented: Vec<i32> = Vec::new();
            let mut j: usize = 0;
            while j < clause.len()
                invariant
                    j <= clause@.len(),
                    augmented@ == clause@.take(j as int),
                decreases clause@.len() - j,
            {
                augmented.push(clause[j]);
                proof {
                    assert(clause@.take(j + 1) =~= clause@.take(j as int).push(
                        clause@[j as int],
                    ));
                }
                j = j + 1;
            }
            proof {
                assert(clause@.take(clause@.len() as int) =~= clause@);
            }
            augmented.push(unsat_literal);
            let ghost out_before = out@;
            let ghost s_mid = *s;
            s.add_clause(&augmented);
            proof {
                lemma_extends_trans(*s, s_mid, s_top);
                lemma_extends_trans(*s, s_top, s0);
                if s0.grounded() {
                    lemma_extends_grounded(*s, s0);
                }
            }
            out.push(unsat_literal);
            proof {
                let ghost n = s.clauses@.len() - 1;
                assert(s.clauses@[n]@ == clause@.push(unsat_literal));
                assert forall|m: Seq<bool>, k: int|
                    #[trigger] s.models(m) && 0 <= k < i + 1 && !lit_holds(
                        m,
                        #[trigger] out@[k],
                    ) implies clause_holds(m, self.formula.clauses@[k]@) by {
                    lemma_models_monotone(*s, s_mid, m);
                    lemma_models_monotone(s_mid, s_top, m);
                    if k < i {
                        assert(out@[k] == out_before[k]);
                        assert(s_top.models(m) && 0 <= k < i && !lit_holds(m, out_before[k]));
                    } else {
                        assert(k == i);
                        assert(out@[k] == unsat_literal);
                        assert(clause_holds(m, s.clauses@[n]@));
                        let w = choose|w: int|
                            0 <= w < s.clauses@[n]@.len() && lit_holds(m, s.clauses@[n]@[w]);
                        if w == clause@.len() {
                            assert(s.clauses@[n]@[w] == unsat_literal);
                            assert(false);
                        }
                        assert(0 <= w < clause@.len());
                        assert(s.clauses@[n]@[w] == clause@[w]);
                        assert(clause@ == self.formula.clauses@[k]@);
                        assert(lit_holds(m, self.formula.clauses@[k]@[w]));
                    }
                }
            }
            i = i + 1;
        }
        out
    }

    /// Count, as a bit-vector, how many indicator literals are true.
    pub fn count_unsatisfied_clauses(&self, s: &mut Solver, unsats: &Vec<i32>) -> (out: Vec<i32>)
        requires
            old(s).wf(),
            old(s).grounded(),
            old(s).pending@.len() == 0,
            unsats@.len() >= 1,
            clause_in_range(unsats@, old(s).literals),
            old(s).literals + counter_lits(unsats@.len()) <= MAX_LITERALS,
        ensures
            final(s).wf(),
            final(s).grounded(),
            final(s).extends(*old(s)),
            final(s).pending@.len() == 0,
            final(s).assumptions == old(s).assumptions,
            final(s).literals == old(s).literals + counter_lits(unsats@.len()),
            out@.len() == counter_len(unsats@.len()),
            clause_in_range(out@, final(s).literals),
            forall|m: Seq<bool>| #[trigger] final(s).models(m) ==> decode_val(m, out@)
                == crate::binary::count_true(m, unsats@),
    {
        counter(s, unsats)
    }

    /// Assert, by a permanent clause on the comparator's output, that the first
    /// bit-vector's value stays strictly below the second's under every model.
    pub fn must_be_less_than(&self, s: &mut Solver, number: &Vec<i32>, threshold: &Vec<i32>)
        requires
            old(s).wf(),
            old(s).grounded(),
            old(s).pending@.len() == 0,
            number@.len() == threshold@.len(),
            clause_in_range(number@, old(s).literals),
            clause_in_range(threshold@, old(s).literals),
            old(s).literals + 4 * number@.len() <= MAX_LITERALS,
        ensures
            final(s).wf(),
            final(s).grounded(),
            final(s).extends(*old(s)),
            final(s).pending@.len() == 0,
            final(s).assumptions == old(s).assumptions,
            final(s).literals == old(s).literals + 4 * number@.len(),
            forall|m: Seq<bool>| #[trigger] final(s).models(m) ==> decode_val(m, number@)
                < decode_val(m, threshold@),
    {
        let ghost s0 = *s;
        let smaller = less_than(s, number, threshold);
        let ghost s_mid = *s;
        s.add(smaller);
        s.add(0);
        proof {
            lemma_extends_trans(*s, s_mid, s0);
            lemma_extends_grounded(*s, s_mid);
            let n = s.clauses@.len() - 1;
            assert(s.clauses@[n]@ =~= seq![smaller]);
            assert forall|m: Seq<bool>| #[trigger] s.models(m) implies decode_val(m, number@)
                < decode_val(m, threshold@) by {
                lemma_models_monotone(*s, s_mid, m);
                assert(clause_holds(m, s.clauses@[n]@));
                assert(lit_holds(m, smaller));
            }
        }
    }

    /// Allocate one fresh "assignment" literal per formula variable: the
    /// candidate solution's own decision variables.
    pub fn generate_one_literal_per_literal(&self, s: &mut Solver) -> (out: Vec<i32>)
        requires
            old(s).wf(),
            old(s).literals + self.formula.num_vars <= MAX_LITERALS,
        ensures
            final(s).wf(),
            final(s).extends(*old(s)),
            final(s).clauses == old(s).clauses,
            final(s).pending == old(s).pending,
            final(s).assumptions == old(s).assumptions,
            final(s).literals == old(s).literals + self.formula.num_vars,
            out@.len() == self.formula.num_vars,
            forall|i: int| 0 <= i < out@.len() ==> #[trigger] out@[i] as int == old(s).literals + 1 + i,
            clause_in_range(out@, final(s).literals),
    {
        Binary::of_length(s, self.formula.num_vars as usize)
    }

    /// For each formula variable, a fresh "flip indicator" forced true whenever
    /// the assignment literal disagrees with the variable's value in the model:
    /// an indicator being false forces agreement.
    pub fn add_clauses_that_capture_flips(&self, s: &mut Solver, assignments: &Vec<i32>) -> (out:
        Vec<i32>)
        requires
            old(s).wf(),
            old(s).pending@.len() == 0,
            self.formula.wf(),
            assignments@.len() == self.formula.num_vars,
            self.formula.num_vars <= old(s).literals,
            clause_in_range(assignments@, old(s).literals),
            old(s).literals + self.formula.num_vars <= MAX_LITERALS,
        ensures
            final(s).wf(),
            final(s).extends(*old(s)),
            final(s).pending@.len() == 0,
            final(s).assumptions == old(s).assumptions,
            old(s).grounded() ==> final(s).grounded(),
            final(s).literals == old(s).literals + self.formula.num_vars,
            out@.len() == self.formula.num_vars,
            forall|i: int| 0 <= i < out@.len() ==> #[trigger] out@[i] as int == old(s).literals + 1 + i,
            clause_in_range(out@, final(s).literals),
            forall|m: Seq<bool>, i: int|
                #[trigger] final(s).models(m) && 0 <= i < out@.len() && !lit_holds(
                    m,
                    #[trigger] out@[i],
                ) ==> lit_holds(m, assignments@[i]) == lit_holds(m, (i + 1) as i32),
    {
        let ghost s0 = *s;
        let mut out: Vec<i32> = Vec::new();
        let mut i: usize = 0;
        while i < assignments.len()
            invariant
                s.wf(),
                s.extends(s0),
                s.pending@.len() == 0,
                s.assumptions == s0.assumptions,
                s0.grounded() ==> s.grounded(),
                assignments@.len() == self.formula.num_vars,
                self.formula.num_vars <= s0.literals,
                clause_in_range(assignments@, s0.literals),
                s0.literals + self.formula.num_vars <= MAX_LITERALS,
                i <= assignments@.len(),
                s.literals == s0.literals + i,
                out@.len() == i,
                forall|j: int| 0 <= j < i ==> #[trigger] out@[j] as int == s0.literals + 1 + j,
                clause_in_range(out@, s.literals),
                forall|m: Seq<bool>, j: int|
                    #[trigger] s.models(m) && 0 <= j < i && !lit_holds(m, #[trigger] out@[j])
                        ==> lit_holds(m, assignments@[j]) == lit_holds(m, (j + 1) as i32),
            decreases assignments@.len() - i,
        {
            let ghost s_top = *s;
            let is_flipped = s.new_literal();
            let assignment = assignments[i];
            let formula_literal = (i as i32) + 1;
            let not_assignment = negated(assignment);
            let not_formula = negated(formula_literal);

            // If the variable is assumed true, either the literal is true or it
            // has been flipped (and the same the other way around).
            s.add(not_assignment);
            s.add(formula_literal);
            s.add(is_flipped);
            s.add(0);
            s.add(assignment);
            s.add(not_formula);
            s.add(is_flipped);
            s.add(0);

            out.push(is_flipped);
            proof {
                lemma_extends_trans(*s, s_top, s0);
                if s0.grounded() {
                    lemma_extends_grounded(*s, s0);
                }
                let n = s.clauses@.len() as int;
                assert(s.clauses@[n - 2]@ =~= seq![not_assignment, formula_literal, is_flipped]);
                assert(s.clauses@[n - 1]@ =~= seq![assignment, not_formula, is_flipped]);
                assert forall|m: Seq<bool>, k: int|
                    #[trigger] s.models(m) && 0 <= k < i + 1 && !lit_holds(
                        m,
                        #[trigger] out@[k],
                    ) implies lit_holds(m, assignments@[k]) == lit_holds(m, (k + 1) as i32) by {
                    lemma_models_monotone(*s, s_top, m);
                    if k < i {
                        assert(s_top.models(m) && 0 <= k < i && !lit_holds(m, out@[k]));
                    } else {
                        assert(clause_holds(m, s.clauses@[n - 2]@));
                        assert(clause_holds(m, s.clauses@[n - 1]@));
                        lemma_lit_negated(m, assignment, not_assignment);
                        lemma_lit_negated(m, formula_literal, not_formula);
                        assert(lit_holds(m, not_assignment) || lit_holds(m, formula_literal)
                            || lit_holds(m, is_flipped));
                        assert(lit_holds(m, assignment) || lit_holds(m, not_formula) || lit_holds(
                            m,
                            is_flipped,
                        ));
                    }
                }
            }
            i = i + 1;
        }
        out
    }

    /// Count, as a bit-vector, how many flip indicators are true.
    pub fn count_flipped_literals(&self, s: &mut Solver, flips: &Vec<i32>) -> (out: Vec<i32>)
        requires
            old(s).wf(),
            old(s).grounded(),
            old(s).pending@.len() == 0,
            flips@.len() >= 1,
            clause_in_range(flips@, old(s).literals),
            old(s).literals + counter_lits(flips@.len()) <= MAX_LITERALS,
        ensures
            final(s).wf(),
            final(s).grounded(),
            final(s).extends(*old(s)),
            final(s).pending@.len() == 0,
            final(s).assumptions == old(s).assumptions,
            final(s).literals == old(s).literals + counter_lits(flips@.len()),
            out@.len() == counter_len(flips@.len()),
            clause_in_range(out@, final(s).literals),
            forall|m: Seq<bool>| #[trigger] final(s).models(m) ==> decode_val(m, out@)
                == crate::binary::count_true(m, flips@),
    {
        counter(s, flips)
    }

    /// Seed the search: assume each assignment literal true or false by a fair
    /// coin, one one-shot assumption per variable.
    pub fn start_by_assuming_random_assignments(&mut self, s: &mut Solver, assignments: &Vec<i32>)
        requires
            old(s).wf(),
            clause_in_range(assignments@, old(s).literals),
        ensures
            final(self).formula == old(self).formula,
            final(s).wf(),
            final(s).extends(*old(s)),
            final(s).literals == old(s).literals,
            final(s).clauses == old(s).clauses,
            final(s).pending == old(s).pending,
            final(s).assumptions@.len() == old(s).assumptions@.len() + assignments@.len(),
            forall|i: int|
                0 <= i < old(s).assumptions@.len() ==> #[trigger] final(s).assumptions@[i] == old(
                    s,
                ).assumptions@[i],
            forall|i: int|
                0 <= i < assignments@.len() ==> #[trigger] final(s).assumptions@[old(
                    s,
                ).assumptions@.len() + i] == assignments@[i] || final(s).assumptions@[old(
                    s,
                ).assumptions@.len() + i] as int == -(assignments@[i] as int),
    {
        let ghost s0 = *s;
        let ghost formula_snapshot = self.formula;
        let mut i: usize = 0;
        while i < assignments.len()
            invariant
                self.formula == formula_snapshot,
                s.wf(),
                s.extends(s0),
                s.literals == s0.literals,
                s.clauses == s0.clauses,
                s.pending == s0.pending,
                clause_in_range(assignments@, s0.literals),
                i <= assignments@.len(),
                s.assumptions@.len() == s0.assumptions@.len() + i,
                forall|j: int|
                    0 <= j < s0.assumptions@.len() ==> #[trigger] s.assumptions@[j]
                        == s0.assumptions@[j],
                forall|j: int|
                    0 <= j < i ==> #[trigger] s.assumptions@[s0.assumptions@.len() + j]
                        == assignments@[j] || s.assumptions@[s0.assumptions@.len() + j] as int == -(
                    assignments@[j] as int),
            decreases assignments@.len() - i,
        {
            let boolean = random_bool(&mut self.random);
            let literal = if boolean {
                assignments[i]
            } else {
                negated(assignments[i])
            };
            s.assume_literal(literal);
            i = i + 1;
        }
    }

    /// Continue from where the search left off: assume every assignment literal
    /// with the polarity its variable takes in the model just found.
    pub fn set_assignments_to_those_of_the_solution(
        &self,
        s: &mut Solver,
        assignments: &Vec<i32>,
        model: &Vec<bool>,
    )
        requires
            old(s).wf(),
            clause_in_range(assignments@, old(s).literals),
            assignments@.len() == self.formula.num_vars,
            self.formula.num_vars <= old(s).literals,
            old(s).literals <= model@.len(),
        ensures
            final(s).wf(),
            final(s).extends(*old(s)),
            final(s).literals == old(s).literals,
            final(s).clauses == old(s).clauses,
            final(s).pending == old(s).pending,
            final(s).assumptions@.len() == old(s).assumptions@.len() + assignments@.len(),
            forall|i: int|
                0 <= i < old(s).assumptions@.len() ==> #[trigger] final(s).assumptions@[i] == old(
                    s,
                ).assumptions@[i],
            forall|i: int|
                0 <= i < assignments@.len() ==> #[trigger] final(s).assumptions@[old(
                    s,
                ).assumptions@.len() + i] as int == (if lit_holds(model@, (i + 1) as i32) {
                    assignments@[i] as int
                } else {
                    -(assignments@[i] as int)
                }),
    {
        let ghost s0 = *s;
        let mut i: usize = 0;
        while i < assignments.len()
            invariant
                s.wf(),
                s.extends(s0),
                s.literals == s0.literals,
                s.clauses == s0.clauses,
                s.pending == s0.pending,
                clause_in_range(assignments@, s0.literals),
                assignments@.len() == self.formula.num_vars,
                self.formula.num_vars <= s0.literals,
                s0.literals <= model@.len(),
                i <= assignments@.len(),
                s.assumptions@.len() == s0.assumptions@.len() + i,
                forall|j: int|
                    0 <= j < s0.assumptions@.len() ==> #[trigger] s.assumptions@[j]
                        == s0.assumptions@[j],
                forall|j: int|
                    0 <= j < i ==> #[trigger] s.assumptions@[s0.assumptions@.len() + j] as int == (
                    if lit_holds(model@, (j + 1) as i32) {
                        assignments@[j] as int
                    } else {
                        -(assignments@[j] as int)
                    }),
            decreases assignments@.len() - i,
        {
            let formula_literal = (i as i32) + 1;
            let boolean = literal_truth(model, formula_literal);
            let literal = if boolean {
                assignments[i]
            } else {
                negated(assignments[i])
            };
            s.assume_literal(literal);
            i = i + 1;
        }
    }
}

/// Law: with the unsatisfied-count comparator asserted as a permanent clause and
/// the limit assumed equal to the previous count, every model that honours the
/// assumptions decodes a strictly smaller count — progress or termination, never
/// regression.
pub proof fn lemma_strict_improvement(
    s: Solver,
    m: Seq<bool>,
    number: Seq<i32>,
    limit: Seq<i32>,
    threshold: nat,
)
    requires
        forall|m2: Seq<bool>| #[trigger] s.models(m2) ==> decode_val(m2, number) < decode_val(
            m2,
            limit,
        ),
        forall|m2: Seq<bool>| #[trigger] s.models_assumed(m2) ==> decode_val(m2, limit)
            == threshold,
        s.models_assumed(m),
    ensures
        decode_val(m, number) < threshold,
{
}

/// Law: once the flip comparator stands and its limit is permanently fixed to
/// `k + 1`, the decoded flip count never exceeds the supplied budget `k` under
/// any model.
pub proof fn lemma_flip_budget(s: Solver, m: Seq<bool>, number: Seq<i32>, limit: Seq<i32>, k: nat)
    requires
        forall|m2: Seq<bool>| #[trigger] s.models(m2) ==> decode_val(m2, number) < decode_val(
            m2,
            limit,
        ),
        forall|m2: Seq<bool>| #[trigger] s.models(m2) ==> decode_val(m2, limit) == k + 1,
        s.models(m),
    ensures
        decode_val(m, number) <= k,
{
}

/// Law: a run of strictly decreasing unsatisfied-clause counts holds at most one
/// more entry than its first value, so the loop converges within the initial
/// count plus one satisfiable iterations.
pub proof fn lemma_iteration_bound(counts: Seq<nat>)
    requires
        counts.len() >= 1,
        forall|i: int| 1 <= i < counts.len() ==> #[trigger] counts[i] < counts[i - 1],
    ensures
        counts.len() <= counts[0] + 1,
    decreases counts.len(),
{
    if counts.len() >= 2 {
        let rest = counts.skip(1);
        assert forall|i: int| 1 <= i < rest.len() implies #[trigger] rest[i] < rest[i - 1] by {
            assert(counts[i + 1] < counts[i]);
        }
        lemma_iteration_bound(rest);
        assert(rest[0] == counts[1]);
        assert(counts[1] < counts[0]);
    }
}

} // verus!
