use rand::rngs::SmallRng;
use rand::SeedableRng;

use flipsat::binary::Binary;
use flipsat::formula::Formula;
use flipsat::output::Output;
use flipsat::reduction::Reduction;
use flipsat::solver::Solver;

/// A tiny DPLL procedure over the solver's clause base, standing in for the
/// external oracle: unit propagation plus branching.
fn solve(num_literals: u32, clauses: &[Vec<i32>], assumptions: &[i32]) -> Option<Vec<bool>> {
    let mut assignment: Vec<Option<bool>> = vec![None; num_literals as usize + 1];
    for &literal in assumptions {
        if !set(&mut assignment, literal) {
            return None;
        }
    }
    dpll(&assignment, clauses)
}

fn set(assignment: &mut [Option<bool>], literal: i32) -> bool {
    let variable = literal.unsigned_abs() as usize;
    let value = literal > 0;
    match assignment[variable] {
        Some(existing) => existing == value,
        None => {
            assignment[variable] = Some(value);
            true
        }
    }
}

fn value_of(assignment: &[Option<bool>], literal: i32) -> Option<bool> {
    let variable = literal.unsigned_abs() as usize;
    assignment[variable].map(|value| value == (literal > 0))
}

fn dpll(assignment: &[Option<bool>], clauses: &[Vec<i32>]) -> Option<Vec<bool>> {
    let mut current = assignment.to_vec();
    loop {
        let mut changed = false;
        for clause in clauses {
            let mut satisfied = false;
            let mut unassigned: Vec<i32> = vec![];
            for &literal in clause {
                match value_of(&current, literal) {
                    Some(true) => {
                        satisfied = true;
                        break;
                    }
                    Some(false) => {}
                    None => unassigned.push(literal),
                }
            }
            if satisfied {
                continue;
            }
            if unassigned.is_empty() {
                return None;
            }
            if unassigned.len() == 1 {
                if !set(&mut current, unassigned[0]) {
                    return None;
                }
                changed = true;
            }
        }
        if !changed {
            break;
        }
    }
    for variable in 1..current.len() {
        if current[variable].is_none() {
            let mut trial = current.clone();
            trial[variable] = Some(true);
            if let Some(model) = dpll(&trial, clauses) {
                return Some(model);
            }
            let mut trial = current.clone();
            trial[variable] = Some(false);
            return dpll(&trial, clauses);
        }
    }
    Some((1..current.len()).map(|variable| current[variable].unwrap()).collect())
}

/// Drive the whole satisfy-and-tighten loop on a three-clause formula whose best
/// reachable cost is one unsatisfied clause, checking the strict-improvement and
/// flip-budget invariants at every satisfiable iteration.
#[test]
fn the_reduction_loop_converges_on_a_three_clause_formula() {
    // No assignment satisfies all of [1], [2], [-1, -2]; any assignment
    // satisfies at least one of them, and the best satisfy exactly two.
    let formula = Formula {
        num_vars: 2,
        clauses: vec![vec![1], vec![2], vec![-1, -2]],
    };
    assert!(formula.is_well_formed());
    let k_flips: u32 = 2;

    let mut s = Solver::new();
    s.sync_with_formula(formula.num_vars);
    s.set_ground_literals();

    let mut reduction = Reduction::new(&formula, SmallRng::seed_from_u64(11));
    let unsats = reduction.add_clauses_with_unsat_literals(&mut s);
    let num_unsat = reduction.count_unsatisfied_clauses(&mut s, &unsats);
    let unsat_limit = Binary::of_length(&mut s, num_unsat.len());
    reduction.must_be_less_than(&mut s, &num_unsat, &unsat_limit);

    let assignments = reduction.generate_one_literal_per_literal(&mut s);
    let flips = reduction.add_clauses_that_capture_flips(&mut s, &assignments);
    let num_flips = reduction.count_flipped_literals(&mut s, &flips);
    let flips_limit = Binary::of_length(&mut s, num_flips.len());
    reduction.must_be_less_than(&mut s, &num_flips, &flips_limit);

    Binary::assign(&mut s, &flips_limit, k_flips + 1);
    reduction.start_by_assuming_random_assignments(&mut s, &assignments);

    let mut output = Output::new(&formula);
    let mut recorded: Vec<u32> = vec![];
    loop {
        let assumptions = s.assumptions.clone();
        s.assumptions.clear();
        let model = match solve(s.literals, &s.clauses, &assumptions) {
            None => break,
            Some(model) => model,
        };

        let threshold = Binary::decode(&model, &num_unsat);
        let flipped = Binary::decode(&model, &num_flips);

        // Flip-budget invariant: never more than k flips.
        assert!(flipped <= k_flips);
        // Strict improvement: each recorded count is below the previous one.
        if let Some(&previous) = recorded.last() {
            assert!(threshold < previous);
        }
        recorded.push(threshold);

        output.previous = threshold;
        output.remember_assignments(&model);
        assert_eq!(output.assignments.len(), 2);

        reduction.set_assignments_to_those_of_the_solution(&mut s, &assignments, &model);
        Binary::assume_value(&mut s, &unsat_limit, threshold);
    }

    // The loop ran: the first solve of this formula is satisfiable.
    assert!(!recorded.is_empty());
    // Termination bound: no more iterations than the initial count plus one.
    assert!(recorded.len() as u32 <= recorded[0] + 1);
    // Converged above zero: this formula is never fully satisfied, and one
    // unsatisfied clause is reachable within the flip budget.
    assert_eq!(*recorded.last().unwrap(), 1);
}

#[test]
fn a_satisfiable_formula_converges_to_zero_unsatisfied_clauses() {
    let formula = Formula {
        num_vars: 2,
        clauses: vec![vec![1, 2], vec![-1, 2]],
    };
    assert!(formula.is_well_formed());
    let k_flips: u32 = 2;

    let mut s = Solver::new();
    s.sync_with_formula(formula.num_vars);
    s.set_ground_literals();

    let mut reduction = Reduction::new(&formula, SmallRng::seed_from_u64(3));
    let unsats = reduction.add_clauses_with_unsat_literals(&mut s);
    let num_unsat = reduction.count_unsatisfied_clauses(&mut s, &unsats);
    let unsat_limit = Binary::of_length(&mut s, num_unsat.len());
    reduction.must_be_less_than(&mut s, &num_unsat, &unsat_limit);

    let assignments = reduction.generate_one_literal_per_literal(&mut s);
    let flips = reduction.add_clauses_that_capture_flips(&mut s, &assignments);
    let num_flips = reduction.count_flipped_literals(&mut s, &flips);
    let flips_limit = Binary::of_length(&mut s, num_flips.len());
    reduction.must_be_less_than(&mut s, &num_flips, &flips_limit);

    Binary::assign(&mut s, &flips_limit, k_flips + 1);
    reduction.start_by_assuming_random_assignments(&mut s, &assignments);

    let mut recorded: Vec<u32> = vec![];
    loop {
        let assumptions = s.assumptions.clone();
        s.assumptions.clear();
        let model = match solve(s.literals, &s.clauses, &assumptions) {
            None => break,
            Some(model) => model,
        };
        let threshold = Binary::decode(&model, &num_unsat);
        if let Some(&previous) = recorded.last() {
            assert!(threshold < previous);
        }
        recorded.push(threshold);
        reduction.set_assignments_to_those_of_the_solution(&mut s, &assignments, &model);
        Binary::assume_value(&mut s, &unsat_limit, threshold);
    }

    assert!(!recorded.is_empty());
    assert!(recorded.len() as u32 <= recorded[0] + 1);
    assert_eq!(*recorded.last().unwrap(), 0);
}

#[test]
fn random_seeding_assumes_one_polarity_per_variable() {
    let formula = Formula {
        num_vars: 4,
        clauses: vec![vec![1, 2, 3, 4]],
    };
    let mut s = Solver::new();
    s.sync_with_formula(formula.num_vars);

    let mut reduction = Reduction::new(&formula, SmallRng::seed_from_u64(99));
    let assignments = reduction.generate_one_literal_per_literal(&mut s);
    reduction.start_by_assuming_random_assignments(&mut s, &assignments);

    assert_eq!(s.assumptions.len(), assignments.len());
    for (assumed, &allocated) in s.assumptions.iter().zip(&assignments) {
        assert!(*assumed == allocated || *assumed == -allocated);
    }
    assert_eq!(s.clauses.len(), 0);
}

#[test]
fn continuing_assumes_the_polarities_of_the_model() {
    let formula = Formula {
        num_vars: 3,
        clauses: vec![vec![1], vec![-2], vec![3]],
    };
    let mut s = Solver::new();
    s.sync_with_formula(formula.num_vars);
    let reduction = Reduction::new(&formula, SmallRng::seed_from_u64(5));
    let assignments = reduction.generate_one_literal_per_literal(&mut s);

    // A model that sets variable 1 true, 2 false, 3 true.
    let mut model = vec![true, false, true];
    while model.len() < s.literals as usize {
        model.push(false);
    }
    reduction.set_assignments_to_those_of_the_solution(&mut s, &assignments, &model);

    assert_eq!(
        s.assumptions,
        vec![assignments[0], -assignments[1], assignments[2]]
    );
}
