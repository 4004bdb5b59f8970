use flipsat::arithmetic::{counter, full_adder, half_adder, recursive_adder, ripple_carry_adder};
use flipsat::binary::Binary;
use flipsat::logic::{and, equal, less_than, or};
use flipsat::solver::{literal_truth, Solver};

/// A tiny DPLL procedure over the solver's clause base, standing in for the
/// external oracle: unit propagation plus branching.
fn solve(num_literals: u32, clauses: &[Vec<i32>], assumptions: &[i32]) -> Option<Vec<bool>> {
    let mut assignment: Vec<Option<bool>> = vec![None; num_literals as usize + 1];
    for &literal in assumptions {
        if !set(&mut assignment, literal) {
            return None;
        }
    }
    dpll(&assignment, clauses)
}

fn set(assignment: &mut [Option<bool>], literal: i32) -> bool {
    let variable = literal.unsigned_abs() as usize;
    let value = literal > 0;
    match assignment[variable] {
        Some(existing) => existing == value,
        None => {
            assignment[variable] = Some(value);
            true
        }
    }
}

fn value_of(assignment: &[Option<bool>], literal: i32) -> Option<bool> {
    let variable = literal.unsigned_abs() as usize;
    assignment[variable].map(|value| value == (literal > 0))
}

fn dpll(assignment: &[Option<bool>], clauses: &[Vec<i32>]) -> Option<Vec<bool>> {
    let mut current = assignment.to_vec();
    loop {
        let mut changed = false;
        for clause in clauses {
            let mut satisfied = false;
            let mut unassigned: Vec<i32> = vec![];
            for &literal in clause {
                match value_of(&current, literal) {
                    Some(true) => {
                        satisfied = true;
                        break;
                    }
                    Some(false) => {}
                    None => unassigned.push(literal),
                }
            }
            if satisfied {
                continue;
            }
            if unassigned.is_empty() {
                return None;
            }
            if unassigned.len() == 1 {
                if !set(&mut current, unassigned[0]) {
                    return None;
                }
                changed = true;
            }
        }
        if !changed {
            break;
        }
    }
    for variable in 1..current.len() {
        if current[variable].is_none() {
            let mut trial = current.clone();
            trial[variable] = Some(true);
            if let Some(model) = dpll(&trial, clauses) {
                return Some(model);
            }
            let mut trial = current.clone();
            trial[variable] = Some(false);
            return dpll(&trial, clauses);
        }
    }
    Some((1..current.len()).map(|variable| current[variable].unwrap()).collect())
}

fn model_of(solver: &Solver) -> Vec<bool> {
    solve(solver.literals, &solver.clauses, &solver.assumptions).expect("expected satisfiable")
}

fn assert_assigned(solver: &Solver, literals: &[i32], expected: &[bool]) {
    assert_eq!(literals.len(), expected.len());
    let model = model_of(solver);
    for (literal, value) in literals.iter().zip(expected) {
        assert_eq!(literal_truth(&model, *literal), *value);
    }
}

fn grounded_solver() -> Solver {
    let mut solver = Solver::new();
    solver.set_ground_literals();
    solver
}

#[test]
fn it_adds_two_bits() {
    let mut s = grounded_solver();
    let t = s.true_literal;
    let f = s.false_literal;

    let (out, c_out) = half_adder(&mut s, f, f);
    assert_assigned(&s, &[out, c_out], &[false, false]);

    let (out, c_out) = half_adder(&mut s, f, t);
    assert_assigned(&s, &[out, c_out], &[true, false]);

    let (out, c_out) = half_adder(&mut s, t, f);
    assert_assigned(&s, &[out, c_out], &[true, false]);

    let (out, c_out) = half_adder(&mut s, t, t);
    assert_assigned(&s, &[out, c_out], &[false, true]);
}

#[test]
fn it_adds_three_bits() {
    let mut s = grounded_solver();
    let t = s.true_literal;
    let f = s.false_literal;

    let (out, c_out) = full_adder(&mut s, f, f, f);
    assert_assigned(&s, &[out, c_out], &[false, false]);

    let (out, c_out) = full_adder(&mut s, f, f, t);
    assert_assigned(&s, &[out, c_out], &[true, false]);

    let (out, c_out) = full_adder(&mut s, f, t, f);
    assert_assigned(&s, &[out, c_out], &[true, false]);

    let (out, c_out) = full_adder(&mut s, f, t, t);
    assert_assigned(&s, &[out, c_out], &[false, true]);

    let (out, c_out) = full_adder(&mut s, t, f, f);
    assert_assigned(&s, &[out, c_out], &[true, false]);

    let (out, c_out) = full_adder(&mut s, t, f, t);
    assert_assigned(&s, &[out, c_out], &[false, true]);

    let (out, c_out) = full_adder(&mut s, t, t, f);
    assert_assigned(&s, &[out, c_out], &[false, true]);

    let (out, c_out) = full_adder(&mut s, t, t, t);
    assert_assigned(&s, &[out, c_out], &[true, true]);
}

#[test]
fn it_adds_n_bits() {
    let mut s = grounded_solver();
    let t = s.true_literal;
    let f = s.false_literal;
    let max = usize::MAX;

    let out = ripple_carry_adder(&mut s, &vec![t, t, f, f], &vec![t, f, f, t], max); // 3 + 9
    assert_assigned(&s, &out, &[false, false, true, true, false]); // 12

    let out = ripple_carry_adder(&mut s, &vec![f, t, f, t], &vec![f, t, t, f], max); // 10 + 6
    assert_assigned(&s, &out, &[false, false, false, false, true]); // 16
}

#[test]
fn it_can_enforce_the_maximum_number_of_bits_returned() {
    let mut s = grounded_solver();
    let t = s.true_literal;
    let f = s.false_literal;

    let out = ripple_carry_adder(&mut s, &vec![t, t, f, f], &vec![t, f, f, t], 4); // 3 + 9
    assert_assigned(&s, &out, &[false, false, true, true]); // 12
}

#[test]
fn capped_addition_with_overflow_is_unsatisfiable() {
    let mut s = grounded_solver();
    let t = s.true_literal;
    let f = s.false_literal;

    // 10 + 6 = 16 does not fit in 4 bits: the forced-false carry contradicts.
    let _ = ripple_carry_adder(&mut s, &vec![f, t, f, t], &vec![f, t, t, f], 4);
    assert!(solve(s.literals, &s.clauses, &s.assumptions).is_none());
}

#[test]
fn it_adds_n_numbers() {
    let mut s = grounded_solver();
    let t = s.true_literal;
    let f = s.false_literal;

    let numbers = vec![
        vec![t, t, f, f], // 3
        vec![t, f, f, t], // 9
        vec![f, t, f, t], // 10
        vec![f, t, t, f], // 6
    ];
    let out = recursive_adder(&mut s, &numbers, usize::MAX);

    assert_assigned(&s, &out, &[false, false, true, true, true, false]); // 28
}

#[test]
fn it_adds_numbers_of_different_widths() {
    let mut s = grounded_solver();
    let t = s.true_literal;
    let f = s.false_literal;

    let numbers = vec![
        vec![t],          // 1
        vec![f, t],       // 2
        vec![t, t, f, t], // 11
    ];
    let out = recursive_adder(&mut s, &numbers, usize::MAX);

    let model = model_of(&s);
    assert_eq!(Binary::decode(&model, &out), 14);
}

#[test]
fn it_counts_the_number_of_true_bits() {
    let mut s = grounded_solver();
    let t = s.true_literal;
    let f = s.false_literal;

    let out = counter(&mut s, &vec![f, f, f, f, f, f, f, f, f, f]);
    assert_assigned(&s, &out, &[false, false, false, false]); // 0

    let out = counter(&mut s, &vec![t, f, t, f, t, t, f, t, f, f]);
    assert_assigned(&s, &out, &[true, false, true, false]); // 5

    let out = counter(&mut s, &vec![t, t, t, t, t, t, t, t, t, t]);
    assert_assigned(&s, &out, &[false, true, false, true]); // 10
}

#[test]
fn it_counts_an_odd_number_of_inputs() {
    let mut s = grounded_solver();
    let t = s.true_literal;
    let f = s.false_literal;

    // 8 true of 13, an odd, non-power-of-two input count.
    let inputs = vec![t, f, t, t, f, f, t, t, f, t, f, t, t];
    let out = counter(&mut s, &inputs);

    let model = model_of(&s);
    assert_eq!(Binary::decode(&model, &out), 8);
}

#[test]
fn it_can_decode_a_binary_number_from_assigned_literals() {
    let mut s = grounded_solver();
    let t = s.true_literal;
    let f = s.false_literal;

    let model = model_of(&s);

    assert_eq!(Binary::decode(&model, &vec![f, f, f]), 0);
    assert_eq!(Binary::decode(&model, &vec![t, f, f]), 1);
    assert_eq!(Binary::decode(&model, &vec![f, t, f]), 2);
    assert_eq!(Binary::decode(&model, &vec![t, t, f]), 3);
    assert_eq!(Binary::decode(&model, &vec![f, f, t]), 4);
    assert_eq!(Binary::decode(&model, &vec![t, f, t]), 5);
    assert_eq!(Binary::decode(&model, &vec![f, t, t]), 6);
    assert_eq!(Binary::decode(&model, &vec![t, t, t]), 7);
}

#[test]
fn it_can_encode_a_decimal_number_to_constrained_literals() {
    let mut s = Solver::new();
    let b0 = s.new_literal();
    let b1 = s.new_literal();
    let b2 = s.new_literal();

    Binary::assign(&mut s, &vec![b0, b1, b2], 6);

    let model = model_of(&s);

    assert_eq!(literal_truth(&model, b0), false);
    assert_eq!(literal_truth(&model, b1), true);
    assert_eq!(literal_truth(&model, b2), true);
}

#[test]
fn assigned_values_decode_back_to_themselves() {
    for value in 0u32..16 {
        let mut s = Solver::new();
        let bits = Binary::of_length(&mut s, 4);
        Binary::assign(&mut s, &bits, value);
        let model = model_of(&s);
        assert_eq!(Binary::decode(&model, &bits), value);
    }
}

#[test]
fn assumed_values_decode_back_to_themselves() {
    let mut s = Solver::new();
    let bits = Binary::of_length(&mut s, 5);
    Binary::assume_value(&mut s, &bits, 19);
    let model = model_of(&s);
    assert_eq!(Binary::decode(&model, &bits), 19);
    assert_eq!(s.clauses.len(), 0);
}

#[test]
fn gates_follow_their_truth_tables() {
    let mut s = grounded_solver();
    let t = s.true_literal;
    let f = s.false_literal;

    let cases = [(f, f), (f, t), (t, f), (t, t)];
    for (a, b) in cases {
        let conjunction = and(&mut s, a, b);
        let disjunction = or(&mut s, a, b);
        let agreement = equal(&mut s, a, b);
        let model = model_of(&s);
        let va = literal_truth(&model, a);
        let vb = literal_truth(&model, b);
        assert_eq!(literal_truth(&model, conjunction), va && vb);
        assert_eq!(literal_truth(&model, disjunction), va || vb);
        assert_eq!(literal_truth(&model, agreement), va == vb);
    }
}

#[test]
fn the_comparator_decides_strict_order() {
    let pairs = [(0u32, 0u32), (3, 5), (5, 3), (7, 7), (0, 1), (6, 2)];
    for (left_value, right_value) in pairs {
        let mut s = grounded_solver();
        let left = Binary::of_length(&mut s, 3);
        let right = Binary::of_length(&mut s, 3);
        Binary::assign(&mut s, &left, left_value);
        Binary::assign(&mut s, &right, right_value);
        let smaller = less_than(&mut s, &left, &right);
        let model = model_of(&s);
        assert_eq!(literal_truth(&model, smaller), left_value < right_value);
    }
}
