use vstd::prelude::*;

use crate::formula::Formula;
use crate::solver::literal_truth;

verus! {

/// What the reporting collaborator needs from the core, gathered per satisfiable
/// iteration: the best unsatisfied-clause count seen and the candidate assignment
/// behind it. The printing itself stays with the caller.
pub struct Output<'a> {
    pub formula: &'a Formula,
    /// The unsatisfied-clause count of the last recorded iteration.
    pub previous: u32,
    /// The last recorded candidate: one signed literal per formula variable.
    pub assignments: Vec<i32>,
}

impl<'a> Output<'a> {
    pub fn new(formula: &'a Formula) -> (r: Output<'a>)
        ensures
            r.formula == formula,
            r.previous == 0,
            r.assignments@.len() == 0,
    {
        Output { formula, previous: 0, assignments: Vec::new() }
    }

    /// Snapshot the candidate assignment out of the model: variable `v` becomes
    /// the literal `v` where the model sets it true, `-v` where false.
    pub fn remember_assignments(&mut self, model: &Vec<bool>)
        requires
            old(self).formula.wf(),
            old(self).formula.num_vars <= model@.len(),
        ensures
            final(self).formula == old(self).formula,
            final(self).previous == old(self).previous,
            final(self).assignments@.len() == old(self).formula.num_vars,
            forall|i: int|
                0 <= i < final(self).assignments@.len() ==> #[trigger] final(self).assignments@[i]
                    as int == (if model@[i] {
                    i + 1
                } else {
                    -(i + 1)
                }),
    {
        let ghost start = *self;
        self.assignments.clear();

        let num_vars = self.formula.num_vars;
        let mut var: u32 = 1;
        while var <= num_vars
            invariant
                1 <= var,
                var as int <= num_vars + 1,
                self.formula == start.formula,
                self.previous == start.previous,
                num_vars == self.formula.num_vars,
                self.formula.wf(),
                num_vars <= model@.len(),
                self.assignments@.len() == var - 1,
                forall|i: int|
                    0 <= i < self.assignments@.len() ==> #[trigger] self.assignments@[i] as int == (
                    if model@[i] {
                        i + 1
                    } else {
                        -(i + 1)
                    }),
            decreases num_vars - var + 1,
        {
            let literal = var as i32;
            let boolean = literal_truth(model, literal);
            if boolean {
                self.assignments.push(literal);
            } else {
                self.assignments.push(-literal);
            }
            var = var + 1;
        }
    }
}

} // verus!
