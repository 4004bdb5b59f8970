use vstd::prelude::*;

use crate::solver::{clause_in_range, lit_in_range, MAX_LITERALS};

verus! {

/// An immutable input formula: a variable count and an ordered list of clauses,
/// as the parsing collaborator hands them over. The core reads it, never writes.
pub struct Formula {
    pub num_vars: u32,
    pub clauses: Vec<Vec<i32>>,
}

impl Formula {
    /// Every clause literal names one of the formula's own variables.
    pub open spec fn wf(self) -> bool {
        &&& self.num_vars <= MAX_LITERALS
        &&& forall|i: int|
            0 <= i < self.clauses@.len() ==> clause_in_range(
                #[trigger] self.clauses@[i]@,
                self.num_vars,
            )
    }

    /// Decide well-formedness, so an unverified producer's output can be checked
    /// before the core builds on it.
    pub fn is_well_formed(&self) -> (r: bool)
        ensures
            r == self.wf(),
    {
        if self.num_vars > MAX_LITERALS {
            return false;
        }
        let mut i: usize = 0;
        while i < self.clauses.len()
            invariant
                i <= self.clauses@.len(),
                self.num_vars <= MAX_LITERALS,
                forall|k: int|
                    0 <= k < i ==> clause_in_range(#[trigger] self.clauses@[k]@, self.num_vars),
            decreases self.clauses@.len() - i,
        {
            let clause = &self.clauses[i];
            let mut j: usize = 0;
            while j < clause.len()
                invariant
                    j <= clause@.len(),
                    i < self.clauses@.len(),
                    clause@ == self.clauses@[i as int]@,
                    self.num_vars <= MAX_LITERALS,
                    forall|k: int| 0 <= k < j ==> lit_in_range(#[trigger] clause@[k], self.num_vars),
                decreases clause@.len() - j,
            {
                let literal = clause[j];
                if literal == 0 || literal == i32::MIN {
                    proof {
                        assert(clause@ == self.clauses@[i as int]@);
                        assert(!lit_in_range(clause@[j as int], self.num_vars));
                        assert(!clause_in_range(self.clauses@[i as int]@, self.num_vars));
                    }
                    return false;
                }
                let magnitude = if literal > 0 {
                    literal
                } else {
                    -literal
                };
                if magnitude as u32 > self.num_vars {
                    proof {
                        assert(clause@ == self.clauses@[i as int]@);
                        assert(!lit_in_range(clause@[j as int], self.num_vars));
                        assert(!clause_in_range(self.clauses@[i as int]@, self.num_vars));
                    }
                    return false;
                }
                j = j + 1;
            }
            i = i + 1;
        }
        true
    }
}

} // verus!
