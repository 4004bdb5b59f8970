use vstd::prelude::*;

verus! {

/// Upper bound on the number of allocated variables, so that every literal,
/// positive or negative, fits in an `i32`.
pub const MAX_LITERALS: u32 = 0x7fff_ffff;

/// A literal is a signed, nonzero variable id whose magnitude stays within the
/// number of variables allocated so far.
pub open spec fn lit_in_range(literal: i32, count: u32) -> bool {
    literal != 0 && -(count as int) <= literal as int && literal as int <= count as int
}

/// Truth of a literal under a model that gives variable `v` the value `m[v - 1]`:
/// a positive literal asks for the variable's value, a negative one for its negation.
pub open spec fn lit_holds(m: Seq<bool>, literal: i32) -> bool {
    if literal > 0 {
        m[literal as int - 1]
    } else {
        !m[-(literal as int) - 1]
    }
}

/// A clause is a disjunction: it holds when at least one of its literals does.
pub open spec fn clause_holds(m: Seq<bool>, clause: Seq<i32>) -> bool {
    exists|i: int| 0 <= i < clause.len() && lit_holds(m, clause[i])
}

pub open spec fn clause_in_range(clause: Seq<i32>, count: u32) -> bool {
    forall|i: int| 0 <= i < clause.len() ==> lit_in_range(#[trigger] clause[i], count)
}

/// The allocation state and clause base handed to the incremental oracle, kept as
/// plain data. The decision procedure itself is an outside service: a caller feeds
/// it `clauses` and `assumptions` and receives a model, which these contracts
/// quantify over.
pub struct Solver {
    /// How many variables have been allocated; literal magnitudes never exceed it.
    pub literals: u32,
    /// The committed clause base, append-only.
    pub clauses: Vec<Vec<i32>>,
    /// The clause under construction via `add`; a zero literal commits it.
    pub pending: Vec<i32>,
    /// One-shot assumptions for the next solve only; the caller clears them after.
    pub assumptions: Vec<i32>,
    /// Ground constant fixed true by a unit clause, once established.
    pub true_literal: i32,
    /// Ground constant fixed false by a unit clause, once established.
    pub false_literal: i32,
}

impl Solver {
    pub open spec fn wf(self) -> bool {
        &&& self.literals <= MAX_LITERALS
        &&& forall|i: int|
            0 <= i < self.clauses@.len() ==> clause_in_range(
                #[trigger] self.clauses@[i]@,
                self.literals,
            )
        &&& clause_in_range(self.pending@, self.literals)
        &&& forall|i: int|
            0 <= i < self.assumptions@.len() ==> lit_in_range(
                #[trigger] self.assumptions@[i],
                self.literals,
            )
    }

    /// The ground constants are allocated and their unit clauses stand in the base.
    pub open spec fn grounded(self) -> bool {
        &&& 0 < self.true_literal
        &&& lit_in_range(self.true_literal, self.literals)
        &&& 0 < self.false_literal
        &&& lit_in_range(self.false_literal, self.literals)
        &&& exists|i: int|
            0 <= i < self.clauses@.len() && (#[trigger] self.clauses@[i])@.len() == 1
                && self.clauses@[i]@[0] == self.true_literal
        &&& exists|i: int|
            0 <= i < self.clauses@.len() && (#[trigger] self.clauses@[i])@.len() == 1
                && self.clauses@[i]@[0] as int == -(self.false_literal as int)
    }

    /// `m` is a model of the permanent clause base: it assigns every allocated
    /// variable and satisfies every committed clause.
    pub open spec fn models(self, m: Seq<bool>) -> bool {
        &&& self.literals <= m.len()
        &&& forall|i: int|
            0 <= i < self.clauses@.len() ==> clause_holds(m, #[trigger] self.clauses@[i]@)
    }

    /// `m` is a model of the clause base that also honours every registered
    /// one-shot assumption.
    pub open spec fn models_assumed(self, m: Seq<bool>) -> bool {
        &&& self.models(m)
        &&& forall|i: int|
            0 <= i < self.assumptions@.len() ==> lit_holds(m, #[trigger] self.assumptions@[i])
    }

    /// Monotone growth: literals are never recycled, clauses never retracted, and
    /// the ground constants never move.
    pub open spec fn extends(self, prev: Solver) -> bool {
        &&& prev.literals <= self.literals
        &&& prev.clauses@.len() <= self.clauses@.len()
        &&& forall|i: int|
            0 <= i < prev.clauses@.len() ==> #[trigger] self.clauses@[i] == prev.clauses@[i]
        &&& self.true_literal == prev.true_literal
        &&& self.false_literal == prev.false_literal
    }

    pub fn new() -> (s: Solver)
        ensures
            s.wf(),
            s.literals == 0,
            s.clauses@.len() == 0,
            s.pending@.len() == 0,
            s.assumptions@.len() == 0,
    {
        Solver {
            literals: 0,
            clauses: Vec::new(),
            pending: Vec::new(),
            assumptions: Vec::new(),
            true_literal: 0,
            false_literal: 0,
        }
    }

    /// Reserve the formula's own variable ids, so fresh literals never collide
    /// with them.
    pub fn sync_with_formula(&mut self, num_vars: u32)
        requires
            old(self).wf(),
            old(self).literals + num_vars <= MAX_LITERALS,
        ensures
            final(self).wf(),
            final(self).extends(*old(self)),
            final(self).literals == old(self).literals + num_vars,
            final(self).clauses == old(self).clauses,
            final(self).pending == old(self).pending,
            final(self).assumptions == old(self).assumptions,
    {
        proof {
            lemma_solver_widen(*self, (self.literals + num_vars) as u32);
        }
        self.literals = self.literals + num_vars;
    }

    /// Allocate a fresh variable and return its positive literal.
    pub fn new_literal(&mut self) -> (r: i32)
        requires
            old(self).wf(),
            old(self).literals < MAX_LITERALS,
        ensures
            final(self).wf(),
            final(self).extends(*old(self)),
            final(self).literals == old(self).literals + 1,
            final(self).clauses == old(self).clauses,
            final(self).pending == old(self).pending,
            final(self).assumptions == old(self).assumptions,
            r as int == old(self).literals + 1,
            0 < r,
            lit_in_range(r, final(self).literals),
    {
        proof {
            lemma_solver_widen(*self, (self.literals + 1) as u32);
        }
        self.literals = self.literals + 1;
        self.literals as i32
    }

    /// Append one literal to the clause under construction; a zero commits it.
    pub fn add(&mut self, literal: i32)
        requires
            old(self).wf(),
            literal == 0 || lit_in_range(literal, old(self).literals),
        ensures
            final(self).wf(),
            final(self).extends(*old(self)),
            final(self).literals == old(self).literals,
            final(self).assumptions == old(self).assumptions,
            literal != 0 ==> final(self).clauses == old(self).clauses && final(self).pending@
                == old(self).pending@.push(literal),
            literal == 0 ==> final(self).clauses@ == old(self).clauses@.push(old(self).pending)
                && final(self).pending@.len() == 0,
    {
        if literal == 0 {
            let mut committed: Vec<i32> = Vec::new();
            core::mem::swap(&mut committed, &mut self.pending);
            self.clauses.push(committed);
        } else {
            self.pending.push(literal);
        }
    }

    /// Commit one whole clause: every literal, then the terminating zero.
    pub fn add_clause(&mut self, literals: &Vec<i32>)
        requires
            old(self).wf(),
            old(self).pending@.len() == 0,
            clause_in_range(literals@, old(self).literals),
        ensures
            final(self).wf(),
            final(self).extends(*old(self)),
            final(self).literals == old(self).literals,
            final(self).assumptions == old(self).assumptions,
            final(self).pending@.len() == 0,
            final(self).clauses@.len() == old(self).clauses@.len() + 1,
            final(self).clauses@[old(self).clauses@.len() as int]@ == literals@,
    {
        let ghost s0 = *self;
        let mut i: usize = 0;
        while i < literals.len()
            invariant
                self.wf(),
                self.extends(s0),
                self.literals == s0.literals,
                self.assumptions == s0.assumptions,
                self.clauses == s0.clauses,
                i <= literals@.len(),
                self.pending@ == literals@.take(i as int),
                clause_in_range(literals@, self.literals),
            decreases literals@.len() - i,
        {
            self.add(literals[i]);
            proof {
                assert(literals@.take(i + 1) == literals@.take(i as int).push(literals@[i as int]));
            }
            i = i + 1;
        }
        proof {
            assert(literals@.take(literals@.len() as int) == literals@);
        }
        self.add(0);
    }

    /// Register a one-shot assumption for the next solve.
    pub fn assume_literal(&mut self, literal: i32)
        requires
            old(self).wf(),
            lit_in_range(literal, old(self).literals),
        ensures
            final(self).wf(),
            final(self).extends(*old(self)),
            final(self).literals == old(self).literals,
            final(self).clauses == old(self).clauses,
            final(self).pending == old(self).pending,
            final(self).assumptions@ == old(self).assumptions@.push(literal),
    {
        self.assumptions.push(literal);
    }

    /// Establish the two ground constants: one variable fixed true and one fixed
    /// false, each by a permanent unit clause.
    pub fn set_ground_literals(&mut self)
        requires
            old(self).wf(),
            old(self).pending@.len() == 0,
            old(self).literals + 2 <= MAX_LITERALS,
        ensures
            final(self).wf(),
            final(self).grounded(),
            final(self).literals == old(self).literals + 2,
            final(self).pending@.len() == 0,
            final(self).assumptions == old(self).assumptions,
            old(self).clauses@.len() <= final(self).clauses@.len(),
            forall|i: int|
                0 <= i < old(self).clauses@.len() ==> #[trigger] final(self).clauses@[i]
                    == old(self).clauses@[i],
    {
        let ground_truth = self.new_literal();
        let ground_false = self.new_literal();

        self.add(ground_truth);
        self.add(0);
        self.add(-ground_false);
        self.add(0);

        self.true_literal = ground_truth;
        self.false_literal = ground_false;

        proof {
            let n1 = self.clauses@.len() - 2;
            let n2 = self.clauses@.len() - 1;
            assert(self.clauses@[n1]@ =~= seq![self.true_literal]);
            assert(self.clauses@[n2]@.len() == 1 && self.clauses@[n2]@[0] as int == -(
            self.false_literal as int));
        }
    }
}

/// Read a literal's truth value out of a model, as the oracle's assignment query
/// does after a satisfiable solve.
pub fn literal_truth(model: &Vec<bool>, literal: i32) -> (r: bool)
    requires
        literal != 0,
        literal != i32::MIN,
        -(model@.len() as int) <= literal as int <= model@.len() as int,
    ensures
        r == lit_holds(model@, literal),
{
    if literal > 0 {
        model[(literal - 1) as usize]
    } else {
        !model[((-literal) - 1) as usize]
    }
}

/// Negate a literal without overflow: magnitudes never reach `i32::MIN`.
pub fn negated(literal: i32) -> (r: i32)
    requires
        literal != i32::MIN,
    ensures
        r as int == -(literal as int),
{
    -literal
}

/// Everything in range of a smaller allocation count is in range of a larger one.
pub proof fn lemma_solver_widen(s: Solver, count: u32)
    requires
        s.wf(),
        s.literals <= count,
        count <= MAX_LITERALS,
    ensures
        forall|i: int|
            0 <= i < s.clauses@.len() ==> clause_in_range(#[trigger] s.clauses@[i]@, count),
        clause_in_range(s.pending@, count),
        forall|i: int|
            0 <= i < s.assumptions@.len() ==> lit_in_range(#[trigger] s.assumptions@[i], count),
{
    assert forall|i: int| 0 <= i < s.clauses@.len() implies clause_in_range(
        #[trigger] s.clauses@[i]@,
        count,
    ) by {
        assert(clause_in_range(s.clauses@[i]@, s.literals));
    }
}

/// Negating a literal flips its truth value under every model.
pub proof fn lemma_lit_negated(m: Seq<bool>, literal: i32, negation: i32)
    requires
        literal != 0,
        negation as int == -(literal as int),
    ensures
        lit_holds(m, negation) == !lit_holds(m, literal),
{
}

/// A model of a grown clause base is a model of every earlier one: clauses are
/// append-only and literals are never retracted.
pub proof fn lemma_models_monotone(grown: Solver, prev: Solver, m: Seq<bool>)
    requires
        grown.extends(prev),
        grown.models(m),
    ensures
        prev.models(m),
{
    assert forall|i: int| 0 <= i < prev.clauses@.len() implies clause_holds(
        m,
        #[trigger] prev.clauses@[i]@,
    ) by {
        assert(grown.clauses@[i] == prev.clauses@[i]);
        assert(clause_holds(m, grown.clauses@[i]@));
    }
}

pub proof fn lemma_extends_trans(s3: Solver, s2: Solver, s1: Solver)
    requires
        s3.extends(s2),
        s2.extends(s1),
    ensures
        s3.extends(s1),
{
    assert forall|i: int| 0 <= i < s1.clauses@.len() implies #[trigger] s3.clauses@[i]
        == s1.clauses@[i] by {
        assert(s2.clauses@[i] == s1.clauses@[i]);
    }
}

/// Growth keeps the ground constants established.
pub proof fn lemma_extends_grounded(grown: Solver, prev: Solver)
    requires
        grown.extends(prev),
        prev.grounded(),
    ensures
        grown.grounded(),
{
    let i = choose|i: int|
        0 <= i < prev.clauses@.len() && (#[trigger] prev.clauses@[i])@.len() == 1
            && prev.clauses@[i]@[0] == prev.true_literal;
    assert(grown.clauses@[i] == prev.clauses@[i]);
    let j = choose|j: int|
        0 <= j < prev.clauses@.len() && (#[trigger] prev.clauses@[j])@.len() == 1
            && prev.clauses@[j]@[0] as int == -(prev.false_literal as int);
    assert(grown.clauses@[j] == prev.clauses@[j]);
}

/// Under every model of a grounded base, the ground constants hold their values.
pub proof fn lemma_grounded_holds(s: Solver, m: Seq<bool>)
    requires
        s.grounded(),
        s.models(m),
    ensures
        lit_holds(m, s.true_literal),
        !lit_holds(m, s.false_literal),
{
    let i = choose|i: int|
        0 <= i < s.clauses@.len() && (#[trigger] s.clauses@[i])@.len() == 1 && s.clauses@[i]@[0]
            == s.true_literal;
    assert(clause_holds(m, s.clauses@[i]@));
    let j = choose|j: int|
        0 <= j < s.clauses@.len() && (#[trigger] s.clauses@[j])@.len() == 1 && s.clauses@[j]@[0]
            as int == -(s.false_literal as int);
    assert(clause_holds(m, s.clauses@[j]@));
    let nf = s.clauses@[j]@[0];
    assert(lit_holds(m, nf));
    lemma_lit_negated(m, s.false_literal, nf);
}

} // verus!
