//! The restart driver: repeated independent attempts over one formula, each
//! from a fresh random assignment, until one succeeds or the shared halt
//! signal is seen.
use vstd::prelude::*;

use crate::cnf::{formula_wf, lemma_num_literals_views, satisfies};
use crate::sls_solver::{greedy_solves, lemma_solved_satisfies, Solver};

verus! {

/// What one round of the restart loop came to.
pub enum Round {
    /// The halt signal was set: nothing was searched.
    Halted,
    /// The attempt succeeded with this assignment (entry 0 unused).
    Solved(Vec<bool>),
    /// The attempt gave up, and a fresh attempt is ready.
    Restarted,
}

/// A copy of the clauses, literal for literal.
fn clone_clauses(clauses: &Vec<Vec<i32>>) -> (r: Vec<Vec<i32>>)
    ensures
        r@.len() == clauses@.len(),
        forall|i: int| 0 <= i < clauses@.len() ==> (#[trigger] r@[i])@ == clauses@[i]@,
{
    let mut r: Vec<Vec<i32>> = Vec::new();
    let mut i: usize = 0;
    while i < clauses.len()
        invariant
            0 <= i <= clauses@.len(),
            r@.len() == i,
            forall|i2: int| 0 <= i2 < i ==> (#[trigger] r@[i2])@ == clauses@[i2]@,
        decreases clauses@.len() - i,
    {
        let clause = &clauses[i];
        let mut c: Vec<i32> = Vec::new();
        let mut j: usize = 0;
        while j < clause.len()
            invariant
                0 <= j <= clause@.len(),
                c@ == clause@.take(j as int),
            decreases clause@.len() - j,
        {
            c.push(clause[j]);
            j += 1;
            assert(c@ =~= clause@.take(j as int));
        }
        assert(clause@.take(j as int) =~= clause@);
        r.push(c);
        i += 1;
    }
    r
}

/// Drives the attempts of one worker over its own copy of the formula.
pub struct SolverManager {
    /// The current attempt.
    pub solver: Solver,
    /// The formula's clauses, without padding.
    pub clauses: Vec<Vec<i32>>,
    /// The number of variables.
    pub num_vars: usize,
}

impl SolverManager {
    /// The formula is well formed and the current attempt works on it.
    pub open spec fn wf(&self) -> bool {
        &&& formula_wf(self.num_vars as int, self.clauses@)
        &&& self.solver.wf()
        &&& self.solver.over(self.num_vars as int, self.clauses@)
    }

    /// Starts with a first attempt over the formula.
    pub fn new(num_vars: usize, clauses: Vec<Vec<i32>>) -> (r: SolverManager)
        requires
            formula_wf(num_vars as int, clauses@),
        ensures
            r.wf(),
            r.num_vars == num_vars,
            r.clauses@ == clauses@,
    {
        let copy = clone_clauses(&clauses);
        proof {
            lemma_num_literals_views(copy@, clauses@);
        }
        let solver = Solver::new(num_vars, copy);
        assert forall|i: int| 0 <= i < clauses@.len() implies (#[trigger] clauses@[i])@
            == solver.clauses@[i + 1]@ by {
            assert(copy@[i]@ == clauses@[i]@);
        }
        SolverManager { solver, clauses, num_vars }
    }

    /// One round of the restart loop, given the value of the halt signal:
    /// when it is set, returns `Halted` and searches nothing; otherwise runs
    /// the current attempt, returns its assignment when all clauses hold
    /// (which they do wherever improving flips alone reach a model), and
    /// else replaces it by a fresh attempt over the same formula.
    pub fn solve_round(&mut self, halted: bool) -> (r: Round)
        requires
            old(self).wf(),
        ensures
            final(self).wf(),
            final(self).num_vars == old(self).num_vars,
            final(self).clauses == old(self).clauses,
            halted <==> r is Halted,
            halted ==> *final(self) == *old(self),
            !halted && greedy_solves(
                old(self).solver.clauses@,
                old(self).solver.clauses_containing_variable@,
                old(self).solver.assignment@,
                old(self).solver.clauses@.len() as nat,
            ) ==> r is Solved,
            !halted && old(self).solver.solved() ==> r is Solved && r->Solved_0@ == old(
                self,
            ).solver.assignment@,
            r is Solved ==> satisfies(old(self).clauses@, r->Solved_0@) && r->Solved_0@.len()
                == old(self).num_vars + 1 && r->Solved_0@ == final(self).solver.assignment@,
    {
        if halted {
            return Round::Halted;
        }
        let solved = self.solver.solve();
        if solved {
            proof {
                lemma_solved_satisfies(self.solver, self.num_vars as int, self.clauses@);
            }
            let assignment = self.solver.assignment.clone();
            assert(assignment@ =~= self.solver.assignment@);
            return Round::Solved(assignment);
        }
        let copy = clone_clauses(&self.clauses);
        proof {
            lemma_num_literals_views(copy@, self.clauses@);
        }
        self.solver = Solver::new(self.num_vars, copy);
        assert forall|i: int| 0 <= i < self.clauses@.len() implies (#[trigger] self.clauses@[i])@
            == self.solver.clauses@[i + 1]@ by {
            assert(copy@[i]@ == self.clauses@[i]@);
        }
        Round::Restarted
    }
}

} // verus!
