//! Stochastic local search for Boolean satisfiability over formulas in
//! conjunctive normal form.

pub mod cnf;
pub mod dimacs;
pub mod index;
pub mod sls_solver;
pub mod solver_manager;
pub mod solution;
mod random;
