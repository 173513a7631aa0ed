//! A checker for Fitch-style natural-deduction proofs in propositional logic.
//!
//! The proof tree is edited through path-addressed operations and then
//! re-justified line by line by the rule-inference verifier.
pub mod check_pass;
pub mod edit;
pub mod formula;
pub mod rules;
pub mod text;
pub mod tree;
pub mod util;

pub use formula::Logic;
pub use rules::{Fact, State};
pub use tree::{FitchProof, Instruction, Line, LineRange, SelectType, SubProof};
