//! Decides whether two symbolic terms are provably equal under a premise of
//! equality facts and alias definitions.

mod equality;
mod in_progress;
mod premise;
mod scope;
mod substitution;
mod term;
mod visitor;

pub use equality::{
    equals, lemma_congruence, lemma_empty_premise_is_identity, lemma_empty_premise_symmetric, lemma_expansion_searched,
    lemma_recorded_fact_provable, lemma_recorded_fact_searched, lemma_reflexive,
    lemma_unrelated_not_equal, provably_equal, search, EXPANSION_DEPTH,
};
pub use premise::{
    holds, lemma_first_definition_stays, Normalization, NormalizationView, Premise, PremiseView,
};
pub use substitution::{occurs, occurs_below, subst};
pub use term::{Function, Normalizable, Term, TermView};
pub use visitor::{pre_order, VisitHistory, Visitor};
