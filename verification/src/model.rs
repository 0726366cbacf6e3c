//! The feasibility model: criteria, assessments and the nodes of an attack tree.

pub mod assessment;
pub mod feasible_step;
pub mod nodes;

pub use assessment::{
    AssessmentModel, CriterionModel, FeasibilityAssessment, FeasibilityCriteria,
    FeasibilityVector, FeasiblityCriterion, TreeError,
};
pub use feasible_step::{FeasibleStep, StepKind, StepModel};
pub use nodes::{generate_id, AndNode, Leaf, OrNode, Step};
