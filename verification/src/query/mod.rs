//! Query planning and evaluation.

pub mod aggregate;
pub mod answer_laws;
pub mod assembly;
pub mod ast;
pub mod bag_laws;
pub mod binding_bag;
pub mod compile;
pub mod compile_laws;
pub mod convert;
pub mod convert_laws;
pub mod exec_pattern;
pub mod execute;
pub mod extend;
pub mod fact_laws;
pub mod find;
pub mod find_laws;
pub mod form_laws;
pub mod levels;
pub mod lower;
pub mod meaning;
pub mod order;
pub mod order_laws;
pub mod patterns;
pub mod plan;
pub mod plan_laws;
pub mod proposal_laws;
pub mod reach;
pub mod result_laws;
pub mod sequence_laws;
pub mod shown;
pub mod stage;
pub mod validation;
pub mod validation_laws;
