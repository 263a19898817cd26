pub mod bag;
pub mod condition;
pub mod find;
pub mod laws;
pub mod model;
pub mod parse;
pub mod pattern;
pub mod queue;
pub mod rule;
pub mod simplify;
