pub mod mode;
pub mod workflow;
