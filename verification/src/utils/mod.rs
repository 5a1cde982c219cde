pub mod cors;
pub mod file_hash;
pub mod file_validation;
pub mod text;
