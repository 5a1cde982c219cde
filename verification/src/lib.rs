//! Verified core of an audio fingerprinting service: combinatorial hashing of
//! spectral peaks, offset-histogram matching, peak selection and the input
//! validation rules of the HTTP layer.
pub mod api;
pub mod errors;
pub mod external;
pub mod fingerprint;
pub mod models;
pub mod storage;
pub mod utils;
pub mod worker;
