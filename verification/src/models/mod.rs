pub mod fingerprints;
pub mod jobs;
pub mod tracks;
