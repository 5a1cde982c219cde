pub mod decode;
pub mod hasher;
pub mod matcher;
pub mod peaks;
pub mod spectrogram;
