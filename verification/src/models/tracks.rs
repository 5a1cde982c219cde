use vstd::prelude::*;

verus! {

/// The state of a track in the catalogue.
#[derive(Debug, Clone, Copy, PartialEq, Eq)]
pub enum TrackStatus {
    Pending,
    Fingerprinting,
    Ready,
    Error,
}

impl TrackStatus {
    /// The status as shown to clients: the variant name in lowercase.
    pub fn label(&self) -> (label: &'static str)
        ensures
            *self == TrackStatus::Pending ==> label@ == "pending"@,
            *self == TrackStatus::Fingerprinting ==> label@ == "fingerprinting"@,
            *self == TrackStatus::Ready ==> label@ == "ready"@,
            *self == TrackStatus::Error ==> label@ == "error"@,
    {
        match self {
            TrackStatus::Pending => "pending",
            TrackStatus::Fingerprinting => "fingerprinting",
            TrackStatus::Ready => "ready",
            TrackStatus::Error => "error",
        }
    }
}

/// Request body for registering a new track.
#[derive(Debug)]
pub struct RegisterTrackRequest {
    pub title: String,
    pub artist: Option<String>,
    pub album: Option<String>,
}

} // verus!
