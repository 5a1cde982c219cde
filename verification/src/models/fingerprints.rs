use vstd::prelude::*;
use uuid::Uuid;

verus! {

/// In-memory form of a fingerprint before database insertion; unsigned for
/// the computations, converted to `i32` for the database.
#[derive(Debug, Clone, Copy)]
pub struct HashRecord {
    pub hash: u32,
    pub offset_ms: u32,
}

impl HashRecord {
    /// Convert to database-compatible types: both fields reinterpreted as `i32`.
    pub fn to_db_record(self, track_id: Uuid) -> (record: (i32, Uuid, i32))
        ensures
            record == (self.hash as i32, track_id, self.offset_ms as i32),
    {
        (self.hash as i32, track_id, self.offset_ms as i32)
    }
}

/// A constellation point: time and frequency coordinates extracted from the
/// spectrogram.
#[derive(Debug, Clone, Copy)]
pub struct ConstellationPoint {
    pub time_ms: u32,
    pub freq_hz: u32,
}

} // verus!
