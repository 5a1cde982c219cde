use vstd::prelude::*;

verus! {

/// The answer of the health endpoint.
#[derive(Debug)]
pub struct HealthResponse {
    pub status: String,
    pub database: String,
    pub s3: String,
    pub version: &'static str,
}

impl HealthResponse {
    /// The health report for the outcome of the database and storage checks:
    /// each "up" or "down", and "ok" overall only if both are up.
    pub fn from_checks(database_up: bool, s3_up: bool, version: &'static str) -> (response: Self)
        ensures
            response.database@ == if database_up { "up"@ } else { "down"@ },
            response.s3@ == if s3_up { "up"@ } else { "down"@ },
            response.status@ == if database_up && s3_up { "ok"@ } else { "unhealthy"@ },
            response.version == version,
    {
        let database = if database_up { String::from_str("up") } else { String::from_str("down") };
        let s3 = if s3_up { String::from_str("up") } else { String::from_str("down") };
        let status = if database_up && s3_up { String::from_str("ok") } else { String::from_str("unhealthy") };
        HealthResponse { status, database, s3, version }
    }
}

} // verus!
