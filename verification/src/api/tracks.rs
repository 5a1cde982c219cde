use vstd::prelude::*;
use crate::errors::AppError;

verus! {

/// The page number asked for, at least 1 (1 when absent).
pub open spec fn page_number(page: Option<i64>) -> int {
    match page {
        Some(p) => if p >= 1 { p as int } else { 1 },
        None => 1,
    }
}

/// The page size asked for, clamped to 1..=100 (10 when absent).
pub open spec fn page_size(limit: Option<i64>) -> int {
    match limit {
        Some(l) => if l < 1 { 1 } else if l > 100 { 100 } else { l as int },
        None => 10,
    }
}

/// The LIMIT and OFFSET of a page of the track list.
pub fn page_bounds(page: Option<i64>, limit: Option<i64>) -> (bounds: (i64, i64))
    requires
        (page_number(page) - 1) * page_size(limit) <= i64::MAX,
    ensures
        bounds.0 == page_size(limit),
        bounds.1 == (page_number(page) - 1) * page_size(limit),
{
    let page = match page {
        Some(p) => p,
        None => 1,
    }.max(1);
    let limit = match limit {
        Some(l) => l,
        None => 10,
    };
    let limit = if limit < 1 { 1 } else if limit > 100 { 100 } else { limit };
    assert(0 <= (page - 1) * limit) by (nonlinear_arith)
        requires page >= 1, limit >= 1;
    (limit, (page - 1) * limit)
}

/// The canonical text of an id (`uuid::Uuid`'s display: lowercase hex in
/// 8-4-4-4-12 groups).
pub uninterp spec fn uuid_text(id: u128) -> Seq<char>;

/// The display of `uuid::Uuid::from_u128(id)`.
/// Trusted: the text depends on the id alone.
#[verifier::external_body]
fn uuid_string(id: u128) -> (text: String)
    ensures
        text@ == uuid_text(id),
{
    uuid::Uuid::from_u128(id).to_string()
}

/// The storage key of a track's uploaded file: `tracks/{id}/original.{ext}`.
pub fn object_key(track_id: u128, ext: &str) -> (key: String)
    ensures
        key@ == "tracks/"@ + uuid_text(track_id) + "/original."@ + ext@,
{
    let mut key = String::from_str("tracks/");
    let id = uuid_string(track_id);
    key.append(id.as_str());
    key.append("/original.");
    key.append(ext);
    key
}

/// The fields that registering a track requires: a title, then a file. The
/// title is returned when both are there.
pub fn required_upload_fields(title: Option<String>, has_file: bool) -> (result: Result<String, AppError>)
    ensures
        title is None ==> (result matches Err(AppError::Validation(m)) && m@ == "Title is required"@),
        title is Some && !has_file ==> (result matches Err(AppError::Validation(m)) && m@
            == "Audio file is required"@),
        title is Some && has_file ==> result == Ok::<String, AppError>(title.unwrap()),
{
    match title {
        None => Err(AppError::Validation(String::from_str("Title is required"))),
        Some(t) => {
            if has_file {
                Ok(t)
            } else {
                Err(AppError::Validation(String::from_str("Audio file is required")))
            }
        },
    }
}

} // verus!
