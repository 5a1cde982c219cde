//! Rules of the object store client.
use vstd::prelude::*;

verus! {

/// Why a download is refused before its body is read.
#[derive(Debug, Clone, Copy, PartialEq, Eq)]
pub enum DownloadRefusal {
    /// The store did not say how large the object is.
    UnknownLength,
    /// The object is larger than the limit.
    TooLarge,
}

/// Whether an object of the announced length may be downloaded: its length
/// must be known and, read as a `usize`, at most `max_file_size`.
pub fn check_download_size(content_length: Option<i64>, max_file_size: usize) -> (verdict: Result<
    (),
    DownloadRefusal,
>)
    ensures
        content_length is None ==> verdict == Err::<(), _>(DownloadRefusal::UnknownLength),
        content_length matches Some(len) ==> (verdict is Ok <==> (len as usize) <= max_file_size),
        content_length matches Some(len) && (len as usize) > max_file_size ==> verdict == Err::<(), _>(
            DownloadRefusal::TooLarge,
        ),
{
    match content_length {
        None => Err(DownloadRefusal::UnknownLength),
        Some(len) => {
            if len as usize > max_file_size {
                Err(DownloadRefusal::TooLarge)
            } else {
                Ok(())
            }
        },
    }
}

} // verus!
