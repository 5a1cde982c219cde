//! The subscription handshake of the job-status socket.
use vstd::prelude::*;
use crate::utils::text::{chars_of, string_from_chars, trim, trim_chars};

verus! {

/// Whether `uuid::Uuid::parse_str` accepts `s`.
pub uninterp spec fn uuid_parses(s: Seq<char>) -> bool;

/// The id, as an integer, that `uuid::Uuid::parse_str` reads from `s`.
pub uninterp spec fn uuid_value(s: Seq<char>) -> u128;

/// `uuid::Uuid::parse_str`, the id taken as an integer.
/// Trusted: whether the text parses, and to which id, depends on the text
/// alone.
#[verifier::external_body]
fn parse_uuid(s: &str) -> (id: Option<u128>)
    ensures
        id is Some <==> uuid_parses(s@),
        id matches Some(v) ==> v == uuid_value(s@),
{
    match uuid::Uuid::parse_str(s) {
        Ok(u) => Some(u.as_u128()),
        Err(_) => None,
    }
}

/// What the first message of a client asks for.
#[derive(Debug, Clone, Copy, PartialEq, Eq)]
pub enum Subscription {
    /// Follow the jobs of this track.
    Track(u128),
    /// The text is not a track id.
    InvalidId,
    /// The first message is not text.
    NotText,
}

/// The subscription that a client's first message asks for: its text,
/// trimmed, must be a track id; `None` stands for a first message that is
/// not text (or no message at all).
pub fn subscription_request(first: Option<&str>) -> (sub: Subscription)
    ensures
        first is None ==> sub == Subscription::NotText,
        first matches Some(t) ==> (uuid_parses(trim(t@)) ==> sub == Subscription::Track(uuid_value(trim(t@)))),
        first matches Some(t) ==> (!uuid_parses(trim(t@)) ==> sub == Subscription::InvalidId),
{
    match first {
        None => Subscription::NotText,
        Some(text) => {
            let chars = chars_of(text);
            let trimmed = trim_chars(&chars);
            let id_text = string_from_chars(trimmed.as_slice());
            match parse_uuid(id_text.as_str()) {
                Some(id) => Subscription::Track(id),
                None => Subscription::InvalidId,
            }
        },
    }
}

} // verus!
