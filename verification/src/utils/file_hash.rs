use vstd::prelude::*;
use sha2::{Digest, Sha256};
use crate::utils::text::string_from_chars;

verus! {

/// The SHA-256 digest of `data`.
pub uninterp spec fn sha256(data: Seq<u8>) -> Seq<u8>;

/// `sha2::Sha256::digest`.
/// Trusted: the digest is a function of the data alone and is 32 bytes long.
#[verifier::external_body]
fn sha256_digest(data: &[u8]) -> (digest: Vec<u8>)
    ensures
        digest@ == sha256(data@),
        digest@.len() == 32,
{
    Sha256::digest(data).to_vec()
}

/// The lowercase hexadecimal digit of `n < 16`.
pub open spec fn hex_digit(n: int) -> char {
    "0123456789abcdef"@[n]
}

/// Lowercase hexadecimal encoding: two digits per byte, high nibble first.
pub open spec fn hex_lower(bytes: Seq<u8>) -> Seq<char>
    decreases bytes.len(),
{
    if bytes.len() == 0 {
        Seq::empty()
    } else {
        hex_lower(bytes.drop_last()) + seq![hex_digit(bytes.last() as int / 16), hex_digit(bytes.last() as int % 16)]
    }
}

proof fn lemma_hex_lower_len(bytes: Seq<u8>)
    ensures
        hex_lower(bytes).len() == 2 * bytes.len(),
    decreases bytes.len(),
{
    if bytes.len() > 0 {
        lemma_hex_lower_len(bytes.drop_last());
    }
}

/// The lowercase hexadecimal SHA-256 digest of a file, used to recognise
/// uploads of the same file.
pub fn generate_file_hash(file: &[u8]) -> (hash: String)
    ensures
        hash@ == hex_lower(sha256(file@)),
        hash@.len() == 64,
{
    let digest = sha256_digest(file);
    let digits = ['0', '1', '2', '3', '4', '5', '6', '7', '8', '9', 'a', 'b', 'c', 'd', 'e', 'f'];
    proof {
        reveal_strlit("0123456789abcdef");
        assert(digits@ =~= "0123456789abcdef"@);
    }
    let mut chars: Vec<char> = Vec::new();
    let mut i: usize = 0;
    while i < digest.len()
        invariant
            i <= digest@.len(),
            digits@ == "0123456789abcdef"@,
            chars@ == hex_lower(digest@.take(i as int)),
        decreases digest@.len() - i,
    {
        let b = digest[i];
        chars.push(digits[(b / 16) as usize]);
        chars.push(digits[(b % 16) as usize]);
        assert(digest@.take(i + 1).drop_last() =~= digest@.take(i as int));
        assert(chars@ =~= hex_lower(digest@.take(i + 1)));
        i += 1;
    }
    assert(digest@.take(digest@.len() as int) =~= digest@);
    proof {
        lemma_hex_lower_len(digest@);
    }
    string_from_chars(chars.as_slice())
}

} // verus!
