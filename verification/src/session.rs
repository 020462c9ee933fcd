//! Session identity: per-project session files are named by a digest of the
//! canonical working directory, so one directory always maps to the same
//! file and different directories to different files.
use sha2::Digest;
use vstd::prelude::*;

verus! {

use vstd::string::StringSliceAdditionalSpecFns;
use vstd::string::StrSliceExecFns;
use vstd::string::StringExecFns;

/// The lowercase hexadecimal SHA-256 digest of a byte sequence; a function
/// of the bytes alone.
pub uninterp spec fn sha256_hex_of(s: Seq<u8>) -> Seq<char>;

/// Relies on sha2::Sha256 (update/finalize) and lowercase hex formatting:
/// the digest of 32 bytes renders as exactly 64 hex characters and depends
/// on the input bytes alone.
#[verifier::external_body]
fn sha256_hex(data: &[u8]) -> (r: String)
    ensures
        r@ == sha256_hex_of(data@),
        r@.len() == 64,
{
    let mut hasher = sha2::Sha256::new();
    hasher.update(data);
    format!("{:x}", hasher.finalize())
}

/// The session file name for a canonical working-directory path: the first
/// sixteen hex characters of the path's SHA-256 digest, with a `.json`
/// extension.
pub fn session_file_name(canonical_path: &str) -> (r: String)
    ensures
        r@ == sha256_hex_of(canonical_path.spec_bytes()).subrange(0, 16) + ".json"@,
        r@.len() == 21,
{
    let hash = sha256_hex(canonical_path.as_bytes());
    let prefix = hash.as_str().substring_char(0, 16);
    let mut name = prefix.to_owned();
    name.append(".json");
    proof {
        reveal_strlit(".json");
    }
    name
}

} // verus!
