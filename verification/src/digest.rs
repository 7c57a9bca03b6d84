//! The cryptographic digest behind the final pipeline stage.  The digest
//! computation itself is the outside hash implementation's; this module
//! names its result and parses algorithm names.

use vstd::prelude::*;

use vstd::string::StringExecFns;

use crate::args::str_eq;
use crate::errors::DedupError;
use crate::fs_entry::Heuristic;

verus! {

broadcast use vstd::string::group_string_axioms;

/// The hash algorithm used to confirm duplicate contents.
#[derive(Clone, Copy, PartialEq, Eq, Structural, Debug)]
pub enum HashAlgo {
    Md5,
    Sha1,
    Sha256,
    Sha512,
}

/// A numeric tag distinguishing the algorithms in specifications.
pub open spec fn algo_tag(a: HashAlgo) -> int {
    match a {
        HashAlgo::Md5 => 0,
        HashAlgo::Sha1 => 1,
        HashAlgo::Sha256 => 2,
        HashAlgo::Sha512 => 3,
    }
}

/// The digest the outside hash implementation produces for a byte string
/// under the algorithm with the given tag: a function of both alone.
pub uninterp spec fn digest_of(tag: int, data: Seq<u8>) -> Seq<u8>;

/// Relies on crypto_hash::digest: the digest depends on the algorithm and
/// the input bytes alone, and has the documented fixed width per
/// algorithm.  The call panics only if the backing implementation cannot
/// accept bytes, which the crate treats as impossible.
#[verifier::external_body]
fn digest_bytes(algo: HashAlgo, data: &Vec<u8>) -> (r: Vec<u8>)
    ensures
        r@ == digest_of(algo_tag(algo), data@),
        algo == HashAlgo::Md5 ==> r@.len() == 16,
        algo == HashAlgo::Sha1 ==> r@.len() == 20,
        algo == HashAlgo::Sha256 ==> r@.len() == 32,
        algo == HashAlgo::Sha512 ==> r@.len() == 64,
{
    let a = match algo {
        HashAlgo::Md5 => crypto_hash::Algorithm::MD5,
        HashAlgo::Sha1 => crypto_hash::Algorithm::SHA1,
        HashAlgo::Sha256 => crypto_hash::Algorithm::SHA256,
        HashAlgo::Sha512 => crypto_hash::Algorithm::SHA512,
    };
    crypto_hash::digest(a, data.as_slice())
}

/// The hash heuristic over a file's full contents.
pub fn fn_file_hash(data: &Vec<u8>, algo: HashAlgo) -> (r: Result<Heuristic, DedupError>)
    ensures
        r matches Ok(h) && h@ == crate::fs_entry::HeuristicView::Hash(
            digest_of(algo_tag(algo), data@),
        ),
{
    let d = digest_bytes(algo, data);
    Ok(Heuristic::Hash(d))
}

/// Parses an algorithm name; anything but the four known names is refused.
pub fn algo_from_str(s: &str) -> (r: Result<HashAlgo, DedupError>)
    ensures
        s@ == "md5"@ ==> r == Ok::<HashAlgo, DedupError>(HashAlgo::Md5),
        s@ == "sha1"@ ==> r == Ok::<HashAlgo, DedupError>(HashAlgo::Sha1),
        s@ == "sha256"@ ==> r == Ok::<HashAlgo, DedupError>(HashAlgo::Sha256),
        s@ == "sha512"@ ==> r == Ok::<HashAlgo, DedupError>(HashAlgo::Sha512),
        s@ != "md5"@ && s@ != "sha1"@ && s@ != "sha256"@ && s@ != "sha512"@ ==> (r matches Err(e)
            && e matches DedupError::Config(m) && m@ == "Cannot parse algorithm: "@ + s@),
{
    proof {
        reveal_strlit("md5");
        reveal_strlit("sha1");
        reveal_strlit("sha256");
        reveal_strlit("sha512");
        assert("md5"@.len() == 3);
        assert("sha1"@.len() == 4);
        assert("sha256"@.len() == 6);
        assert("sha512"@.len() == 6);
        assert("sha256"@[3] == '2');
        assert("sha512"@[3] == '5');
    }
    if str_eq(s, "md5") {
        Ok(HashAlgo::Md5)
    } else if str_eq(s, "sha1") {
        Ok(HashAlgo::Sha1)
    } else if str_eq(s, "sha256") {
        Ok(HashAlgo::Sha256)
    } else if str_eq(s, "sha512") {
        Ok(HashAlgo::Sha512)
    } else {
        let mut m = String::from_str("Cannot parse algorithm: ");
        m.append(s);
        Err(DedupError::Config(m))
    }
}

} // verus!
