//! Where the embedded Metal hook is put, and whether it must be written.
//!
//! The path is the same for the same content, so that recordings at the same
//! time share one copy and the file is not written anew each time.

use crate::paths::{join_path, joined_path};
use crate::text::{hex, zero_filled};
use sha2::Digest;
use vstd::prelude::*;

verus! {

broadcast use vstd::string::group_string_axioms;

/// The SHA-256 digest that `sha2` computes.
pub uninterp spec fn sha256(data: Seq<u8>) -> Seq<u8>;

/// Calls `sha2::Sha256::digest`: thirty-two bytes that depend on the content
/// alone.
#[verifier::external_body]
fn digest(data: &[u8]) -> (d: Vec<u8>)
    ensures
        d@ == sha256(data@),
        d@.len() == 32,
{
    sha2::Sha256::digest(data).to_vec()
}

/// Bytes as hexadecimal digits, two for each.
pub open spec fn hex_digits(data: Seq<u8>) -> Seq<char>
    decreases data.len(),
{
    if data.len() == 0 {
        seq![]
    } else {
        hex_digits(data.drop_last()) + zero_filled(hex(data.last() as nat), 2)
    }
}

/// Calls `hex::encode`: each byte as two lowercase hexadecimal digits.
#[verifier::external_body]
fn encode_hex(data: &[u8]) -> (s: String)
    ensures
        s@ == hex_digits(data@),
{
    hex::encode(data)
}

/// The first six bytes of a digest as hexadecimal digits.
pub open spec fn abbreviated(digest: Seq<u8>) -> Seq<char> {
    hex_digits(digest.take(6))
}

/// The first six bytes of a digest as hexadecimal digits.
pub fn abbreviate(digest: &[u8]) -> (s: String)
    requires
        digest@.len() >= 6,
    ensures
        s@ == abbreviated(digest@),
{
    let mut head: Vec<u8> = Vec::new();
    let mut i: usize = 0;
    while i < 6
        invariant
            i <= 6 <= digest@.len(),
            head@ == digest@.take(i as int),
        decreases 6 - i,
    {
        head.push(digest[i]);
        assert(head@ =~= digest@.take(i + 1));
        i = i + 1;
    }
    encode_hex(head.as_slice())
}

/// What tells one content from another.
pub fn dylib_fingerprint(dylib: &[u8]) -> (s: String)
    ensures
        s@ == abbreviated(sha256(dylib@)),
{
    abbreviate(digest(dylib).as_slice())
}

/// Where the hook is put, and whether it must be written there.
#[derive(Debug, Clone, PartialEq, Eq)]
pub struct Extraction {
    pub path: String,
    pub write: bool,
}

/// The path of a hook in a directory.
pub open spec fn hook_path(dir: Seq<char>, fingerprint: Seq<char>) -> Seq<char> {
    joined_path(dir, "libmetal_hook-"@ + fingerprint + ".dylib"@)
}

/// The path of a hook in a directory, given its fingerprint.
pub fn path_with(dir: &str, fingerprint: &str) -> (p: String)
    ensures
        p@ == hook_path(dir@, fingerprint@),
{
    let mut name = "libmetal_hook-".to_owned();
    name.append(fingerprint);
    name.append(".dylib");
    join_path(dir, name.as_str())
}

/// The path of a hook in a directory.
pub fn extraction_path(dir: &str, dylib: &[u8]) -> (p: String)
    ensures
        p@ == hook_path(dir@, abbreviated(sha256(dylib@))),
{
    path_with(dir, dylib_fingerprint(dylib).as_str())
}

/// Are the two contents the same?
fn same_bytes(a: &[u8], b: &[u8]) -> (r: bool)
    ensures
        r == (a@ == b@),
{
    if a.len() != b.len() {
        return false;
    }
    let mut i: usize = 0;
    while i < a.len()
        invariant
            i <= a@.len() == b@.len(),
            forall|k: int| 0 <= k < i ==> a@[k] == b@[k],
        decreases a@.len() - i,
    {
        if a[i] != b[i] {
            return false;
        }
        i = i + 1;
    }
    assert(a@ =~= b@);
    true
}

/// Puts the hook into a directory, given what its file holds, where it can be
/// read: it is written unless it is there already.
pub fn extract_to(dir: &str, dylib: &[u8], existing: Option<&[u8]>) -> (e: Extraction)
    ensures
        e.path@ == hook_path(dir@, abbreviated(sha256(dylib@))),
        e.write == match existing {
            Some(b) => b@ != dylib@,
            None => true,
        },
{
    let write: bool = match existing {
        Some(b) => !same_bytes(b, dylib),
        None => true,
    };
    Extraction { path: extraction_path(dir, dylib), write }
}

/// Puts the hook into the directory for temporary files.
pub fn extract(tmp_dir: &str, dylib: &[u8], existing: Option<&[u8]>) -> (e: Extraction)
    ensures
        e.path@ == hook_path(tmp_dir@, abbreviated(sha256(dylib@))),
        e.write == match existing {
            Some(b) => b@ != dylib@,
            None => true,
        },
{
    extract_to(tmp_dir, dylib, existing)
}

} // verus!
