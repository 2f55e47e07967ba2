//! Content equality between files, given their bytes: the two paths
//! denoting the same filesystem entry counts as equal (identity implies
//! duplicate), unequal sizes are rejected without hashing, and equal
//! sizes are settled by comparing content digests.

use vstd::prelude::*;

verus! {

/// The hexadecimal content digest of a byte string, as the md5 crate
/// renders it; a function of the bytes alone.
pub uninterp spec fn md5_hex_of(bytes: Seq<u8>) -> Seq<u8>;

/// Relies on md5::compute and the upper-hex rendering of its Digest:
/// the digest is a function of the input bytes alone and prints as
/// exactly 32 hexadecimal characters, two per digest byte.
#[verifier::external_body]
pub(crate) fn md5_hex(bytes: &Vec<u8>) -> (r: Vec<u8>)
    ensures
        r@ == md5_hex_of(bytes@),
        r@.len() == 32,
{
    format!("{:X}", md5::compute(bytes.as_slice())).into_bytes()
}

/// When two files count as one content: they are the same filesystem
/// entry, or they have the same size and the same content digest.
pub open spec fn contents_equal(same_entry: bool, a: Seq<u8>, b: Seq<u8>) -> bool {
    same_entry || (a.len() == b.len() && md5_hex_of(a) == md5_hex_of(b))
}

/// Byte-for-byte comparison.
pub fn bytes_equal(a: &Vec<u8>, b: &Vec<u8>) -> (r: bool)
    ensures
        r == (a@ == b@),
{
    if a.len() != b.len() {
        return false;
    }
    let n: usize = a.len();
    let mut k: usize = 0;
    while k < n
        invariant
            n == a@.len() == b@.len(),
            0 <= k <= n,
            forall|t: int| 0 <= t < k ==> a@[t] == b@[t],
        decreases n - k,
    {
        if a[k] != b[k] {
            return false;
        }
        k = k + 1;
    }
    proof {
        assert(a@ =~= b@);
    }
    true
}

/// Decides whether two files hold the same content, from their bytes
/// and whether their paths denote the identical filesystem entry.
/// Sizes are compared first; only equal sizes are hashed.
pub fn files_equal(same_entry: bool, a: &Vec<u8>, b: &Vec<u8>) -> (r: bool)
    ensures
        r == contents_equal(same_entry, a@, b@),
{
    if same_entry {
        return true;
    }
    if a.len() != b.len() {
        return false;
    }
    let da = md5_hex(a);
    let db = md5_hex(b);
    bytes_equal(&da, &db)
}

/// Byte-identical files are always recognized as duplicates: equal
/// bytes force equal sizes and equal content digests.
pub proof fn lemma_identical_bytes_equal(same_entry: bool, a: Seq<u8>, b: Seq<u8>)
    requires
        a == b,
    ensures
        contents_equal(same_entry, a, b),
{
}

} // verus!
