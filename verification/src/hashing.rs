//! MD5, SHA-1, SHA-256 and SHA-512 (computed by the `md-5`, `sha1` and
//! `sha2` crates), lower-case hex, and the XOR folding Nix uses to shorten
//! digests.

use sha2::Digest;
use vstd::prelude::*;

verus! {

/// The SHA-256 digest of `data`, as the `sha2` crate computes it.
pub uninterp spec fn sha256_spec(data: Seq<u8>) -> Seq<u8>;

/// Calls `sha2::Sha256::new_with_prefix(data).finalize()`: the SHA-256
/// digest of `data`. The contract names the digest and states that it is
/// 32 bytes long (the array type); nothing else about SHA-256 is stated.
#[verifier::external_body]
pub(crate) fn sha256(data: &[u8]) -> (r: [u8; 32])
    ensures
        r@ == sha256_spec(data@),
        r@.len() == 32,
{
    sha2::Sha256::new_with_prefix(data).finalize().into()
}

/// The MD5 digest of `data`, as the `md-5` crate computes it.
pub uninterp spec fn md5_spec(data: Seq<u8>) -> Seq<u8>;

/// Calls `md5::Md5::new_with_prefix(data).finalize()`: the MD5 digest of
/// `data`. The contract names the digest and states that it is 16 bytes
/// long (the array type); nothing else about MD5 is stated.
#[verifier::external_body]
pub(crate) fn md5(data: &[u8]) -> (r: [u8; 16])
    ensures
        r@ == md5_spec(data@),
        r@.len() == 16,
{
    md5::Md5::new_with_prefix(data).finalize().into()
}

/// The SHA-1 digest of `data`, as the `sha1` crate computes it.
pub uninterp spec fn sha1_spec(data: Seq<u8>) -> Seq<u8>;

/// Calls `sha1::Sha1::new_with_prefix(data).finalize()`: the SHA-1 digest
/// of `data`. The contract names the digest and states that it is 20 bytes
/// long (the array type); nothing else about SHA-1 is stated.
#[verifier::external_body]
pub(crate) fn sha1(data: &[u8]) -> (r: [u8; 20])
    ensures
        r@ == sha1_spec(data@),
        r@.len() == 20,
{
    sha1::Sha1::new_with_prefix(data).finalize().into()
}

/// The SHA-512 digest of `data`, as the `sha2` crate computes it.
pub uninterp spec fn sha512_spec(data: Seq<u8>) -> Seq<u8>;

/// Calls `sha2::Sha512::new_with_prefix(data).finalize()` and copies the
/// digest into a vector: the SHA-512 digest of `data`. The contract names
/// the digest and states that it is 64 bytes long (the output size of
/// `Sha512`); nothing else about SHA-512 is stated.
#[verifier::external_body]
pub(crate) fn sha512(data: &[u8]) -> (r: Vec<u8>)
    ensures
        r@ == sha512_spec(data@),
        r@.len() == 64,
{
    sha2::Sha512::new_with_prefix(data).finalize().to_vec()
}

/// The SHA-512 digest of `data` in a 64-byte array.
pub(crate) fn sha512_array(data: &[u8]) -> (r: Box<[u8; 64]>)
    ensures
        r@ == sha512_spec(data@),
{
    let v = sha512(data);
    let mut a: [u8; 64] = [0u8; 64];
    let mut i: usize = 0;
    while i < 64
        invariant
            i <= 64,
            v@.len() == 64,
            a@.len() == 64,
            forall|k: int| 0 <= k < i ==> a@[k] == v@[k],
        decreases 64 - i,
    {
        a[i] = v[i];
        i = i + 1;
    }
    assert(a@ =~= v@);
    Box::new(a)
}

/// The lower-case hexadecimal digits.
pub const HEX_LOWER: [u8; 16] = [48, 49, 50, 51, 52, 53, 54, 55, 56, 57, 97, 98, 99, 100, 101, 102];

/// Lower-case hex: two digits per byte, high nibble first.
pub open spec fn spec_hex_lower(data: Seq<u8>) -> Seq<u8> {
    Seq::new(
        data.len() * 2,
        |k: int|
            if k % 2 == 0 {
                HEX_LOWER@[(data[k / 2] / 16) as int]
            } else {
                HEX_LOWER@[(data[k / 2] % 16) as int]
            },
    )
}

/// Lower-case hex encoding of `data`.
pub fn hex_lower(data: &[u8]) -> (r: Vec<u8>)
    requires
        data.len() <= usize::MAX / 2,
    ensures
        r@ == spec_hex_lower(data@),
{
    let mut r: Vec<u8> = Vec::with_capacity(data.len() * 2);
    let mut i: usize = 0;
    while i < data.len()
        invariant
            i <= data@.len(),
            r@.len() == 2 * i,
            forall|k: int| 0 <= k < 2 * i ==> r@[k] == #[trigger] spec_hex_lower(data@)[k],
        decreases data@.len() - i,
    {
        let b = data[i];
        r.push(HEX_LOWER[(b / 16) as usize]);
        r.push(HEX_LOWER[(b % 16) as usize]);
        proof {
            assert((2 * i) / 2 == i && (2 * i + 1) / 2 == i && (2 * i) % 2 == 0 && (2 * i + 1) % 2 == 1) by (nonlinear_arith);
        }
        i = i + 1;
    }
    assert(r@ =~= spec_hex_lower(data@));
    r
}

/// Hex digits are ASCII.
pub proof fn lemma_hex_ascii(data: Seq<u8>)
    ensures
        forall|k: int| 0 <= k < spec_hex_lower(data).len() ==> #[trigger] spec_hex_lower(data)[k] < 128,
{
    assert forall|k: int| 0 <= k < spec_hex_lower(data).len() implies #[trigger] spec_hex_lower(data)[k] < 128 by {
        assert(0 <= k / 2 < data.len()) by (nonlinear_arith)
            requires 0 <= k < data.len() * 2;
    }
}

/// Byte `j` of the 20-byte fold of `input`: the XOR of every input byte at
/// an index congruent to `j` modulo 20, taken in index order.
pub open spec fn fold_byte(input: Seq<u8>, j: int, upto: int) -> u8
    decreases upto,
{
    if upto <= 0 {
        0
    } else if (upto - 1) % 20 == j {
        fold_byte(input, j, upto - 1) ^ input[upto - 1]
    } else {
        fold_byte(input, j, upto - 1)
    }
}

/// Nix's `compress_hash` to 20 bytes: input byte `i` is XORed into output
/// byte `i % 20`.
pub open spec fn spec_compress20(input: Seq<u8>) -> Seq<u8> {
    Seq::new(20, |j: int| fold_byte(input, j, input.len() as int))
}

/// Folds `input` into 20 bytes.
pub fn compress_hash20(input: &[u8]) -> (r: [u8; 20])
    ensures
        r@ == spec_compress20(input@),
{
    let mut out: [u8; 20] = [0u8; 20];
    let mut i: usize = 0;
    while i < input.len()
        invariant
            i <= input@.len(),
            out@.len() == 20,
            forall|j: int| 0 <= j < 20 ==> #[trigger] out@[j] == fold_byte(input@, j, i as int),
        decreases input@.len() - i,
    {
        let j = i % 20;
        let v = out[j] ^ input[i];
        out[j] = v;
        assert forall|x: int| 0 <= x < 20 implies #[trigger] out@[x] == fold_byte(input@, x, i + 1) by {
            if x == j {
            } else {
                assert((i as int) % 20 != x);
            }
        }
        i = i + 1;
    }
    assert(out@ =~= spec_compress20(input@));
    out
}

} // verus!
