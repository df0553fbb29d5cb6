//! The NAR hash of a file system tree and its Nix rendering.

use crate::hashing::{md5, md5_spec, sha1, sha1_spec, sha256, sha256_spec, sha512_array, sha512_spec};
use crate::nar::{nar, nar_bytes, NarNode};
use crate::nixbase32::{encode_bytes, lemma_encode_ascii, lemma_encode_injective, spec_encode};
use crate::nixhash::{algo_name, algo_name_bytes, HashAlgo, NixHash};
use crate::text::{ascii_chars, lemma_ascii_chars_injective, push_all, string_from_ascii};
use vstd::prelude::*;

verus! {

#[verifier::external_type_specification]
#[verifier::external_body]
pub struct ExIoError(std::io::Error);

/// Errors of NAR hashing.
#[derive(Debug)]
pub enum NarHashError {
    /// Reading the tree failed.
    IoError(std::io::Error),
    /// The tree holds something that is neither a file, a directory nor a
    /// symlink; the string names its path.
    UnsupportedFileType(String),
}

/// The algorithm a request names; SHA-256 when it names none.
pub open spec fn requested_algo(algo: Option<HashAlgo>) -> HashAlgo {
    match algo {
        Some(a) => a,
        None => HashAlgo::Sha256,
    }
}

/// The digest of `data` under an algorithm.
pub open spec fn digest_under(a: HashAlgo, data: Seq<u8>) -> Seq<u8> {
    match a {
        HashAlgo::Md5 => md5_spec(data),
        HashAlgo::Sha1 => sha1_spec(data),
        HashAlgo::Sha256 => sha256_spec(data),
        HashAlgo::Sha512 => sha512_spec(data),
    }
}

/// What NAR hashing returns for a tree: a hash under the requested
/// algorithm whose digest is that of the tree's archive, and the archive's
/// size.
pub open spec fn nar_hash_result(root: NarNode, algo: Option<HashAlgo>, h: NixHash, size: u64) -> bool {
    &&& h.algo_spec() == requested_algo(algo)
    &&& h.digest_spec() == digest_under(requested_algo(algo), nar_bytes(root))
    &&& size == nar_bytes(root).len()
}

/// Hashes the archive bytes of a tree under the requested algorithm.
pub(crate) fn hash_archive(bytes: &[u8], algo: Option<HashAlgo>) -> (h: NixHash)
    ensures
        h.algo_spec() == requested_algo(algo),
        h.digest_spec() == digest_under(requested_algo(algo), bytes@),
{
    match algo {
        Some(HashAlgo::Md5) => NixHash::Md5(md5(bytes)),
        Some(HashAlgo::Sha1) => NixHash::Sha1(sha1(bytes)),
        Some(HashAlgo::Sha512) => NixHash::Sha512(sha512_array(bytes)),
        _ => NixHash::Sha256(sha256(bytes)),
    }
}

/// The NAR hash of a tree under the requested algorithm (SHA-256 by
/// default) and the size of its archive.
pub fn calculate_nar_hash(root: &NarNode, algo: Option<HashAlgo>) -> (r: Result<(NixHash, u64), NarHashError>)
    ensures
        r matches Ok((h, size)) && nar_hash_result(*root, algo, h, size),
{
    let bytes = nar(root);
    let h = hash_archive(bytes.as_slice(), algo);
    let size = bytes.len() as u64;
    Ok((h, size))
}

/// `<algo>:<nixbase32 digest>`.
pub open spec fn nar_hash_text(h: NixHash) -> Seq<u8> {
    algo_name(h.algo_spec()) + seq![58u8] + spec_encode(h.digest_spec())
}

/// Renders a hash as Nix writes NAR hashes: `<algo>:<nixbase32 digest>`,
/// e.g. `sha256:08za7nnjda8kpdsd73v3mhykjvp0rsmskwsr37winhmzgm6iw79w`.
pub fn format_nar_hash(hash: &NixHash) -> (r: String)
    ensures
        r@ == ascii_chars(nar_hash_text(*hash)),
{
    string_from_ascii(nar_hash_text_bytes(hash))
}

/// `<algo>:<nixbase32 digest>`, as bytes.
pub fn nar_hash_text_bytes(hash: &NixHash) -> (r: Vec<u8>)
    ensures
        r@ == nar_hash_text(*hash),
        crate::text::all_ascii(r@),
{
    let mut r = algo_name_bytes(hash.algo());
    r.push(58u8);
    let e = encode_bytes(hash.digest_as_bytes());
    push_all(&mut r, e.as_slice());
    proof {
        lemma_encode_ascii(hash.digest_spec());
    }
    assert(r@ =~= nar_hash_text(*hash));
    r
}

/// The text of a NAR hash determines the hash: its fourth byte tells the
/// algorithm apart (`:` after `md5`, `1`, `2`, `5` for the SHA names),
/// and the nixbase32 digest after the colon determines the digest.
pub proof fn lemma_nar_hash_text_injective(h1: NixHash, h2: NixHash)
    requires
        nar_hash_text(h1) == nar_hash_text(h2),
    ensures
        h1 == h2,
{
    let t = nar_hash_text(h1);
    let n1 = algo_name(h1.algo_spec());
    let n2 = algo_name(h2.algo_spec());
    assert(t[3] == (n1 + seq![58u8] + spec_encode(h1.digest_spec()))[3]);
    assert(t[3] == (n2 + seq![58u8] + spec_encode(h2.digest_spec()))[3]);
    assert(h1.algo_spec() == h2.algo_spec());
    let l = n1.len() + 1int;
    assert(t.skip(l) =~= spec_encode(h1.digest_spec()));
    assert(nar_hash_text(h2).skip(l) =~= spec_encode(h2.digest_spec()));
    lemma_encode_injective(h1.digest_spec(), h2.digest_spec());
    match h1 {
        NixHash::Md5(d1) => {
            let d2 = h2->Md5_0;
            assert(d1 =~= d2);
        },
        NixHash::Sha1(d1) => {
            let d2 = h2->Sha1_0;
            assert(d1 =~= d2);
        },
        NixHash::Sha256(d1) => {
            let d2 = h2->Sha256_0;
            assert(d1 =~= d2);
        },
        NixHash::Sha512(d1) => {
            let d2 = h2->Sha512_0;
            assert(*d1 =~= *d2);
        },
    }
}

/// Two NAR hashes formatted alike are the same hash.
pub proof fn lemma_format_nar_hash_injective(h1: NixHash, h2: NixHash)
    requires
        ascii_chars(nar_hash_text(h1)) == ascii_chars(nar_hash_text(h2)),
    ensures
        h1 == h2,
{
    lemma_ascii_chars_injective(nar_hash_text(h1), nar_hash_text(h2));
    lemma_nar_hash_text_injective(h1, h2);
}

} // verus!
