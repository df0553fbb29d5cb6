//! Nix hashes: an algorithm and its digest, and content-address hashes.

use crate::hashing::{hex_lower, spec_hex_lower, lemma_hex_ascii};
use crate::text::{all_ascii, push_all};
use vstd::prelude::*;

verus! {

/// The hash algorithms Nix knows.
#[derive(Clone, Copy, Debug, PartialEq, Eq)]
pub enum HashAlgo {
    Md5,
    Sha1,
    Sha256,
    Sha512,
}

/// A digest together with the algorithm that produced it.
#[derive(Clone, Debug, PartialEq, Eq)]
pub enum NixHash {
    Md5([u8; 16]),
    Sha1([u8; 20]),
    Sha256([u8; 32]),
    Sha512(Box<[u8; 64]>),
}

/// How a store path is content-addressed.
#[derive(Clone, Debug, PartialEq, Eq)]
pub enum CAHash {
    /// The hash of a flat file.
    Flat(NixHash),
    /// The hash of a NAR serialisation.
    Nar(NixHash),
    /// The SHA-256 of a text file with references.
    Text([u8; 32]),
}

/// The name of an algorithm, as Nix writes it.
pub open spec fn algo_name(a: HashAlgo) -> Seq<u8> {
    match a {
        HashAlgo::Md5 => seq![109u8, 100, 53],
        HashAlgo::Sha1 => seq![115u8, 104, 97, 49],
        HashAlgo::Sha256 => seq![115u8, 104, 97, 50, 53, 54],
        HashAlgo::Sha512 => seq![115u8, 104, 97, 53, 49, 50],
    }
}

/// The name of an algorithm.
pub fn algo_name_bytes(a: HashAlgo) -> (r: Vec<u8>)
    ensures
        r@ == algo_name(a),
        all_ascii(r@),
{
    let r: Vec<u8> = match a {
        HashAlgo::Md5 => vec![109u8, 100, 53],
        HashAlgo::Sha1 => vec![115u8, 104, 97, 49],
        HashAlgo::Sha256 => vec![115u8, 104, 97, 50, 53, 54],
        HashAlgo::Sha512 => vec![115u8, 104, 97, 53, 49, 50],
    };
    assert(r@ =~= algo_name(a));
    r
}

impl NixHash {
    /// The algorithm of the hash.
    pub open spec fn algo_spec(&self) -> HashAlgo {
        match self {
            NixHash::Md5(_) => HashAlgo::Md5,
            NixHash::Sha1(_) => HashAlgo::Sha1,
            NixHash::Sha256(_) => HashAlgo::Sha256,
            NixHash::Sha512(_) => HashAlgo::Sha512,
        }
    }

    /// The digest bytes.
    pub open spec fn digest_spec(&self) -> Seq<u8> {
        match self {
            NixHash::Md5(d) => d@,
            NixHash::Sha1(d) => d@,
            NixHash::Sha256(d) => d@,
            NixHash::Sha512(d) => d@,
        }
    }

    /// The algorithm of the hash.
    pub fn algo(&self) -> (r: HashAlgo)
        ensures
            r == self.algo_spec(),
    {
        match self {
            NixHash::Md5(_) => HashAlgo::Md5,
            NixHash::Sha1(_) => HashAlgo::Sha1,
            NixHash::Sha256(_) => HashAlgo::Sha256,
            NixHash::Sha512(_) => HashAlgo::Sha512,
        }
    }

    /// The digest bytes.
    pub fn digest_as_bytes(&self) -> (r: &[u8])
        ensures
            r@ == self.digest_spec(),
            r@.len() <= 64,
    {
        match self {
            NixHash::Md5(d) => d.as_slice(),
            NixHash::Sha1(d) => d.as_slice(),
            NixHash::Sha256(d) => d.as_slice(),
            NixHash::Sha512(d) => d.as_slice(),
        }
    }

    /// `<algo>:<lower-case hex digest>`, as bytes.
    pub fn to_nix_hex_bytes(&self) -> (r: Vec<u8>)
        ensures
            r@ == nix_hex_string(*self),
            all_ascii(r@),
    {
        let mut r = algo_name_bytes(self.algo());
        r.push(58u8);
        let d = self.digest_as_bytes();
        let h = hex_lower(d);
        push_all(&mut r, h.as_slice());
        proof {
            lemma_hex_ascii(self.digest_spec());
        }
        assert(r@ =~= nix_hex_string(*self));
        r
    }
}

/// `<algo>:<lower-case hex digest>`.
pub open spec fn nix_hex_string(h: NixHash) -> Seq<u8> {
    algo_name(h.algo_spec()) + seq![58u8] + spec_hex_lower(h.digest_spec())
}

impl CAHash {
    /// The hash inside a content address (for text, its SHA-256).
    pub open spec fn hash_spec(&self) -> NixHash {
        match self {
            CAHash::Flat(h) => *h,
            CAHash::Nar(h) => *h,
            CAHash::Text(d) => NixHash::Sha256(*d),
        }
    }

    /// The hash inside a content address.
    pub fn hash(&self) -> (r: NixHash)
        ensures
            r == self.hash_spec(),
    {
        match self {
            CAHash::Flat(h) => copy_hash(h),
            CAHash::Nar(h) => copy_hash(h),
            CAHash::Text(d) => NixHash::Sha256(*d),
        }
    }
}

/// A copy of `h`.
pub fn copy_hash(h: &NixHash) -> (r: NixHash)
    ensures
        r == *h,
{
    match h {
        NixHash::Md5(d) => NixHash::Md5(*d),
        NixHash::Sha1(d) => NixHash::Sha1(*d),
        NixHash::Sha256(d) => NixHash::Sha256(*d),
        NixHash::Sha512(d) => NixHash::Sha512(Box::new(**d)),
    }
}

} // verus!
