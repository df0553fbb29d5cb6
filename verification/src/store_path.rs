//! Store paths: a 20-byte digest and a name, rendered as
//! `/nix/store/<nixbase32 digest>-<name>`, and the ways Nix computes them.

use crate::hashing::{compress_hash20, hex_lower, sha256, sha256_spec, spec_compress20, spec_hex_lower, lemma_hex_ascii};
use crate::nixbase32::{encode_bytes, lemma_encode_ascii, spec_encode};
use crate::nixhash::{algo_name, nix_hex_string, CAHash, NixHash};
use crate::text::{all_ascii, ascii_chars, push_all, string_from_ascii};
use vstd::prelude::*;

verus! {

/// Longest name a store path may have.
pub const MAX_NAME_LEN: usize = 211;

/// `/nix/store/`
pub open spec fn store_dir_slash() -> Seq<u8> {
    seq![47u8, 110, 105, 120, 47, 115, 116, 111, 114, 101, 47]
}

/// Characters allowed in store path names: `a-z A-Z 0-9 + - . _ ? =`.
pub open spec fn valid_name_char(c: u8) -> bool {
    ||| 48 <= c <= 57
    ||| 65 <= c <= 90
    ||| 97 <= c <= 122
    ||| c == 43
    ||| c == 45
    ||| c == 46
    ||| c == 95
    ||| c == 63
    ||| c == 61
}

/// All of the first `k` characters are allowed.
pub open spec fn chars_valid_upto(s: Seq<u8>, k: int) -> bool {
    forall|i: int| 0 <= i < k ==> #[trigger] valid_name_char(s[i])
}

/// A valid store path name: 1 to 211 allowed characters, not starting with
/// a dot.
pub open spec fn valid_name(s: Seq<u8>) -> bool {
    &&& 1 <= s.len() <= MAX_NAME_LEN
    &&& chars_valid_upto(s, s.len() as int)
    &&& s[0] != 46
}

/// Valid names are ASCII.
pub proof fn lemma_valid_name_ascii(s: Seq<u8>)
    requires
        chars_valid_upto(s, s.len() as int),
    ensures
        all_ascii(s),
{
    assert forall|i: int| 0 <= i < s.len() implies #[trigger] s[i] < 128 by {
        assert(valid_name_char(s[i]));
    }
}

/// Why a name (or a store path) is rejected.
#[derive(Clone, Debug, PartialEq, Eq)]
pub enum StorePathError {
    /// Empty or longer than 211 bytes.
    InvalidLength,
    /// The name, and the offset of the offending character.
    InvalidName(Vec<u8>, u8),
}

/// `e` is the error for the invalid name `s`: its length, else the first
/// disallowed character, else the leading dot.
pub open spec fn name_error(s: Seq<u8>, e: StorePathError) -> bool {
    if s.len() == 0 || s.len() > MAX_NAME_LEN {
        e == StorePathError::InvalidLength
    } else {
        match e {
            StorePathError::InvalidName(v, i) => {
                &&& v@ == s
                &&& if chars_valid_upto(s, s.len() as int) {
                    i == 0 && s[0] == 46
                } else {
                    &&& i < s.len()
                    &&& !valid_name_char(s[i as int])
                    &&& chars_valid_upto(s, i as int)
                }
            },
            _ => false,
        }
    }
}

fn is_valid_name_char(c: u8) -> (r: bool)
    ensures
        r == valid_name_char(c),
{
    (48 <= c && c <= 57) || (65 <= c && c <= 90) || (97 <= c && c <= 122) || c == 43 || c == 45
        || c == 46 || c == 95 || c == 63 || c == 61
}

/// Checks a store path name.
pub fn validate_name(s: &[u8]) -> (r: Result<(), StorePathError>)
    ensures
        r is Ok <==> valid_name(s@),
        r matches Err(e) ==> name_error(s@, e),
{
    if s.len() == 0 || s.len() > MAX_NAME_LEN {
        return Err(StorePathError::InvalidLength);
    }
    let mut i: usize = 0;
    while i < s.len()
        invariant
            1 <= s@.len() <= MAX_NAME_LEN,
            i <= s@.len(),
            chars_valid_upto(s@, i as int),
        decreases s@.len() - i,
    {
        if !is_valid_name_char(s[i]) {
            let v = vstd::slice::slice_to_vec(s);
            return Err(StorePathError::InvalidName(v, i as u8));
        }
        i = i + 1;
    }
    if s[0] == 46 {
        let v = vstd::slice::slice_to_vec(s);
        return Err(StorePathError::InvalidName(v, 0));
    }
    Ok(())
}

/// A store path: the 20-byte digest and the name.
#[derive(Debug, PartialEq, Eq)]
pub struct StorePath {
    digest: [u8; 20],
    name: Vec<u8>,
}

impl View for StorePath {
    type V = (Seq<u8>, Seq<u8>);

    closed spec fn view(&self) -> (Seq<u8>, Seq<u8>) {
        (self.digest@, self.name@)
    }
}

/// `/nix/store/<nixbase32 digest>-<name>`.
pub open spec fn absolute_path(digest: Seq<u8>, name: Seq<u8>) -> Seq<u8> {
    store_dir_slash() + spec_encode(digest) + seq![45u8] + name
}

/// An absolute store path is `/nix/store/`, the 32 characters of the
/// digest, a dash and the name.
pub proof fn lemma_absolute_path_layout(digest: Seq<u8>, name: Seq<u8>)
    requires
        digest.len() == 20,
    ensures
        absolute_path(digest, name).len() == 44 + name.len(),
        absolute_path(digest, name).subrange(0, 11) == store_dir_slash(),
        absolute_path(digest, name).subrange(11, 43) == spec_encode(digest),
        absolute_path(digest, name)[43] == 45u8,
        absolute_path(digest, name).subrange(44, 44 + name.len() as int) == name,
{
    let p = absolute_path(digest, name);
    assert(spec_encode(digest).len() == 32);
    assert(p.subrange(0, 11) =~= store_dir_slash());
    assert(p.subrange(11, 43) =~= spec_encode(digest));
    assert(p.subrange(44, 44 + name.len() as int) =~= name);
}

impl StorePath {
    #[verifier::type_invariant]
    spec fn inv(self) -> bool {
        valid_name(self.name@)
    }

    /// Makes a store path from a digest and a name, checking the name.
    pub fn from_name_and_digest(name: &[u8], digest: [u8; 20]) -> (r: Result<StorePath, StorePathError>)
        ensures
            r matches Ok(p) ==> p@ == (digest@, name@),
            r is Ok <==> valid_name(name@),
            r matches Err(e) ==> name_error(name@, e),
    {
        match validate_name(name) {
            Ok(()) => Ok(StorePath { digest, name: vstd::slice::slice_to_vec(name) }),
            Err(e) => Err(e),
        }
    }

    /// The digest.
    pub fn digest(&self) -> (r: &[u8; 20])
        ensures
            r@ == self@.0,
    {
        &self.digest
    }

    /// The name.
    pub fn name_bytes(&self) -> (r: &Vec<u8>)
        ensures
            r@ == self@.1,
            valid_name(self@.1),
    {
        proof {
            use_type_invariant(self);
        }
        &self.name
    }

    /// The absolute path, as bytes.
    pub fn to_absolute_path_bytes(&self) -> (r: Vec<u8>)
        ensures
            r@ == absolute_path(self@.0, self@.1),
            all_ascii(r@),
    {
        proof {
            use_type_invariant(self);
        }
        let mut r: Vec<u8> = vec![47u8, 110, 105, 120, 47, 115, 116, 111, 114, 101, 47];
        let e = encode_bytes(self.digest.as_slice());
        push_all(&mut r, e.as_slice());
        r.push(45u8);
        push_all(&mut r, self.name.as_slice());
        proof {
            lemma_encode_ascii(self.digest@);
            lemma_valid_name_ascii(self.name@);
        }
        assert(r@ =~= absolute_path(self@.0, self@.1));
        r
    }

    /// The absolute path.
    pub fn to_absolute_path(&self) -> (r: String)
        ensures
            r@ == ascii_chars(absolute_path(self@.0, self@.1)),
    {
        string_from_ascii(self.to_absolute_path_bytes())
    }
}

/// `ty:sha256:<hex inner digest>:/nix/store:<name>`, the string whose hash
/// names a store path.
pub open spec fn fingerprint(ty: Seq<u8>, inner_digest: Seq<u8>, name: Seq<u8>) -> Seq<u8> {
    ty + seq![58u8, 115, 104, 97, 50, 53, 54, 58] + spec_hex_lower(inner_digest) + seq![
        58u8,
        47,
        110,
        105,
        120,
        47,
        115,
        116,
        111,
        114,
        101,
        58,
    ] + name
}

/// The digest of the store path with these fingerprint parts.
pub open spec fn fingerprint_digest(ty: Seq<u8>, inner_digest: Seq<u8>, name: Seq<u8>) -> Seq<u8> {
    spec_compress20(sha256_spec(fingerprint(ty, inner_digest, name)))
}

/// The store path for a fingerprint type, an inner digest and a name: the
/// SHA-256 of the fingerprint, folded to 20 bytes.
pub fn build_store_path_from_fingerprint_parts(ty: &[u8], inner_digest: &[u8; 32], name: &[u8]) -> (r:
    Result<StorePath, StorePathError>)
    ensures
        r is Ok <==> valid_name(name@),
        r matches Ok(p) ==> p@ == (fingerprint_digest(ty@, inner_digest@, name@), name@),
        r matches Err(e) ==> name_error(name@, e),
{
    let mut fp: Vec<u8> = Vec::new();
    push_all(&mut fp, ty);
    push_all(&mut fp, &[58u8, 115, 104, 97, 50, 53, 54, 58]);
    let h = hex_lower(inner_digest.as_slice());
    push_all(&mut fp, h.as_slice());
    push_all(&mut fp, &[58u8, 47, 110, 105, 120, 47, 115, 116, 111, 114, 101, 58]);
    push_all(&mut fp, name);
    assert(fp@ =~= fingerprint(ty@, inner_digest@, name@));
    let d = sha256(fp.as_slice());
    let c = compress_hash20(d.as_slice());
    StorePath::from_name_and_digest(name, c)
}

/// Why a content-addressed store path cannot be built.
#[derive(Clone, Debug, PartialEq, Eq)]
pub enum BuildStorePathError {
    /// The name is not a valid store path name.
    InvalidStorePath(StorePathError),
    /// References (or a self-reference) that this kind of content address
    /// cannot carry.
    InvalidReference,
}

/// The references, each preceded by a colon.
pub open spec fn refs_joined(refs: Seq<Seq<u8>>) -> Seq<u8>
    decreases refs.len(),
{
    if refs.len() == 0 {
        Seq::empty()
    } else {
        refs_joined(refs.drop_last()) + seq![58u8] + refs.last()
    }
}

/// `ty`, then `:<ref>` for each reference, then `:self` for a
/// self-reference.
pub open spec fn references_string(ty: Seq<u8>, refs: Seq<Seq<u8>>, self_ref: bool) -> Seq<u8> {
    ty + refs_joined(refs) + if self_ref {
        seq![58u8, 115, 101, 108, 102]
    } else {
        Seq::empty()
    }
}

fn make_references_string(ty: &[u8], refs: &[Vec<u8>], self_ref: bool) -> (r: Vec<u8>)
    ensures
        r@ == references_string(ty@, refs@.map_values(|v: Vec<u8>| v@), self_ref),
{
    let ghost rv = refs@.map_values(|v: Vec<u8>| v@);
    let mut r: Vec<u8> = Vec::new();
    push_all(&mut r, ty);
    let mut i: usize = 0;
    while i < refs.len()
        invariant
            rv == refs@.map_values(|v: Vec<u8>| v@),
            i <= refs@.len(),
            r@ == ty@ + refs_joined(rv.take(i as int)),
        decreases refs@.len() - i,
    {
        assert(rv.take(i + 1).drop_last() =~= rv.take(i as int));
        r.push(58u8);
        push_all(&mut r, refs[i].as_slice());
        i = i + 1;
        assert(r@ =~= ty@ + refs_joined(rv.take(i as int)));
    }
    assert(rv.take(i as int) =~= rv);
    if self_ref {
        push_all(&mut r, &[58u8, 115, 101, 108, 102]);
    }
    assert(r@ =~= references_string(ty@, rv, self_ref));
    r
}

/// `text`
pub open spec fn text_ty() -> Seq<u8> {
    seq![116u8, 101, 120, 116]
}

/// `source`
pub open spec fn source_ty() -> Seq<u8> {
    seq![115u8, 111, 117, 114, 99, 101]
}

/// `output:out`
pub open spec fn output_out_ty() -> Seq<u8> {
    seq![111u8, 117, 116, 112, 117, 116, 58, 111, 117, 116]
}

/// `fixed:out:`
pub open spec fn fixed_out() -> Seq<u8> {
    seq![102u8, 105, 120, 101, 100, 58, 111, 117, 116, 58]
}

/// The fingerprint type and inner digest of a content address, or `None`
/// where the references (or the self-reference) are not allowed: a
/// self-reference only with a SHA-256 NAR hash, references not with other
/// NAR hashes nor with flat hashes.
pub open spec fn ca_parts(ca: CAHash, refs: Seq<Seq<u8>>, self_ref: bool) -> Option<(Seq<u8>, Seq<u8>)> {
    let nar_sha256 = ca matches CAHash::Nar(NixHash::Sha256(_));
    if self_ref && !nar_sha256 {
        None
    } else {
        match ca {
            CAHash::Text(d) => Some((references_string(text_ty(), refs, false), d@)),
            CAHash::Nar(NixHash::Sha256(d)) => Some((references_string(source_ty(), refs, self_ref), d@)),
            CAHash::Nar(h) => if refs.len() > 0 {
                None
            } else {
                Some((output_out_ty(), sha256_spec(fixed_out() + seq![114u8, 58] + nix_hex_string(h) + seq![58u8])))
            },
            CAHash::Flat(h) => if refs.len() > 0 {
                None
            } else {
                Some((output_out_ty(), sha256_spec(fixed_out() + nix_hex_string(h) + seq![58u8])))
            },
        }
    }
}

/// What [`build_ca_path`] returns for a name, a content address, references
/// and the self-reference flag.
pub open spec fn ca_path_ok(
    name: Seq<u8>,
    ca: CAHash,
    refs: Seq<Seq<u8>>,
    self_ref: bool,
    r: Result<StorePath, BuildStorePathError>,
) -> bool {
    match ca_parts(ca, refs, self_ref) {
        None => r == Err::<StorePath, BuildStorePathError>(BuildStorePathError::InvalidReference),
        Some((ty, inner)) => match r {
            Ok(p) => valid_name(name) && p@ == (fingerprint_digest(ty, inner, name), name),
            Err(BuildStorePathError::InvalidStorePath(e)) => !valid_name(name) && name_error(name, e),
            Err(BuildStorePathError::InvalidReference) => false,
        },
    }
}

/// The store path of a fixed output (a flat hash, or a NAR hash by another
/// algorithm than SHA-256) is the `output:out` path of the SHA-256 of
/// `fixed:out:`, then `r:` for a NAR hash and nothing for a flat one, then
/// the algorithm's name, `:`, the lower-case hex digest and `:`.
pub proof fn lemma_fixed_ca_path(name: Seq<u8>, h: NixHash, nar: bool, p: StorePath)
    requires
        !(nar && h is Sha256),
        ca_path_ok(
            name,
            if nar {
                CAHash::Nar(h)
            } else {
                CAHash::Flat(h)
            },
            Seq::empty(),
            false,
            Ok(p),
        ),
    ensures
        p@.1 == name,
        p@.0 == fingerprint_digest(
            seq![111u8, 117, 116, 112, 117, 116, 58, 111, 117, 116],
            sha256_spec(
                seq![102u8, 105, 120, 101, 100, 58, 111, 117, 116, 58] + (if nar {
                    seq![114u8, 58]
                } else {
                    Seq::<u8>::empty()
                }) + algo_name(h.algo_spec()) + seq![58u8] + spec_hex_lower(h.digest_spec()) + seq![58u8],
            ),
            name,
        ),
{
    let hx = algo_name(h.algo_spec()) + seq![58u8] + spec_hex_lower(h.digest_spec());
    assert(nix_hex_string(h) == hx);
    if nar {
        assert(fixed_out() + seq![114u8, 58] + nix_hex_string(h) + seq![58u8] =~= seq![102u8, 105, 120, 101, 100, 58, 111, 117, 116, 58] + seq![114u8, 58] + algo_name(h.algo_spec()) + seq![58u8] + spec_hex_lower(h.digest_spec()) + seq![58u8]);
    } else {
        assert(fixed_out() + nix_hex_string(h) + seq![58u8] =~= seq![102u8, 105, 120, 101, 100, 58, 111, 117, 116, 58] + Seq::<u8>::empty() + algo_name(h.algo_spec()) + seq![58u8] + spec_hex_lower(h.digest_spec()) + seq![58u8]);
    }
}

/// The store path of a text file, or of a tree by its SHA-256 NAR hash, is
/// made of the digest itself: the fingerprint type is `text`, or `source`,
/// followed by `:<reference>` for each reference in order, and for a tree
/// `:self` when it refers to itself.
pub proof fn lemma_digest_ca_path(name: Seq<u8>, d: [u8; 32], text: bool, refs: Seq<Seq<u8>>, self_ref: bool, p: StorePath)
    requires
        !(text && self_ref),
        ca_path_ok(
            name,
            if text {
                CAHash::Text(d)
            } else {
                CAHash::Nar(NixHash::Sha256(d))
            },
            refs,
            self_ref,
            Ok(p),
        ),
    ensures
        p@.1 == name,
        p@.0 == fingerprint_digest(
            (if text {
                seq![116u8, 101, 120, 116]
            } else {
                seq![115u8, 111, 117, 114, 99, 101]
            }) + refs_joined(refs) + (if self_ref {
                seq![58u8, 115, 101, 108, 102]
            } else {
                Seq::<u8>::empty()
            }),
            d@,
            name,
        ),
{
    if text {
        assert(references_string(text_ty(), refs, false) =~= seq![116u8, 101, 120, 116] + refs_joined(refs) + Seq::<u8>::empty());
    } else {
        assert(references_string(source_ty(), refs, self_ref) =~= seq![115u8, 111, 117, 114, 99, 101] + refs_joined(refs) + (if self_ref {
            seq![58u8, 115, 101, 108, 102]
        } else {
            Seq::<u8>::empty()
        }));
    }
}

/// A flat and a NAR content address with the same (not SHA-256) hash hash
/// the same text, except that the NAR one carries `r:` right after
/// `fixed:out:`, where the flat one carries none.
pub proof fn lemma_flat_and_nar_ca_paths(name: Seq<u8>, h: NixHash, pf: StorePath, pn: StorePath)
    requires
        !(h is Sha256),
        ca_path_ok(name, CAHash::Flat(h), Seq::empty(), false, Ok(pf)),
        ca_path_ok(name, CAHash::Nar(h), Seq::empty(), false, Ok(pn)),
    ensures
        exists|t: Seq<u8>|
            t.len() >= 12 && t.take(10) == seq![102u8, 105, 120, 101, 100, 58, 111, 117, 116, 58] && t.subrange(10, 12)
                != seq![114u8, 58] && pf@.0 == fingerprint_digest(output_out_ty(), #[trigger] sha256_spec(t), name)
                && pn@.0 == fingerprint_digest(
                output_out_ty(),
                sha256_spec(t.take(10) + seq![114u8, 58] + t.skip(10)),
                name,
            ),
{
    lemma_fixed_ca_path(name, h, false, pf);
    lemma_fixed_ca_path(name, h, true, pn);
    let a = algo_name(h.algo_spec());
    let t = seq![102u8, 105, 120, 101, 100, 58, 111, 117, 116, 58] + Seq::<u8>::empty() + a + seq![58u8]
        + spec_hex_lower(h.digest_spec()) + seq![58u8];
    assert(t.take(10) =~= seq![102u8, 105, 120, 101, 100, 58, 111, 117, 116, 58]);
    assert(t[10] == a[0]);
    assert(a[0] != 114u8);
    assert(t.take(10) + seq![114u8, 58] + t.skip(10) =~= seq![102u8, 105, 120, 101, 100, 58, 111, 117, 116, 58]
        + seq![114u8, 58] + a + seq![58u8] + spec_hex_lower(h.digest_spec()) + seq![58u8]);
    assert(seq![111u8, 117, 116, 112, 117, 116, 58, 111, 117, 116] =~= output_out_ty());
    assert(t.subrange(10, 12)[0] == t[10]);
}

/// The store path of content-addressed data with the given references.
pub fn build_ca_path(name: &[u8], ca_hash: &CAHash, references: &[Vec<u8>], self_reference: bool) -> (r:
    Result<StorePath, BuildStorePathError>)
    ensures
        ca_path_ok(name@, *ca_hash, references@.map_values(|v: Vec<u8>| v@), self_reference, r),
{
    let ghost rv = references@.map_values(|v: Vec<u8>| v@);
    let nar_sha256 = match ca_hash {
        CAHash::Nar(NixHash::Sha256(_)) => true,
        _ => false,
    };
    if self_reference && !nar_sha256 {
        return Err(BuildStorePathError::InvalidReference);
    }
    let (ty, inner): (Vec<u8>, [u8; 32]) = match ca_hash {
        CAHash::Text(d) => (make_references_string(&[116u8, 101, 120, 116], references, false), *d),
        CAHash::Nar(NixHash::Sha256(d)) => (
            make_references_string(&[115u8, 111, 117, 114, 99, 101], references, self_reference),
            *d,
        ),
        CAHash::Nar(h) => {
            if references.len() > 0 {
                return Err(BuildStorePathError::InvalidReference);
            }
            let mut s: Vec<u8> = vec![102u8, 105, 120, 101, 100, 58, 111, 117, 116, 58, 114, 58];
            let hx = h.to_nix_hex_bytes();
            push_all(&mut s, hx.as_slice());
            s.push(58u8);
            assert(s@ =~= fixed_out() + seq![114u8, 58] + nix_hex_string(*h) + seq![58u8]);
            (vec![111u8, 117, 116, 112, 117, 116, 58, 111, 117, 116], sha256(s.as_slice()))
        },
        CAHash::Flat(h) => {
            if references.len() > 0 {
                return Err(BuildStorePathError::InvalidReference);
            }
            let mut s: Vec<u8> = vec![102u8, 105, 120, 101, 100, 58, 111, 117, 116, 58];
            let hx = h.to_nix_hex_bytes();
            push_all(&mut s, hx.as_slice());
            s.push(58u8);
            assert(s@ =~= fixed_out() + nix_hex_string(*h) + seq![58u8]);
            (vec![111u8, 117, 116, 112, 117, 116, 58, 111, 117, 116], sha256(s.as_slice()))
        },
    };
    proof {
        assert(seq![116u8, 101, 120, 116] =~= text_ty());
        assert(seq![115u8, 111, 117, 114, 99, 101] =~= source_ty());
        assert(seq![111u8, 117, 116, 112, 117, 116, 58, 111, 117, 116] =~= output_out_ty());
    }
    assert(ca_parts(*ca_hash, rv, self_reference) == Some((ty@, inner@)));
    match build_store_path_from_fingerprint_parts(ty.as_slice(), &inner, name) {
        Ok(p) => Ok(p),
        Err(e) => Err(BuildStorePathError::InvalidStorePath(e)),
    }
}

/// The store path of a text file with references (how `.drv` files are
/// stored): a content address of the SHA-256 of the content.
pub fn build_text_path(name: &[u8], content: &[u8], references: &[Vec<u8>]) -> (r: Result<
    StorePath,
    BuildStorePathError,
>)
    ensures
        ca_path_ok(
            name@,
            CAHash::Text(sha256_digest_array(content@)),
            references@.map_values(|v: Vec<u8>| v@),
            false,
            r,
        ),
        sha256_digest_array(content@)@ == sha256_spec(content@),
{
    let d = sha256(content);
    proof {
        lemma_digest_array(content@, d);
    }
    build_ca_path(name, &CAHash::Text(d), references, false)
}

/// The 32-byte array holding the SHA-256 digest of `data`.
pub open spec fn sha256_digest_array(data: Seq<u8>) -> [u8; 32] {
    choose|a: [u8; 32]| a@ == sha256_spec(data)
}

/// An array holding the digest is the digest array.
pub proof fn lemma_digest_array(data: Seq<u8>, a: [u8; 32])
    requires
        a@ == sha256_spec(data),
    ensures
        sha256_digest_array(data) == a,
{
    let b = sha256_digest_array(data);
    assert(b@ == sha256_spec(data));
    assert(a@ =~= b@);
    assert forall|i: int| 0 <= i < 32 implies a[i] == b[i] by {
        assert(a@[i] == b@[i]);
    }
    assert(a =~= b);
}

/// `output:<output name>`
pub open spec fn output_ty(output_name: Seq<u8>) -> Seq<u8> {
    seq![111u8, 117, 116, 112, 117, 116, 58] + output_name
}

/// The store path of the output `output_name` of an input-addressed
/// derivation whose modular hash is `drv_sha256`.
pub fn build_output_path(drv_sha256: &[u8; 32], output_name: &[u8], output_path_name: &[u8]) -> (r:
    Result<StorePath, StorePathError>)
    ensures
        r is Ok <==> valid_name(output_path_name@),
        r matches Ok(p) ==> p@ == (
            fingerprint_digest(output_ty(output_name@), drv_sha256@, output_path_name@),
            output_path_name@,
        ),
        r matches Err(e) ==> name_error(output_path_name@, e),
{
    let mut ty: Vec<u8> = vec![111u8, 117, 116, 112, 117, 116, 58];
    push_all(&mut ty, output_name);
    assert(ty@ =~= output_ty(output_name@));
    build_store_path_from_fingerprint_parts(ty.as_slice(), drv_sha256, output_path_name)
}

} // verus!
