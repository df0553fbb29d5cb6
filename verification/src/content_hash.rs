//! Content hashes of store paths: NAR hashes, the rewrite patterns that turn
//! input-addressed store path hashes into content-addressed ones, and the
//! first pass of that conversion (the synthetic content-addressed store
//! path of an output, computed modulo its self-references).

use crate::hashing::{sha256, sha256_spec};
use crate::nar::{nar, nar_bytes, NarNode};
use crate::nar_hash::{hash_archive, nar_hash_result, nar_hash_text, nar_hash_text_bytes};
use crate::nixhash::{CAHash, HashAlgo, NixHash};
use crate::refscan::{
    bytes_view, entry_needles, lengths_match, match_end, match_fits, matches_complete, matches_valid, max_len, rewrite_in_place,
    occurs_at, rewrite_positions, rewrite_runs, rewritten, Match, RewriteEntry, RewritePattern,
};
use crate::store_path::{
    build_ca_path, ca_path_ok, fingerprint_digest, lemma_digest_array, references_string, sha256_digest_array,
    source_ty, BuildStorePathError, StorePath, StorePathError,
};
use crate::text::{ascii_chars, decimal, push_all, spec_decimal, string_from_ascii};
use std::collections::BTreeSet;
use vstd::prelude::*;
use vstd::string::StringSliceAdditionalSpecFns;

verus! {

/// The kind of an I/O error, as `std::io::ErrorKind` names it.
#[derive(Clone, Copy, Debug, PartialEq, Eq)]
pub enum IoErrorKind {
    InvalidInput,
    Other,
}

/// Errors of content hashing: an I/O error of the given kind, with its
/// message.
#[derive(Debug)]
pub enum HashError {
    IoError(IoErrorKind, String),
}

/// The NAR hash of a tree under the requested algorithm (SHA-256 by
/// default) and the size of its archive.
pub fn calculate_nar_hash(root: &NarNode, algo: Option<HashAlgo>) -> (r: Result<(NixHash, u64), HashError>)
    ensures
        r matches Ok((h, size)) && nar_hash_result(*root, algo, h, size),
{
    let bytes = nar(root);
    let h = hash_archive(bytes.as_slice(), algo);
    let size = bytes.len() as u64;
    Ok((h, size))
}

/// Renders a hash as `<algo>:<nixbase32 digest>`.
pub fn format_nar_hash(hash: &NixHash) -> (r: String)
    ensures
        r@ == ascii_chars(nar_hash_text(*hash)),
{
    string_from_ascii(nar_hash_text_bytes(hash))
}

/// Length of a nixbase32-encoded store path hash (160 bits / 5 = 32 chars).
pub const STORE_PATH_HASH_LEN: usize = 32;

/// `store-path hash must be 32 chars (got <n>)`
pub open spec fn length_message(n: nat) -> Seq<u8> {
    seq![115u8, 116, 111, 114, 101, 45, 112, 97, 116, 104, 32, 104, 97, 115, 104, 32, 109, 117, 115, 116, 32, 98, 101, 32, 51, 50, 32, 99, 104, 97, 114, 115, 32, 40, 103, 111, 116, 32]
        + spec_decimal(n) + seq![41u8]
}

fn length_message_string(n: usize) -> (r: String)
    ensures
        r@ == ascii_chars(length_message(n as nat)),
{
    let mut m: Vec<u8> = vec![115u8, 116, 111, 114, 101, 45, 112, 97, 116, 104, 32, 104, 97, 115, 104, 32, 109, 117, 115, 116, 32, 98, 101, 32, 51, 50, 32, 99, 104, 97, 114, 115, 32, 40, 103, 111, 116, 32];
    let d = decimal(n as u64);
    push_all(&mut m, d.as_slice());
    m.push(41u8);
    proof {
        crate::text::lemma_decimal_ascii(n as nat);
    }
    assert(m@ =~= length_message(n as nat));
    string_from_ascii(m)
}

/// Accepts exactly the strings of [`STORE_PATH_HASH_LEN`] bytes; others are
/// rejected as invalid input (`store-path hash must be 32 chars (got n)`).
pub fn validate_hash_str(s: &str) -> (r: Result<(), HashError>)
    ensures
        r is Ok <==> s.spec_bytes().len() == STORE_PATH_HASH_LEN,
        s.spec_bytes().len() != STORE_PATH_HASH_LEN ==> invalid_length_error(s.spec_bytes().len(), r),
{
    let n = s.as_bytes().len();
    if n != STORE_PATH_HASH_LEN {
        let msg = length_message_string(n);
        return Err(HashError::IoError(IoErrorKind::InvalidInput, msg));
    }
    Ok(())
}

/// `r` is the invalid-input error for a hash of `n` bytes.
pub open spec fn invalid_length_error<T>(n: nat, r: Result<T, HashError>) -> bool {
    r matches Err(HashError::IoError(k, m)) && k == IoErrorKind::InvalidInput && m@ == ascii_chars(
        length_message(n),
    )
}

/// The length of the first string of the map (each needle, then its
/// replacement, from index `i` on, then the self hash) that is not a store
/// path hash.
pub open spec fn first_invalid_len(pairs: Seq<(Seq<u8>, Seq<u8>)>, self_mask: Option<Seq<u8>>, i: int) -> Option<nat>
    decreases pairs.len() - i,
{
    if i < 0 {
        None
    } else if i < pairs.len() {
        if pairs[i].0.len() != STORE_PATH_HASH_LEN {
            Some(pairs[i].0.len())
        } else if pairs[i].1.len() != STORE_PATH_HASH_LEN {
            Some(pairs[i].1.len())
        } else {
            first_invalid_len(pairs, self_mask, i + 1)
        }
    } else {
        match self_mask {
            Some(h) => if h.len() != STORE_PATH_HASH_LEN {
                Some(h.len())
            } else {
                None
            },
            None => None,
        }
    }
}

/// 32 zero bytes.
pub open spec fn zero_hash() -> Seq<u8> {
    Seq::new(STORE_PATH_HASH_LEN as nat, |i: int| 0u8)
}

fn zeros(n: usize) -> (r: Vec<u8>)
    ensures
        r@ == Seq::new(n as nat, |i: int| 0u8),
{
    let mut r: Vec<u8> = Vec::new();
    let mut i: usize = 0;
    while i < n
        invariant
            i <= n,
            r@ == Seq::new(i as nat, |k: int| 0u8),
        decreases n - i,
    {
        r.push(0u8);
        i = i + 1;
        assert(r@ =~= Seq::new(i as nat, |k: int| 0u8));
    }
    r
}

/// The entries of a rewrite map: every pair rewritten without recording,
/// then (optionally) the self hash masked with zeros, recording positions.
pub open spec fn map_entries(pairs: Seq<(Seq<u8>, Seq<u8>)>, self_mask: Option<Seq<u8>>) -> Seq<(Seq<u8>, Seq<u8>, bool)> {
    let deps = pairs.map_values(|p: (Seq<u8>, Seq<u8>)| (p.0, p.1, false));
    match self_mask {
        Some(h) => deps.push((h, zero_hash(), true)),
        None => deps,
    }
}

/// The byte view of an entry.
pub open spec fn entry_view(e: RewriteEntry) -> (Seq<u8>, Seq<u8>, bool) {
    (e.needle@, e.replacement@, e.record_positions)
}

/// Every string of the map (and the self hash) is a store path hash.
pub open spec fn map_valid(pairs: Seq<(Seq<u8>, Seq<u8>)>, self_mask: Option<Seq<u8>>) -> bool {
    &&& forall|i: int| 0 <= i < pairs.len() ==> (#[trigger] pairs[i]).0.len() == STORE_PATH_HASH_LEN
        && pairs[i].1.len() == STORE_PATH_HASH_LEN
    &&& self_mask matches Some(h) ==> h.len() == STORE_PATH_HASH_LEN
}

/// The byte view of the pairs of a rewrite map.
pub open spec fn pairs_view(deps: Seq<(String, String)>) -> Seq<(Seq<u8>, Seq<u8>)> {
    deps.map_values(|p: (String, String)| (vstd::utf8::encode_utf8(p.0@), vstd::utf8::encode_utf8(p.1@)))
}

/// Builds a rewrite pattern over store path hashes from the pairs of a
/// rewrite map (needle to replacement), and optionally a self hash that is
/// masked with zeros and whose positions are recorded. Every string must be
/// [`STORE_PATH_HASH_LEN`] bytes long; otherwise the input is rejected.
pub fn rewrite_pattern_from_map(deps: &[(String, String)], self_mask: Option<&str>) -> (r: Result<
    RewritePattern,
    HashError,
>)
    ensures
        r is Ok <==> map_valid(
            pairs_view(deps@),
            match self_mask {
                Some(s) => Some(s.spec_bytes()),
                None => None,
            },
        ),
        r matches Ok(p) ==> p@.map_values(|e: RewriteEntry| entry_view(e)) == map_entries(
            pairs_view(deps@),
            match self_mask {
                Some(s) => Some(s.spec_bytes()),
                None => None,
            },
        ),
        first_invalid_len(
            pairs_view(deps@),
            match self_mask {
                Some(s) => Some(s.spec_bytes()),
                None => None,
            },
            0,
        ) matches Some(n) ==> invalid_length_error(n, r),
{
    let ghost pv = pairs_view(deps@);
    let ghost sm = match self_mask {
        Some(s) => Some(s.spec_bytes()),
        None => None,
    };
    let mut entries: Vec<RewriteEntry> = Vec::new();
    let mut i: usize = 0;
    while i < deps.len()
        invariant
            pv == pairs_view(deps@),
            i <= deps@.len(),
            forall|k: int| 0 <= k < i ==> (#[trigger] pv[k]).0.len() == STORE_PATH_HASH_LEN
                && pv[k].1.len() == STORE_PATH_HASH_LEN,
            entries@.map_values(|e: RewriteEntry| entry_view(e)) == map_entries(pv.take(i as int), None),
            lengths_match(entries@),
            sm == (match self_mask {
                Some(s) => Some(s.spec_bytes()),
                None => None,
            }),
            first_invalid_len(pv, sm, 0) == first_invalid_len(pv, sm, i as int),
        decreases deps@.len() - i,
    {
        let (needle, replacement) = &deps[i];
        assert(pv[i as int] == (vstd::utf8::encode_utf8(needle@), vstd::utf8::encode_utf8(replacement@)));
        match validate_hash_str(needle.as_str()) {
            Ok(()) => {},
            Err(e) => {
                return Err(e);
            },
        }
        match validate_hash_str(replacement.as_str()) {
            Ok(()) => {},
            Err(e) => {
                return Err(e);
            },
        }
        let nb = vstd::slice::slice_to_vec(needle.as_str().as_bytes());
        let rb = vstd::slice::slice_to_vec(replacement.as_str().as_bytes());
        assert(nb@ == pv[i as int].0);
        assert(rb@ == pv[i as int].1);
        assert(pv.take(i + 1) =~= pv.take(i as int).push(pv[i as int]));
        let ghost before = entries@;
        let entry = RewriteEntry { needle: nb, replacement: rb, record_positions: false };
        let ghost ev = entry_view(entry);
        entries.push(entry);
        assert(entries@.map_values(|e: RewriteEntry| entry_view(e)) =~= before.map_values(|e: RewriteEntry| entry_view(e)).push(ev));
        assert(map_entries(pv.take(i + 1), None) =~= map_entries(pv.take(i as int), None).push((pv[i as int].0, pv[i as int].1, false)));
        i = i + 1;
    }
    assert(pv.take(i as int) =~= pv);
    match self_mask {
        Some(h) => {
            match validate_hash_str(h) {
                Ok(()) => {},
                Err(e) => {
                    return Err(e);
                },
            }
            let hb = vstd::slice::slice_to_vec(h.as_bytes());
            let z = zeros(STORE_PATH_HASH_LEN);
            entries.push(RewriteEntry { needle: hb, replacement: z, record_positions: true });
            assert(entries@.map_values(|e: RewriteEntry| entry_view(e)) =~= map_entries(pv, sm));
        },
        None => {},
    }
    Ok(RewritePattern::new(entries))
}

/// The pattern that masks the self hash with zeros and records where.
pub fn self_mask_pattern(self_ia_hash: &str) -> (r: RewritePattern)
    requires
        self_ia_hash.spec_bytes().len() == STORE_PATH_HASH_LEN,
    ensures
        r@.len() == 1,
        r@[0].needle@ == self_ia_hash.spec_bytes(),
        r@[0].replacement@ == zero_hash(),
        r@[0].record_positions,
{
    let hb = vstd::slice::slice_to_vec(self_ia_hash.as_bytes());
    let z = zeros(STORE_PATH_HASH_LEN);
    let entries: Vec<RewriteEntry> = vec![RewriteEntry { needle: hb, replacement: z, record_positions: true }];
    RewritePattern::new(entries)
}

/// `|<p>` for each position, in order.
pub open spec fn positions_suffix(ps: Seq<u64>) -> Seq<u8>
    decreases ps.len(),
{
    if ps.len() == 0 {
        Seq::empty()
    } else {
        positions_suffix(ps.drop_last()) + seq![124u8] + spec_decimal(ps.last() as nat)
    }
}

/// The positions a self-mask pass records, in increasing order: the match
/// offsets when the pattern has entries, none otherwise.
pub open spec fn ordered_positions(entries: Seq<RewriteEntry>, hay: Seq<u8>, ms: Seq<Match>) -> Seq<u64> {
    if rewrite_runs(entries) {
        ms.map_values(|m: Match| m.start as u64)
    } else {
        Seq::empty()
    }
}

/// The hash modulo self-references: SHA-256 over the masked NAR followed by
/// `|<position>` for each recorded position in increasing order.
pub open spec fn hash_modulo(masked: Seq<u8>, ps: Seq<u64>) -> Seq<u8> {
    sha256_spec(masked + positions_suffix(ps))
}

/// The recorded positions, listed in increasing order, are exactly the
/// positions the self-mask pass records.
pub proof fn lemma_ordered_positions(entries: Seq<RewriteEntry>, hay: Seq<u8>, ms: Seq<Match>)
    requires
        entries.len() == 1,
        entries[0].record_positions,
        entries[0].needle@.len() > 0,
        matches_valid(entry_needles(entries), hay, ms),
    ensures
        forall|i: int, j: int| 0 <= i < j < ordered_positions(entries, hay, ms).len() ==> #[trigger] ordered_positions(entries, hay, ms)[i] < #[trigger] ordered_positions(entries, hay, ms)[j],
        ordered_positions(entries, hay, ms).to_set() == rewrite_positions(entries, hay, 0, ms),
{
    let ps = ordered_positions(entries, hay, ms);
    let nv = entry_needles(entries);
    if rewrite_runs(entries) {
        assert forall|i: int, j: int| 0 <= i < j < ps.len() implies #[trigger] ps[i] < #[trigger] ps[j] by {
            assert(match_end(nv, ms[i]) <= ms[j].start);
            assert(nv[ms[i].pat_idx as int] == entries[ms[i].pat_idx as int].needle@);
        }
        assert forall|p: u64| #[trigger] ps.to_set().contains(p) == rewrite_positions(entries, hay, 0, ms).contains(p) by {
            if ps.to_set().contains(p) {
                let k = choose|k: int| 0 <= k < ps.len() && ps[k] == p;
                assert(match_fits(nv, hay, ms[k]));
                assert(entries[ms[k].pat_idx as int].record_positions);
            }
            if rewrite_positions(entries, hay, 0, ms).contains(p) {
                let k = choose|k: int| 0 <= k < ms.len() && entries[#[trigger] ms[k].pat_idx as int].record_positions && p == 0 + ms[k].start;
                assert(ps[k] == p);
            }
        }
        assert(ps.to_set() =~= rewrite_positions(entries, hay, 0, ms));
    } else {
        assert(ps.to_set() =~= Set::<u64>::empty());
    }
}

/// Byte strings of a list of strings.
pub open spec fn strings_view(v: Seq<String>) -> Seq<Seq<u8>> {
    v.map_values(|s: String| vstd::utf8::encode_utf8(s@))
}

/// What the first pass returns: the masked NAR and the recorded positions
/// (in increasing order) give the hash modulo self-references, and the
/// output's path is the content-addressed path of that SHA-256 NAR hash
/// with the references and, when a self-reference was found, a
/// self-reference.
pub open spec fn pass1_ok(
    nar: Seq<u8>,
    name: Seq<u8>,
    entries: Seq<RewriteEntry>,
    refs: Seq<Seq<u8>>,
    ms: Seq<Match>,
    r: Result<StorePath, HashError>,
) -> bool {
    let masked = rewritten(entries, nar, ms);
    let ps = ordered_positions(entries, nar, ms);
    let h = sha256_digest_array(masked + positions_suffix(ps));
    match r {
        Ok(p) => ca_path_ok(name, CAHash::Nar(NixHash::Sha256(h)), refs, ps.len() > 0, Ok(p)),
        Err(HashError::IoError(k, m)) => k == IoErrorKind::Other && exists|e: BuildStorePathError|
            ca_path_ok(name, CAHash::Nar(NixHash::Sha256(h)), refs, ps.len() > 0, Err(e))
                && m@ == ascii_chars(build_error_text(e)),
    }
}

/// `:self`
pub open spec fn self_marker() -> Seq<u8> {
    seq![58u8, 115, 101, 108, 102]
}

/// The first pass marks a self-reference exactly when the output's own hash
/// occurs in its NAR: the path is the `source` path of a digest, with the
/// references, and then `:self` when the hash occurs and nothing when it
/// does not.
pub proof fn lemma_pass1_self_reference(
    nar: Seq<u8>,
    name: Seq<u8>,
    entries: Seq<RewriteEntry>,
    refs: Seq<Seq<u8>>,
    ms: Seq<Match>,
    p: StorePath,
)
    requires
        entries.len() == 1,
        entries[0].record_positions,
        entries[0].needle@.len() > 0,
        matches_valid(entry_needles(entries), nar, ms),
        matches_complete(entry_needles(entries), nar, ms),
        pass1_ok(nar, name, entries, refs, ms, Ok(p)),
    ensures
        (exists|q: int| occurs_at(nar, entries[0].needle@, q)) ==> exists|h: Seq<u8>|
            p@.0 == #[trigger] fingerprint_digest(
                references_string(source_ty(), refs, false) + self_marker(),
                h,
                name,
            ),
        !(exists|q: int| occurs_at(nar, entries[0].needle@, q)) ==> exists|h: Seq<u8>|
            p@.0 == #[trigger] fingerprint_digest(references_string(source_ty(), refs, false), h, name),
{
    let nv = entry_needles(entries);
    let ps = ordered_positions(entries, nar, ms);
    assert(rewrite_runs(entries));
    assert(ps.len() == ms.len());
    assert(nv[0] == entries[0].needle@);
    let occurs = exists|q: int| occurs_at(nar, entries[0].needle@, q);
    if occurs {
        let q = choose|q: int| occurs_at(nar, entries[0].needle@, q);
        assert(occurs_at(nar, nv[0], q));
        assert(ms.len() > 0);
    }
    if ms.len() > 0 {
        assert(match_fits(nv, nar, ms[0]));
        assert(ms[0].pat_idx == 0);
        assert(occurs_at(nar, entries[0].needle@, ms[0].start as int));
    }
    let masked = rewritten(entries, nar, ms);
    let h = sha256_digest_array(masked + positions_suffix(ps));
    assert(p@.0 == fingerprint_digest(references_string(source_ty(), refs, ps.len() > 0), h@, name));
    if occurs {
        assert(references_string(source_ty(), refs, true) =~= references_string(source_ty(), refs, false) + self_marker());
        assert(p@.0 == fingerprint_digest(references_string(source_ty(), refs, false) + self_marker(), h@, name));
    } else {
        assert(p@.0 == fingerprint_digest(references_string(source_ty(), refs, false), h@, name));
    }
}

/// The message for a store path that cannot be built:
/// `References were not supported` or `Invalid Store Path`.
pub open spec fn build_error_text(e: BuildStorePathError) -> Seq<u8> {
    match e {
        BuildStorePathError::InvalidReference => seq![82u8, 101, 102, 101, 114, 101, 110, 99, 101, 115, 32, 119, 101, 114, 101, 32, 110, 111, 116, 32, 115, 117, 112, 112, 111, 114, 116, 101, 100],
        BuildStorePathError::InvalidStorePath(_) => seq![73u8, 110, 118, 97, 108, 105, 100, 32, 83, 116, 111, 114, 101, 32, 80, 97, 116, 104],
    }
}

fn build_error_message(e: &BuildStorePathError) -> (r: String)
    ensures
        r@ == ascii_chars(build_error_text(*e)),
{
    match e {
        BuildStorePathError::InvalidReference => {
            let b: Vec<u8> = vec![82u8, 101, 102, 101, 114, 101, 110, 99, 101, 115, 32, 119, 101, 114, 101, 32, 110, 111, 116, 32, 115, 117, 112, 112, 111, 114, 116, 101, 100];
            assert(b@ =~= build_error_text(*e));
            string_from_ascii(b)
        },
        BuildStorePathError::InvalidStorePath(_) => {
            let b: Vec<u8> = vec![73u8, 110, 118, 97, 108, 105, 100, 32, 83, 116, 111, 114, 101, 32, 80, 97, 116, 104];
            assert(b@ =~= build_error_text(*e));
            string_from_ascii(b)
        },
    }
}

/// With a self hash added, the first invalid string is the one without it,
/// or else the self hash if that is invalid.
proof fn lemma_first_invalid_self(pairs: Seq<(Seq<u8>, Seq<u8>)>, h: Seq<u8>, i: int)
    requires
        0 <= i,
    ensures
        first_invalid_len(pairs, Some(h), i) == match first_invalid_len(pairs, None, i) {
            Some(n) => Some(n),
            None => if h.len() != STORE_PATH_HASH_LEN {
                Some(h.len())
            } else {
                None
            },
        },
        first_invalid_len(pairs, None, i) is None <==> forall|k: int|
            i <= k < pairs.len() ==> (#[trigger] pairs[k]).0.len() == STORE_PATH_HASH_LEN
                && pairs[k].1.len() == STORE_PATH_HASH_LEN,
    decreases pairs.len() - i,
{
    if i < pairs.len() {
        lemma_first_invalid_self(pairs, h, i + 1);
    }
}

/// Checks the inputs of the first pass before anything is ingested: the
/// dependency rewrites (as for [`rewrite_pattern_from_map`]) and then the
/// output's own hash. Returns the pattern to ingest the output with.
pub fn pass1_rewrite_pattern(deps: &[(String, String)], self_ia_hash: &str) -> (r: Result<
    RewritePattern,
    HashError,
>)
    ensures
        r is Ok <==> map_valid(pairs_view(deps@), None) && self_ia_hash.spec_bytes().len()
            == STORE_PATH_HASH_LEN,
        r matches Ok(p) ==> p@.map_values(|e: RewriteEntry| entry_view(e)) == map_entries(
            pairs_view(deps@),
            None,
        ),
        first_invalid_len(pairs_view(deps@), Some(self_ia_hash.spec_bytes()), 0) matches Some(n)
            ==> invalid_length_error(n, r),
{
    proof {
        lemma_first_invalid_self(pairs_view(deps@), self_ia_hash.spec_bytes(), 0);
    }
    let pattern = match rewrite_pattern_from_map(deps, None) {
        Ok(p) => p,
        Err(e) => {
            return Err(e);
        },
    };
    match validate_hash_str(self_ia_hash) {
        Ok(()) => Ok(pattern),
        Err(e) => Err(e),
    }
}

/// The positions recorded by a pass with `found`, in order.
fn match_starts(found: &[Match]) -> (r: Vec<u64>)
    ensures
        r@ == found@.map_values(|m: Match| m.start as u64),
{
    let mut r: Vec<u64> = Vec::new();
    let mut i: usize = 0;
    while i < found.len()
        invariant
            i <= found@.len(),
            r@ == found@.take(i as int).map_values(|m: Match| m.start as u64),
        decreases found@.len() - i,
    {
        r.push(found[i].start as u64);
        i = i + 1;
        assert(r@ =~= found@.take(i as int).map_values(|m: Match| m.start as u64));
    }
    assert(found@.take(i as int) =~= found@);
    r
}

/// Appends `|<p>` for each position.
fn push_positions_suffix(out: &mut Vec<u8>, ps: &Vec<u64>)
    ensures
        final(out)@ == old(out)@ + positions_suffix(ps@),
{
    let mut i: usize = 0;
    while i < ps.len()
        invariant
            i <= ps@.len(),
            out@ == old(out)@ + positions_suffix(ps@.take(i as int)),
        decreases ps@.len() - i,
    {
        assert(ps@.take(i + 1).drop_last() =~= ps@.take(i as int));
        out.push(124u8);
        let d = decimal(ps[i]);
        push_all(out, d.as_slice());
        i = i + 1;
        assert(out@ =~= old(out)@ + positions_suffix(ps@.take(i as int)));
    }
    assert(ps@.take(i as int) =~= ps@);
}

/// Copies the bytes of each string.
fn strings_bytes(v: &[String]) -> (r: Vec<Vec<u8>>)
    ensures
        bytes_view(r@) == strings_view(v@),
{
    let mut r: Vec<Vec<u8>> = Vec::new();
    let mut i: usize = 0;
    while i < v.len()
        invariant
            i <= v@.len(),
            bytes_view(r@) == strings_view(v@).take(i as int),
        decreases v@.len() - i,
    {
        let b = vstd::slice::slice_to_vec(v[i].as_str().as_bytes());
        let ghost before = r@;
        r.push(b);
        assert(bytes_view(r@) =~= bytes_view(before).push(b@));
        assert(strings_view(v@).take(i + 1) =~= strings_view(v@).take(i as int).push(b@));
        i = i + 1;
    }
    assert(strings_view(v@).take(i as int) =~= strings_view(v@));
    r
}

/// The first pass of turning an input-addressed output into a
/// content-addressed one. `nar_bytes` is the NAR of the output ingested with
/// its dependency hashes rewritten, `self_pattern` masks the output's own
/// hash (see [`self_mask_pattern`]) and `self_matches` are the occurrences
/// of that hash the searcher reported in the NAR. Those are masked with
/// zeros and their offsets recorded; the SHA-256 of the masked NAR followed
/// by `|<offset>` per occurrence, in increasing order, is the hash modulo
/// self-references; the result is the content-addressed store path of that
/// NAR hash with the given references, and a self-reference when any
/// occurrence was found.
pub fn rewrite_to_ca_pass1(
    nar_bytes: Vec<u8>,
    name: &str,
    self_pattern: &RewritePattern,
    refs_as_ca: &[String],
    self_matches: &[Match],
) -> (r: Result<StorePath, HashError>)
    requires
        self_pattern@.len() == 1,
        self_pattern@[0].record_positions,
        self_pattern@[0].needle@.len() > 0,
        matches_valid(entry_needles(self_pattern@), nar_bytes@, self_matches@),
        matches_complete(entry_needles(self_pattern@), nar_bytes@, self_matches@),
        nar_bytes@.len() <= u64::MAX,
    ensures
        pass1_ok(
            nar_bytes@,
            name.spec_bytes(),
            self_pattern@,
            strings_view(refs_as_ca@),
            self_matches@,
            r,
        ),
{
    let ghost n0 = nar_bytes@;
    let mut masked = nar_bytes;
    let _positions: BTreeSet<u64> = rewrite_in_place(self_pattern, &mut masked, 0, self_matches);
    let _ = self_pattern.entries();
    proof {
        crate::refscan::lemma_rewritten_len(self_pattern@, n0, self_matches@);
    }
    let ps = match_starts(self_matches);
    assert(ps@ =~= ordered_positions(self_pattern@, n0, self_matches@));
    let mut input = masked;
    push_positions_suffix(&mut input, &ps);
    let h = sha256(input.as_slice());
    proof {
        lemma_digest_array(input@, h);
        lemma_ordered_positions(self_pattern@, n0, self_matches@);
    }
    let refs = strings_bytes(refs_as_ca);
    assert(refs@.map_values(|v: Vec<u8>| v@) =~= strings_view(refs_as_ca@));
    let self_reference = ps.len() > 0;
    match build_ca_path(name.as_bytes(), &CAHash::Nar(NixHash::Sha256(h)), refs.as_slice(), self_reference) {
        Ok(p) => Ok(p),
        Err(e) => {
            let msg = build_error_message(&e);
            Err(HashError::IoError(IoErrorKind::Other, msg))
        },
    }
}

} // verus!
