//! Derivations: the `.drv` store path computed straight from ATerm bytes,
//! and the names and prefixes used for output paths.

use crate::aterm::{aterm_reference_list, aterm_references, check_utf8, utf8_error_text};
use crate::aterm_write::{
    esc, escaped, joined, quoted, quoted_array, string_bytes, write_environment, write_input_drvs,
    write_input_drvs_replaced, write_outputs, write_quoted, write_quoted_paths, write_quoted_strings,
};
use crate::hashing::{sha256, sha256_spec, spec_hex_lower};
use crate::hashing::hex_lower;
use crate::keyed::{find_slot, keyed_map, lemma_insert_keeps_sorted, lemma_keyed_map_insert, lemma_keyed_map_update, slot_ok};
use crate::nixhash::{algo_name, nix_hex_string, CAHash, NixHash};
use crate::refscan::{bytes_eq, bytes_view};
use crate::sorted::{insert_sorted, is_strictly_sorted, seq_lt, strictly_sorted};
use crate::store_path::{
    absolute_path, build_ca_path, build_output_path, build_text_path, ca_parts, fingerprint_digest,
    fixed_out, name_error, output_ty, references_string, text_ty, valid_name, BuildStorePathError,
    StorePath,
};
use crate::text::{ascii_chars, push_all, string_from_ascii};
use vstd::prelude::*;
use vstd::string::StringExecFns;
use vstd::string::StringSliceAdditionalSpecFns;

verus! {

/// Errors of derivation handling.
#[derive(Debug)]
pub enum DerivationError {
    /// The (output) name does not make a valid store path name.
    InvalidOutputName(String),
    /// The ATerm is not UTF-8.
    InvalidATermError(String),
    /// An output path could not be computed.
    InvalidOutputDerivationPath(String, BuildStorePathError),
}

/// Errors of the ATerm reader.
#[derive(Debug)]
pub enum ATermParsingError {
    InvalidFormat(String),
}

/// An output of a derivation: its store path, once computed, and for a
/// fixed output its content address.
#[derive(Debug, PartialEq, Eq)]
pub struct Output {
    pub path: Option<StorePath>,
    pub ca_hash: Option<CAHash>,
}

/// A derivation. The ordered maps and sets are vectors kept in strictly
/// increasing order of their keys (see [`Derivation::wf`]): outputs and
/// environment by name, input derivations and input sources by absolute
/// path, the output names of each input derivation by name.
#[derive(Debug, PartialEq, Eq)]
pub struct Derivation {
    pub arguments: Vec<String>,
    pub builder: String,
    pub environment: Vec<(String, Vec<u8>)>,
    /// Each input derivation's path, with the names of the outputs used.
    pub input_derivations: Vec<(StorePath, Vec<String>)>,
    /// Plain store paths of additional inputs.
    pub input_sources: Vec<StorePath>,
    pub outputs: Vec<(String, Output)>,
    pub system: String,
}

/// The UTF-8 bytes of a string.
pub open spec fn str_bytes(s: String) -> Seq<u8> {
    vstd::utf8::encode_utf8(s@)
}

/// The UTF-8 bytes of each string.
pub open spec fn strs_bytes(v: Seq<String>) -> Seq<Seq<u8>> {
    v.map_values(|s: String| str_bytes(s))
}

/// The absolute path of a store path.
pub open spec fn path_bytes(p: StorePath) -> Seq<u8> {
    absolute_path(p@.0, p@.1)
}

/// The absolute path of each store path.
pub open spec fn paths_bytes(v: Seq<StorePath>) -> Seq<Seq<u8>> {
    v.map_values(|p: StorePath| path_bytes(p))
}

/// A comma-separated list in square brackets.
pub open spec fn list_term(parts: Seq<Seq<u8>>) -> Seq<u8> {
    seq![91u8] + joined(parts) + seq![93u8]
}

/// The path an output shows in the ATerm: its absolute path, or nothing.
pub open spec fn output_path_bytes(o: Output) -> Seq<u8> {
    match o.path {
        Some(p) => path_bytes(p),
        None => Seq::empty(),
    }
}

/// The hash mode and algorithm of an output (`r:sha256`, `sha1`, ...), or
/// nothing for an output that is not fixed.
pub open spec fn output_algo_bytes(o: Output) -> Seq<u8> {
    match o.ca_hash {
        Some(ca) => spec_ca_kind_prefix(ca) + algo_name(ca.hash_spec().algo_spec()),
        None => Seq::empty(),
    }
}

/// The lower-case hex digest of a fixed output, or nothing.
pub open spec fn output_digest_bytes(o: Output) -> Seq<u8> {
    match o.ca_hash {
        Some(ca) => spec_hex_lower(ca.hash_spec().digest_spec()),
        None => Seq::empty(),
    }
}

/// `("<name>","<path>","<mode and algo>","<digest>")`
pub open spec fn output_term(name: Seq<u8>, o: Output) -> Seq<u8> {
    seq![40u8] + quoted(name) + seq![44u8] + quoted(output_path_bytes(o)) + seq![44u8] + quoted(
        output_algo_bytes(o),
    ) + seq![44u8] + quoted(output_digest_bytes(o)) + seq![41u8]
}

/// `("<key>",["<output name>",...])`
pub open spec fn input_drv_term(key: Seq<u8>, names: Seq<Seq<u8>>) -> Seq<u8> {
    seq![40u8] + quoted(key) + seq![44u8] + quoted_array(names) + seq![41u8]
}

/// The list of input derivations, each written under `keys[i]` with the
/// output names `names[i]`.
pub open spec fn input_drvs_term(keys: Seq<Seq<u8>>, names: Seq<Seq<Seq<u8>>>) -> Seq<u8> {
    list_term(Seq::new(keys.len(), |i: int| input_drv_term(keys[i], names[i])))
}

/// `("<key>","<value>")`: the key as it is, the value escaped.
pub open spec fn env_entry_term(k: Seq<u8>, v: Seq<u8>) -> Seq<u8> {
    seq![40u8, 34] + k + seq![34u8, 44] + quoted(v) + seq![41u8]
}

/// `Derive(`
pub open spec fn derive_open() -> Seq<u8> {
    seq![68u8, 101, 114, 105, 118, 101, 40]
}

impl Derivation {
    /// The output names, in order.
    pub open spec fn output_names(&self) -> Seq<Seq<u8>> {
        self.outputs@.map_values(|e: (String, Output)| str_bytes(e.0))
    }

    /// The absolute paths of the input derivations, in order.
    pub open spec fn input_derivation_paths(&self) -> Seq<Seq<u8>> {
        self.input_derivations@.map_values(|e: (StorePath, Vec<String>)| path_bytes(e.0))
    }

    /// The output names used of each input derivation.
    pub open spec fn input_derivation_outputs(&self) -> Seq<Seq<Seq<u8>>> {
        self.input_derivations@.map_values(|e: (StorePath, Vec<String>)| strs_bytes(e.1@))
    }

    /// The absolute paths of the input sources, in order.
    pub open spec fn input_source_paths(&self) -> Seq<Seq<u8>> {
        paths_bytes(self.input_sources@)
    }

    /// The environment's keys, in order.
    pub open spec fn environment_keys(&self) -> Seq<Seq<u8>> {
        self.environment@.map_values(|e: (String, Vec<u8>)| str_bytes(e.0))
    }

    /// The environment's values, in the order of the keys.
    pub open spec fn environment_values(&self) -> Seq<Seq<u8>> {
        self.environment@.map_values(|e: (String, Vec<u8>)| e.1@)
    }

    /// The environment as a map.
    pub open spec fn environment_map(&self) -> Map<Seq<u8>, Seq<u8>> {
        keyed_map(self.environment_keys(), self.environment_values())
    }

    /// Well-formed: every map and set in strictly increasing order of its
    /// keys, and no output with a text content address (which a derivation
    /// cannot have).
    pub open spec fn wf(&self) -> bool {
        &&& strictly_sorted(self.output_names())
        &&& forall|i: int|
            0 <= i < self.outputs@.len() ==> !(#[trigger] self.outputs@[i].1.ca_hash matches Some(
                CAHash::Text(_),
            ))
        &&& strictly_sorted(self.input_derivation_paths())
        &&& forall|i: int|
            0 <= i < self.input_derivations@.len() ==> strictly_sorted(
                #[trigger] self.input_derivation_outputs()[i],
            )
        &&& strictly_sorted(self.input_source_paths())
        &&& strictly_sorted(self.environment_keys())
    }

    /// The list of outputs.
    pub open spec fn outputs_term(&self) -> Seq<u8> {
        list_term(
            Seq::new(
                self.outputs@.len(),
                |i: int| output_term(str_bytes(self.outputs@[i].0), self.outputs@[i].1),
            ),
        )
    }

    /// The list of environment entries.
    pub open spec fn environment_term(&self) -> Seq<u8> {
        list_term(
            Seq::new(
                self.environment@.len(),
                |i: int| env_entry_term(self.environment_keys()[i], self.environment_values()[i]),
            ),
        )
    }

    /// The ATerm of the derivation with `input_drvs` in place of the list of
    /// input derivations: `Derive(` outputs, input derivations, input
    /// sources, system, builder, arguments, environment `)`, separated by
    /// commas.
    pub open spec fn aterm_with(&self, input_drvs: Seq<u8>) -> Seq<u8> {
        derive_open() + self.outputs_term() + seq![44u8] + input_drvs + seq![44u8] + quoted_array(
            self.input_source_paths(),
        ) + seq![44u8] + quoted(str_bytes(self.system)) + seq![44u8] + quoted(str_bytes(self.builder))
            + seq![44u8] + quoted_array(strs_bytes(self.arguments@)) + seq![44u8]
            + self.environment_term() + seq![41u8]
    }

    /// The ATerm of the derivation.
    pub open spec fn aterm(&self) -> Seq<u8> {
        self.aterm_with(input_drvs_term(self.input_derivation_paths(), self.input_derivation_outputs()))
    }
}

/// `.drv`
pub open spec fn drv_suffix() -> Seq<u8> {
    seq![46u8, 100, 114, 118]
}

/// `Invalid UTF-8 in ATerm: `
pub open spec fn utf8_message_prefix() -> Seq<u8> {
    seq![73u8, 110, 118, 97, 108, 105, 100, 32, 85, 84, 70, 45, 56, 32, 105, 110, 32, 65, 84, 101, 114, 109, 58, 32]
}

/// The store path name of a derivation called `name`: `<name>.drv`.
pub open spec fn drv_name(name: Seq<u8>) -> Seq<u8> {
    name + drv_suffix()
}

/// The absolute `.drv` path for an ATerm, its references (in increasing
/// order) and the name.
pub open spec fn drv_path(aterm: Seq<u8>, refs: Seq<Seq<u8>>, name: Seq<u8>) -> Seq<u8> {
    let n = drv_name(name);
    absolute_path(fingerprint_digest(references_string(text_ty(), refs, false), sha256_spec(aterm), n), n)
}

/// Computes the `.drv` store path of a derivation from its ATerm text,
/// reading only the references out of it (input sources and the store paths
/// of input derivations): a text store path named `<name>.drv` with those
/// references, in increasing order, whose content is the ATerm.
pub fn calculate_derivation_path_from_aterm(name: &str, aterm_str: &[u8]) -> (r: Result<
    String,
    DerivationError,
>)
    requires
        aterm_str@.len() < 0x7fff_ffff_ffff_ffff,
        aterm_str@.len() < usize::MAX,
    ensures
        match r {
            Err(DerivationError::InvalidATermError(m)) => {
                &&& !vstd::utf8::valid_utf8(aterm_str@)
                &&& m@ == ascii_chars(utf8_message_prefix()) + utf8_error_text(aterm_str@)
            },
            Err(DerivationError::InvalidOutputName(n)) => {
                &&& vstd::utf8::valid_utf8(aterm_str@)
                &&& !valid_name(drv_name(name.spec_bytes()))
                &&& n@ == name@ + ascii_chars(drv_suffix())
            },
            Ok(p) => {
                &&& vstd::utf8::valid_utf8(aterm_str@)
                &&& valid_name(drv_name(name.spec_bytes()))
                &&& exists|refs: Seq<Seq<u8>>|
                    strictly_sorted(refs) && refs.to_set() == aterm_references(aterm_str@) && p@
                        == ascii_chars(drv_path(aterm_str@, refs, name.spec_bytes()))
            },
            _ => false,
        },
{
    let mut nb: Vec<u8> = Vec::new();
    push_all(&mut nb, name.as_bytes());
    push_all(&mut nb, &[46u8, 100, 114, 118]);
    assert(nb@ =~= drv_name(name.spec_bytes()));
    match check_utf8(aterm_str) {
        Ok(()) => {},
        Err(m) => {
            let mut msg = string_from_ascii(
                vec![73u8, 110, 118, 97, 108, 105, 100, 32, 85, 84, 70, 45, 56, 32, 105, 110, 32, 65, 84, 101, 114, 109, 58, 32],
            );
            assert(seq![73u8, 110, 118, 97, 108, 105, 100, 32, 85, 84, 70, 45, 56, 32, 105, 110, 32, 65, 84, 101, 114, 109, 58, 32] =~= utf8_message_prefix());
            msg.append(m.as_str());
            return Err(DerivationError::InvalidATermError(msg));
        },
    }
    let refs = aterm_reference_list(aterm_str);
    match build_text_path(nb.as_slice(), aterm_str, refs.as_slice()) {
        Ok(p) => {
            proof {
                assert(refs@.map_values(|v: Vec<u8>| v@) =~= bytes_view(refs@));
            }
            let s = p.to_absolute_path();
            assert(ascii_chars(drv_path(aterm_str@, bytes_view(refs@), name.spec_bytes())) == s@);
            Ok(s)
        },
        Err(_) => {
            let mut n = String::from_str(name);
            let suffix = string_from_ascii(vec![46u8, 100, 114, 118]);
            assert(seq![46u8, 100, 114, 118] =~= drv_suffix());
            n.append(suffix.as_str());
            Err(DerivationError::InvalidOutputName(n))
        },
    }
}

/// `out`
pub open spec fn out_name() -> Seq<u8> {
    seq![111u8, 117, 116]
}

/// The name part of the store path of an output: the derivation name, and
/// for outputs other than `out` a dash and the output name.
pub open spec fn spec_output_path_name(derivation_name: Seq<u8>, output_name: Seq<u8>) -> Seq<u8> {
    if output_name == out_name() {
        derivation_name
    } else {
        derivation_name + seq![45u8] + output_name
    }
}

/// The name part of the store path of an output.
pub fn output_path_name(derivation_name: &[u8], output_name: &[u8]) -> (r: Vec<u8>)
    ensures
        r@ == spec_output_path_name(derivation_name@, output_name@),
{
    let mut r: Vec<u8> = Vec::new();
    push_all(&mut r, derivation_name);
    let is_out = crate::refscan::bytes_eq(output_name, &[111u8, 117, 116]);
    assert(seq![111u8, 117, 116] =~= out_name());
    if !is_out {
        r.push(45u8);
        push_all(&mut r, output_name);
    }
    r
}

/// The prefix of the hash algorithm of a fixed output: none for a flat
/// hash, `r:` for a NAR hash.
pub open spec fn spec_ca_kind_prefix(ca: CAHash) -> Seq<u8> {
    match ca {
        CAHash::Nar(_) => seq![114u8, 58],
        _ => Seq::empty(),
    }
}

/// The prefix of the hash algorithm of a fixed output. Text hashes have
/// no place in a derivation's outputs.
pub fn ca_kind_prefix(ca_hash: &CAHash) -> (r: Vec<u8>)
    requires
        !(ca_hash is Text),
    ensures
        r@ == spec_ca_kind_prefix(*ca_hash),
{
    match ca_hash {
        CAHash::Nar(_) => {
            let r: Vec<u8> = vec![114u8, 58];
            assert(r@ =~= seq![114u8, 58]);
            r
        },
        _ => Vec::new(),
    }
}

impl Default for Derivation {
    /// A derivation with nothing in it.
    fn default() -> (r: Derivation)
        ensures
            r.arguments@.len() == 0,
            r.builder@.len() == 0,
            r.environment@.len() == 0,
            r.input_derivations@.len() == 0,
            r.input_sources@.len() == 0,
            r.outputs@.len() == 0,
            r.system@.len() == 0,
            r.wf(),
    {
        let r = Derivation {
            arguments: Vec::new(),
            builder: String::new(),
            environment: Vec::new(),
            input_derivations: Vec::new(),
            input_sources: Vec::new(),
            outputs: Vec::new(),
            system: String::new(),
        };
        assert(r.output_names() =~= Seq::empty());
        assert(r.input_derivation_paths() =~= Seq::empty());
        assert(r.input_source_paths() =~= Seq::empty());
        assert(r.environment_keys() =~= Seq::empty());
        r
    }
}

/// The string of a fixed-output derivation whose SHA-256 stands for it:
/// `fixed:out:<mode><algo>:<hex digest>:<output path>`.
pub open spec fn fod_text(ca: CAHash, o: Output) -> Seq<u8> {
    fixed_out() + spec_ca_kind_prefix(ca) + nix_hex_string(ca.hash_spec()) + seq![58u8]
        + output_path_bytes(o)
}

/// The names of the hash algorithms start with `m` or `s`, never `r`.
proof fn lemma_algo_name_start(h: NixHash)
    ensures
        algo_name(h.algo_spec()).len() >= 3,
        algo_name(h.algo_spec())[0] == 109u8 || algo_name(h.algo_spec())[0] == 115u8,
{
}

/// The string that stands for a fixed-output derivation starts with
/// `fixed:out:`; `r:` follows exactly when its output's content address is
/// a NAR hash (and never for a flat one), and then the hash's algorithm.
pub proof fn lemma_fod_mode_marker(d: Derivation)
    requires
        d.fod_string() is Some,
        !(d.outputs@[0].1.ca_hash matches Some(CAHash::Text(_))),
    ensures
        ({
            let s = d.fod_string()->0;
            let ca = d.outputs@[0].1.ca_hash->0;
            &&& s.len() >= 12
            &&& s.take(10) == seq![102u8, 105, 120, 101, 100, 58, 111, 117, 116, 58]
            &&& (s.subrange(10, 12) == seq![114u8, 58] <==> ca is Nar)
        }),
{
    let s = d.fod_string()->0;
    let ca = d.outputs@[0].1.ca_hash->0;
    let a = algo_name(ca.hash_spec().algo_spec());
    lemma_algo_name_start(ca.hash_spec());
    assert(s == fod_text(ca, d.outputs@[0].1));
    assert(s.take(10) =~= seq![102u8, 105, 120, 101, 100, 58, 111, 117, 116, 58]);
    if ca is Nar {
        assert(s.subrange(10, 12) =~= seq![114u8, 58]);
    } else {
        assert(s[10] == a[0]);
        assert(s.subrange(10, 12)[0] == s[10]);
    }
}

/// The string that stands for a fixed-output derivation, in full:
/// `fixed:out:`, `r:` for a NAR hash (nothing for a flat one), the
/// algorithm, `:`, the lower-case hex digest, `:` and the output's path.
pub proof fn lemma_fod_string_text(d: Derivation)
    requires
        d.fod_string() is Some,
        !(d.outputs@[0].1.ca_hash matches Some(CAHash::Text(_))),
    ensures
        ({
            let o = d.outputs@[0].1;
            let ca = o.ca_hash->0;
            d.fod_string()->0 == seq![102u8, 105, 120, 101, 100, 58, 111, 117, 116, 58] + (if ca is Nar {
                seq![114u8, 58]
            } else {
                Seq::<u8>::empty()
            }) + algo_name(ca.hash_spec().algo_spec()) + seq![58u8] + spec_hex_lower(ca.hash_spec().digest_spec())
                + seq![58u8] + output_path_bytes(o)
        }),
{
    let o = d.outputs@[0].1;
    let ca = o.ca_hash->0;
    assert(d.fod_string()->0 =~= seq![102u8, 105, 120, 101, 100, 58, 111, 117, 116, 58] + (if ca is Nar {
        seq![114u8, 58]
    } else {
        Seq::<u8>::empty()
    }) + algo_name(ca.hash_spec().algo_spec()) + seq![58u8] + spec_hex_lower(ca.hash_spec().digest_spec())
        + seq![58u8] + output_path_bytes(o));
}

/// The ATerm term of a fixed output, in full: `(`, the quoted name, the
/// quoted path, the quoted hash field (`r:` for a NAR hash, nothing for a
/// flat one, then the algorithm) and the quoted lower-case hex digest,
/// separated by commas, and `)`.
pub proof fn lemma_output_term_text(name: Seq<u8>, o: Output)
    requires
        o.ca_hash is Some,
        !(o.ca_hash->0 is Text),
    ensures
        ({
            let ca = o.ca_hash->0;
            output_term(name, o) == seq![40u8] + quoted(name) + seq![44u8] + quoted(output_path_bytes(o)) + seq![44u8]
                + quoted(
                (if ca is Nar {
                    seq![114u8, 58]
                } else {
                    Seq::<u8>::empty()
                }) + algo_name(ca.hash_spec().algo_spec()),
            ) + seq![44u8] + quoted(spec_hex_lower(ca.hash_spec().digest_spec())) + seq![41u8]
        }),
{
    let ca = o.ca_hash->0;
    assert(output_algo_bytes(o) =~= (if ca is Nar {
        seq![114u8, 58]
    } else {
        Seq::<u8>::empty()
    }) + algo_name(ca.hash_spec().algo_spec()));
}

/// Where the hash field of an output's ATerm term starts: after `(`, the
/// quoted name, `,`, the quoted path, `,` and the opening quote.
pub open spec fn algo_field_start(name: Seq<u8>, o: Output) -> int {
    (1 + quoted(name).len() + 1 + quoted(output_path_bytes(o)).len() + 2) as int
}

/// In a fixed output's ATerm term the hash field starts with `r:` exactly
/// when the content address is a NAR hash (never for a flat one), and then
/// carries the hash's algorithm.
pub proof fn lemma_output_term_mode_marker(name: Seq<u8>, o: Output)
    requires
        o.ca_hash is Some,
        !(o.ca_hash->0 is Text),
    ensures
        ({
            let t = output_term(name, o);
            let k = algo_field_start(name, o);
            let ca = o.ca_hash->0;
            &&& k + 2 <= t.len()
            &&& (t.subrange(k, k + 2) == seq![114u8, 58] <==> ca is Nar)
        }),
{
    let ca = o.ca_hash->0;
    let t = output_term(name, o);
    let k = algo_field_start(name, o);
    let a = algo_name(ca.hash_spec().algo_spec());
    lemma_algo_name_start(ca.hash_spec());
    let f = output_algo_bytes(o);
    let head = seq![40u8] + quoted(name) + seq![44u8] + quoted(output_path_bytes(o)) + seq![44u8];
    assert(head.len() + 1 == k);
    let tail = seq![44u8] + quoted(output_digest_bytes(o)) + seq![41u8];
    assert(t =~= head + (seq![34u8] + escaped(f) + seq![34u8]) + tail);
    if ca is Nar {
        assert(f =~= seq![114u8, 58] + a);
        lemma_escaped_prefix2(seq![114u8, 58], a);
        assert(t.subrange(k, k + 2) =~= escaped(f).take(2));
    } else {
        assert(f =~= a);
        lemma_escaped_first(a);
        assert(t.subrange(k, k + 2)[0] == escaped(f)[0]);
    }
}

/// Escaping `r:` and then more gives `r:` and then the rest escaped.
proof fn lemma_escaped_prefix2(p: Seq<u8>, rest: Seq<u8>)
    requires
        p == seq![114u8, 58],
    ensures
        escaped(p + rest).len() >= 2,
        escaped(p + rest).take(2) == seq![114u8, 58],
    decreases rest.len(),
{
    if rest.len() == 0 {
        assert(p + rest =~= p);
        assert(p.drop_last() =~= seq![114u8]);
        let r1 = seq![114u8];
        assert(r1.drop_last() =~= Seq::<u8>::empty());
        assert(r1.last() == 114u8);
        assert(esc(114u8) =~= seq![114u8]);
        assert(escaped(Seq::<u8>::empty()) =~= Seq::<u8>::empty());
        assert(escaped(r1) == escaped(r1.drop_last()) + esc(r1.last()));
        assert(escaped(r1) =~= seq![114u8]);
        assert(p.last() == 58u8);
        assert(escaped(p) == escaped(p.drop_last()) + esc(p.last()));
        assert(escaped(p) =~= seq![114u8, 58]);
    } else {
        lemma_escaped_prefix2(p, rest.drop_last());
        assert((p + rest).drop_last() =~= p + rest.drop_last());
        assert(escaped(p + rest) == escaped(p + rest.drop_last()) + esc(rest.last()));
        assert(escaped(p + rest).take(2) =~= escaped(p + rest.drop_last()).take(2));
    }
}

/// The first byte of a non-empty run that needs no escaping at its start
/// stays first.
proof fn lemma_escaped_first(a: Seq<u8>)
    requires
        a.len() >= 1,
        a[0] != 92 && a[0] != 10 && a[0] != 13 && a[0] != 9 && a[0] != 34,
    ensures
        escaped(a).len() >= 1,
        escaped(a)[0] == a[0],
    decreases a.len(),
{
    if a.len() == 1 {
        assert(a.drop_last() =~= Seq::<u8>::empty());
        assert(escaped(a) =~= seq![a[0]]);
    } else {
        lemma_escaped_first(a.drop_last());
        assert(escaped(a) == escaped(a.drop_last()) + esc(a.last()));
    }
}

/// The modular-hash key of each input derivation: the lower-case hex of its
/// hash, mapped to the index of the last input derivation with that hash.
pub open spec fn modulo_map(hashes: Seq<[u8; 32]>, n: int) -> Map<Seq<u8>, int>
    decreases n,
{
    if n <= 0 {
        Map::empty()
    } else {
        modulo_map(hashes, n - 1).insert(spec_hex_lower(hashes[n - 1]@), n - 1)
    }
}

impl Derivation {
    /// The store paths a derivation refers to: input sources and input
    /// derivations.
    pub open spec fn reference_set(&self) -> Set<Seq<u8>> {
        self.input_source_paths().to_set().union(self.input_derivation_paths().to_set())
    }

    /// For a fixed-output derivation (exactly one output, named `out`, with
    /// a content address), the string that stands for it.
    pub open spec fn fod_string(&self) -> Option<Seq<u8>> {
        if self.outputs@.len() != 1 || str_bytes(self.outputs@[0].0) != out_name() {
            None
        } else {
            match self.outputs@[0].1.ca_hash {
                Some(ca) => Some(fod_text(ca, self.outputs@[0].1)),
                None => None,
            }
        }
    }

    /// What the hash of the derivation modulo fixed-output derivations is,
    /// given the hashes of its input derivations (in their order): for a
    /// fixed-output derivation the SHA-256 of [`Derivation::fod_string`];
    /// otherwise the SHA-256 of the ATerm in which the input derivations
    /// are listed under the hex of their hashes, in increasing order, a
    /// hash shared by several carrying the output names of the last of them.
    pub open spec fn modulo_result(&self, hashes: Seq<[u8; 32]>, r: [u8; 32]) -> bool {
        match self.fod_string() {
            Some(s) => r@ == sha256_spec(s),
            None => exists|ks: Seq<Seq<u8>>, ix: Seq<int>|
                {
                    &&& strictly_sorted(ks)
                    &&& ks.len() == ix.len()
                    &&& keyed_map(ks, ix) == modulo_map(hashes, hashes.len() as int)
                    &&& r@ == sha256_spec(
                        self.aterm_with(
                            input_drvs_term(
                                ks,
                                ix.map_values(|j: int| self.input_derivation_outputs()[j]),
                            ),
                        ),
                    )
                },
        }
    }

    fn aterm_bytes_with(&self, input_drvs: &[u8]) -> (r: Vec<u8>)
        requires
            self.wf(),
        ensures
            r@ == self.aterm_with(input_drvs@),
    {
        let mut out: Vec<u8> = vec![68u8, 101, 114, 105, 118, 101, 40];
        assert(out@ =~= derive_open());
        write_outputs(&mut out, self);
        out.push(44u8);
        push_all(&mut out, input_drvs);
        out.push(44u8);
        write_quoted_paths(&mut out, &self.input_sources);
        out.push(44u8);
        write_quoted(&mut out, string_bytes(&self.system));
        out.push(44u8);
        write_quoted(&mut out, string_bytes(&self.builder));
        out.push(44u8);
        write_quoted_strings(&mut out, &self.arguments);
        out.push(44u8);
        write_environment(&mut out, self);
        out.push(41u8);
        assert(out@ =~= self.aterm_with(input_drvs@));
        out
    }

    /// The ATerm serialisation.
    pub fn to_aterm_bytes(&self) -> (r: Vec<u8>)
        requires
            self.wf(),
        ensures
            r@ == self.aterm(),
    {
        let mut drvs: Vec<u8> = Vec::new();
        write_input_drvs(&mut drvs, self);
        assert(drvs@ =~= input_drvs_term(self.input_derivation_paths(), self.input_derivation_outputs()));
        self.aterm_bytes_with(drvs.as_slice())
    }

    /// The absolute paths of the references, in increasing order.
    fn reference_list(&self) -> (r: Vec<Vec<u8>>)
        ensures
            strictly_sorted(bytes_view(r@)),
            bytes_view(r@).to_set() == self.reference_set(),
    {
        let mut refs: Vec<Vec<u8>> = Vec::new();
        assert(bytes_view(refs@).to_set() =~= Set::empty());
        let mut i: usize = 0;
        while i < self.input_sources.len()
            invariant
                i <= self.input_sources@.len(),
                strictly_sorted(bytes_view(refs@)),
                bytes_view(refs@).to_set() == self.input_source_paths().take(i as int).to_set(),
            decreases self.input_sources@.len() - i,
        {
            let p = self.input_sources[i].to_absolute_path_bytes();
            insert_sorted(&mut refs, p);
            assert(self.input_source_paths().take(i + 1) =~= self.input_source_paths().take(
                i as int,
            ).push(p@));
            assert(self.input_source_paths().take(i + 1).to_set() =~= self.input_source_paths().take(
                i as int,
            ).to_set().insert(p@)) by {
                crate::refscan::lemma_push_to_set(self.input_source_paths().take(i as int), p@);
            }
            i = i + 1;
        }
        assert(self.input_source_paths().take(i as int) =~= self.input_source_paths());
        let mut j: usize = 0;
        while j < self.input_derivations.len()
            invariant
                j <= self.input_derivations@.len(),
                strictly_sorted(bytes_view(refs@)),
                bytes_view(refs@).to_set() == self.input_source_paths().to_set().union(
                    self.input_derivation_paths().take(j as int).to_set(),
                ),
            decreases self.input_derivations@.len() - j,
        {
            let p = self.input_derivations[j].0.to_absolute_path_bytes();
            insert_sorted(&mut refs, p);
            assert(self.input_derivation_paths().take(j + 1) =~= self.input_derivation_paths().take(
                j as int,
            ).push(p@));
            assert(self.input_derivation_paths().take(j + 1).to_set() =~= self.input_derivation_paths().take(
                j as int,
            ).to_set().insert(p@)) by {
                crate::refscan::lemma_push_to_set(
                    self.input_derivation_paths().take(j as int),
                    p@,
                );
            }
            assert(bytes_view(refs@).to_set() =~= self.input_source_paths().to_set().union(
                self.input_derivation_paths().take(j + 1).to_set(),
            ));
            j = j + 1;
        }
        assert(self.input_derivation_paths().take(j as int) =~= self.input_derivation_paths());
        refs
    }

    /// The store path of the derivation file: a text store path named
    /// `<name>.drv`, referring to the input sources and input derivations
    /// (in increasing order), whose content is the ATerm.
    pub fn calculate_derivation_path(&self, name: &str) -> (r: Result<StorePath, DerivationError>)
        requires
            self.wf(),
        ensures
            match r {
                Ok(p) => {
                    &&& valid_name(drv_name(name.spec_bytes()))
                    &&& exists|refs: Seq<Seq<u8>>|
                        strictly_sorted(refs) && refs.to_set() == self.reference_set() && p@ == (
                            fingerprint_digest(
                                references_string(text_ty(), refs, false),
                                sha256_spec(self.aterm()),
                                drv_name(name.spec_bytes()),
                            ),
                            drv_name(name.spec_bytes()),
                        )
                },
                Err(DerivationError::InvalidOutputName(n)) => {
                    &&& !valid_name(drv_name(name.spec_bytes()))
                    &&& n@ == name@ + ascii_chars(drv_suffix())
                },
                _ => false,
            },
    {
        let mut nb: Vec<u8> = Vec::new();
        push_all(&mut nb, name.as_bytes());
        push_all(&mut nb, &[46u8, 100, 114, 118]);
        assert(nb@ =~= drv_name(name.spec_bytes()));
        let refs = self.reference_list();
        let aterm = self.to_aterm_bytes();
        match build_text_path(nb.as_slice(), aterm.as_slice(), refs.as_slice()) {
            Ok(p) => {
                proof {
                    assert(refs@.map_values(|v: Vec<u8>| v@) =~= bytes_view(refs@));
                }
                Ok(p)
            },
            Err(_) => {
                let mut n = String::from_str(name);
                let suffix = string_from_ascii(vec![46u8, 100, 114, 118]);
                assert(seq![46u8, 100, 114, 118] =~= drv_suffix());
                n.append(suffix.as_str());
                Err(DerivationError::InvalidOutputName(n))
            },
        }
    }

    /// The SHA-256 of [`Derivation::fod_string`], for a fixed-output
    /// derivation; `None` for any other.
    pub fn fod_digest(&self) -> (r: Option<[u8; 32]>)
        requires
            self.wf(),
        ensures
            match self.fod_string() {
                Some(s) => r matches Some(d) && d@ == sha256_spec(s),
                None => r is None,
            },
    {
        if self.outputs.len() != 1 {
            return None;
        }
        let is_out = bytes_eq(string_bytes(&self.outputs[0].0), &[111u8, 117, 116]);
        assert(seq![111u8, 117, 116] =~= out_name());
        if !is_out {
            return None;
        }
        let o = &self.outputs[0].1;
        match &o.ca_hash {
            None => None,
            Some(ca) => {
                assert(!(self.outputs@[0].1.ca_hash matches Some(CAHash::Text(_))));
                let mut s: Vec<u8> = vec![102u8, 105, 120, 101, 100, 58, 111, 117, 116, 58];
                let pre = ca_kind_prefix(ca);
                push_all(&mut s, pre.as_slice());
                let hx = ca.hash().to_nix_hex_bytes();
                push_all(&mut s, hx.as_slice());
                s.push(58u8);
                match &o.path {
                    Some(p) => {
                        let b = p.to_absolute_path_bytes();
                        push_all(&mut s, b.as_slice());
                    },
                    None => {},
                }
                assert(s@ =~= fod_text(*ca, *o));
                Some(sha256(s.as_slice()))
            },
        }
    }
}

/// The store path (digest and name) of output `oname` of the derivation
/// `name`: content-addressed by its hash for a fixed output, otherwise
/// derived from the derivation's modular hash `hdm`.
pub open spec fn output_path_view(name: Seq<u8>, hdm: Seq<u8>, oname: Seq<u8>, ca: Option<CAHash>) -> (
    Seq<u8>,
    Seq<u8>,
) {
    let pn = spec_output_path_name(name, oname);
    match ca {
        Some(c) => match ca_parts(c, Seq::empty(), false) {
            Some((ty, inner)) => (fingerprint_digest(ty, inner, pn), pn),
            None => (Seq::empty(), pn),
        },
        None => (fingerprint_digest(output_ty(oname), hdm, pn), pn),
    }
}

/// The environment `m` after the first `k` outputs have put their paths
/// under their names.
pub open spec fn env_with_outputs(
    m: Map<Seq<u8>, Seq<u8>>,
    outs: Seq<(String, Output)>,
    name: Seq<u8>,
    hdm: Seq<u8>,
    k: int,
) -> Map<Seq<u8>, Seq<u8>>
    decreases k,
{
    if k <= 0 {
        m
    } else {
        let e = outs[k - 1];
        let v = output_path_view(name, hdm, str_bytes(e.0), e.1.ca_hash);
        env_with_outputs(m, outs, name, hdm, k - 1).insert(str_bytes(e.0), absolute_path(v.0, v.1))
    }
}

/// `new` is `old` after the output paths of the first `k` outputs were
/// computed for the derivation `name` with modular hash `hdm`: those
/// outputs carry their paths, which the environment holds under the
/// output names; the later outputs have none; nothing else changed.
pub open spec fn outputs_done(old: Derivation, new: Derivation, name: Seq<u8>, hdm: Seq<u8>, k: int) -> bool {
    &&& new.wf()
    &&& new.arguments == old.arguments
    &&& new.builder == old.builder
    &&& new.input_derivations == old.input_derivations
    &&& new.input_sources == old.input_sources
    &&& new.system == old.system
    &&& new.outputs@.len() == old.outputs@.len()
    &&& forall|i: int|
        0 <= i < old.outputs@.len() ==> (#[trigger] new.outputs@[i]).0 == old.outputs@[i].0
            && new.outputs@[i].1.ca_hash == old.outputs@[i].1.ca_hash
    &&& forall|i: int|
        0 <= i < k ==> {
            let v = output_path_view(name, hdm, str_bytes(old.outputs@[i].0), old.outputs@[i].1.ca_hash);
            &&& valid_name(v.1)
            &&& (#[trigger] new.outputs@[i]).1.path matches Some(p) && p@ == v
        }
    &&& forall|i: int| k <= i < old.outputs@.len() ==> (#[trigger] new.outputs@[i]).1.path is None
    &&& new.environment_map() == env_with_outputs(old.environment_map(), old.outputs@, name, hdm, k)
}

impl Derivation {
    /// Sets the environment variable `key` to `value`, replacing its value
    /// if it is set.
    pub fn insert_environment(&mut self, key: String, value: Vec<u8>)
        requires
            old(self).wf(),
        ensures
            final(self).wf(),
            final(self).environment_map() == old(self).environment_map().insert(str_bytes(key), value@),
            final(self).arguments == old(self).arguments,
            final(self).builder == old(self).builder,
            final(self).input_derivations == old(self).input_derivations,
            final(self).input_sources == old(self).input_sources,
            final(self).outputs == old(self).outputs,
            final(self).system == old(self).system,
    {
        let mut keys: Vec<Vec<u8>> = Vec::new();
        let mut i: usize = 0;
        while i < self.environment.len()
            invariant
                i <= self.environment@.len(),
                bytes_view(keys@) == self.environment_keys().take(i as int),
            decreases self.environment@.len() - i,
        {
            let mut k: Vec<u8> = Vec::new();
            push_all(&mut k, string_bytes(&self.environment[i].0));
            let ghost before = keys@;
            keys.push(k);
            assert(bytes_view(keys@) =~= bytes_view(before).push(k@));
            assert(self.environment_keys().take(i + 1) =~= self.environment_keys().take(i as int).push(k@));
            i = i + 1;
        }
        assert(self.environment_keys().take(i as int) =~= self.environment_keys());
        let (slot, found) = find_slot(&keys, string_bytes(&key));
        let ghost ks = self.environment_keys();
        let ghost vs = self.environment_values();
        let ghost kb = str_bytes(key);
        let ghost vb = value@;
        proof {
            assert(strictly_sorted(ks));
        }
        if found {
            self.environment.set(slot, (key, value));
            proof {
                assert(self.environment_keys() =~= ks);
                assert(self.environment_values() =~= vs.update(slot as int, vb));
                assert(self.output_names() == old(self).output_names());
                assert(self.input_derivation_paths() == old(self).input_derivation_paths());
                assert(self.input_derivation_outputs() == old(self).input_derivation_outputs());
                assert(self.input_source_paths() == old(self).input_source_paths());
                lemma_keyed_map_update(ks, vs, vb, slot as int);
            }
        } else {
            self.environment.insert(slot, (key, value));
            proof {
                assert(self.environment_keys() =~= ks.insert(slot as int, kb));
                assert(self.environment_values() =~= vs.insert(slot as int, vb));
                assert(self.output_names() == old(self).output_names());
                assert(self.input_derivation_paths() == old(self).input_derivation_paths());
                assert(self.input_derivation_outputs() == old(self).input_derivation_outputs());
                assert(self.input_source_paths() == old(self).input_source_paths());
                lemma_insert_keeps_sorted(ks, kb, slot as int);
                lemma_keyed_map_insert(ks, vs, kb, vb, slot as int);
            }
        }
    }

    /// Computes the store paths of all outputs, in order, for the
    /// derivation `name` whose hash modulo fixed-output derivations is
    /// `hash_derivation_modulo`: each output gets its path, and the
    /// environment variable named like the output is set to it. A fixed
    /// output's path is content-addressed by its hash; any other is derived
    /// from the modular hash. The outputs must not have paths yet.
    /// Where the name of an output's path is not a valid store path name,
    /// that output's error is returned, and the outputs before it keep the
    /// paths already set.
    pub fn calculate_output_paths(&mut self, name: &str, hash_derivation_modulo: &[u8; 32]) -> (r: Result<
        (),
        DerivationError,
    >)
        requires
            old(self).wf(),
            forall|i: int| 0 <= i < old(self).outputs@.len() ==> (#[trigger] old(self).outputs@[i]).1.path is None,
        ensures
            match r {
                Ok(()) => outputs_done(
                    *old(self),
                    *final(self),
                    name.spec_bytes(),
                    hash_derivation_modulo@,
                    old(self).outputs@.len() as int,
                ),
                Err(DerivationError::InvalidOutputDerivationPath(on, e)) => exists|k: int|
                    #![trigger old(self).outputs@[k]]
                    {
                        let pn = spec_output_path_name(name.spec_bytes(), str_bytes(old(self).outputs@[k].0));
                        &&& 0 <= k < old(self).outputs@.len()
                        &&& outputs_done(*old(self), *final(self), name.spec_bytes(), hash_derivation_modulo@, k)
                        &&& !valid_name(pn)
                        &&& on == old(self).outputs@[k].0
                        &&& e matches BuildStorePathError::InvalidStorePath(se) && name_error(pn, se)
                    },
                _ => false,
            },
    {
        let ghost d0 = *self;
        let ghost nm = name.spec_bytes();
        let ghost hd = hash_derivation_modulo@;
        let mut i: usize = 0;
        assert(self.environment_map() == env_with_outputs(d0.environment_map(), d0.outputs@, nm, hd, 0));
        while i < self.outputs.len()
            invariant
                d0 == *old(self),
                nm == name.spec_bytes(),
                hd == hash_derivation_modulo@,
                i <= self.outputs@.len(),
                d0.wf(),
                forall|j: int| 0 <= j < d0.outputs@.len() ==> (#[trigger] d0.outputs@[j]).1.path is None,
                outputs_done(d0, *self, nm, hd, i as int),
            decreases self.outputs@.len() - i,
        {
            let on = string_bytes(&self.outputs[i].0);
            let pn = output_path_name(name.as_bytes(), on);
            let ghost v = output_path_view(nm, hd, str_bytes(d0.outputs@[i as int].0), d0.outputs@[i as int].1.ca_hash);
            assert(self.outputs@[i as int].0 == d0.outputs@[i as int].0);
            let sp = match &self.outputs[i].1.ca_hash {
                Some(ca) => {
                    assert(!(d0.outputs@[i as int].1.ca_hash matches Some(CAHash::Text(_))));
                    let no_refs: Vec<Vec<u8>> = Vec::new();
                    assert(no_refs@.map_values(|v: Vec<u8>| v@) =~= Seq::<Seq<u8>>::empty());
                    match build_ca_path(pn.as_slice(), ca, no_refs.as_slice(), false) {
                        Ok(p) => p,
                        Err(e) => {
                            let oname = self.outputs[i].0.clone();
                            proof {
                                assert(outputs_done(d0, *self, nm, hd, i as int));
                                assert(d0.outputs@[i as int].0 == oname);
                                assert(pn@ == spec_output_path_name(nm, str_bytes(d0.outputs@[i as int].0)));
                                assert(ca_parts(*ca, Seq::empty(), false) is Some);
                                assert(!valid_name(pn@));
                                assert(e matches BuildStorePathError::InvalidStorePath(se) && name_error(pn@, se));
                            }
                            return Err(DerivationError::InvalidOutputDerivationPath(oname, e));
                        },
                    }
                },
                None => {
                    match build_output_path(hash_derivation_modulo, on, pn.as_slice()) {
                        Ok(p) => p,
                        Err(e) => {
                            let oname = self.outputs[i].0.clone();
                            proof {
                                assert(outputs_done(d0, *self, nm, hd, i as int));
                                assert(d0.outputs@[i as int].0 == oname);
                                assert(pn@ == spec_output_path_name(nm, str_bytes(d0.outputs@[i as int].0)));
                                assert(!valid_name(pn@));
                                assert(name_error(pn@, e));
                            }
                            return Err(
                                DerivationError::InvalidOutputDerivationPath(
                                    oname,
                                    BuildStorePathError::InvalidStorePath(e),
                                ),
                            );
                        },
                    }
                },
            };
            assert(sp@ == v);
            let abs = sp.to_absolute_path_bytes();
            let key = self.outputs[i].0.clone();
            let ghost before = *self;
            self.insert_environment(key, abs);
            let ghost mid = *self;
            self.outputs[i].1.path = Some(sp);
            proof {
                assert(self.outputs@.len() == mid.outputs@.len());
                assert(forall|j: int| 0 <= j < self.outputs@.len() && j != i ==> self.outputs@[j] == mid.outputs@[j]);
                assert(self.outputs@[i as int].0 == mid.outputs@[i as int].0);
                assert(self.outputs@[i as int].1.ca_hash == mid.outputs@[i as int].1.ca_hash);
                assert(self.output_names() =~= mid.output_names());
                assert(self.environment == mid.environment);
                assert(self.environment_map() == mid.environment_map());
                assert(abs@ == absolute_path(v.0, v.1));
                assert(env_with_outputs(d0.environment_map(), d0.outputs@, nm, hd, i + 1)
                    == env_with_outputs(d0.environment_map(), d0.outputs@, nm, hd, i as int).insert(
                        str_bytes(d0.outputs@[i as int].0), absolute_path(v.0, v.1)));
                assert forall|j: int| 0 <= j < self.outputs@.len() implies !(
                #[trigger] self.outputs@[j].1.ca_hash matches Some(CAHash::Text(_))) by {
                    assert(self.outputs@[j].1.ca_hash == mid.outputs@[j].1.ca_hash);
                }
                assert(self.input_derivation_paths() == mid.input_derivation_paths());
                assert(self.input_derivation_outputs() == mid.input_derivation_outputs());
                assert(self.input_source_paths() == mid.input_source_paths());
                assert(self.environment_keys() == mid.environment_keys());
                assert(self.wf());
                assert forall|j: int| 0 <= j < i + 1 implies {
                    let w = output_path_view(nm, hd, str_bytes(d0.outputs@[j].0), d0.outputs@[j].1.ca_hash);
                    &&& valid_name(w.1)
                    &&& (#[trigger] self.outputs@[j]).1.path matches Some(p) && p@ == w
                } by {
                    if j < i {
                        assert(self.outputs@[j] == before.outputs@[j]);
                    }
                }
            }
            i = i + 1;
        }
        Ok(())
    }

    /// The hash of the derivation modulo fixed-output derivations, given
    /// `hashes[i]`, the modular hash of input derivation `i`: see
    /// [`Derivation::modulo_result`].
    pub fn hash_derivation_modulo_with(&self, hashes: &[[u8; 32]]) -> (r: [u8; 32])
        requires
            self.wf(),
            hashes@.len() == self.input_derivations@.len(),
        ensures
            self.modulo_result(hashes@, r),
    {
        match self.fod_digest() {
            Some(d) => {
                return d;
            },
            None => {},
        }
        let mut keys: Vec<Vec<u8>> = Vec::new();
        let mut idx: Vec<usize> = Vec::new();
        let mut i: usize = 0;
        assert(keyed_map(bytes_view(keys@), idx@.map_values(|j: usize| j as int)) =~= modulo_map(hashes@, 0));
        while i < hashes.len()
            invariant
                i <= hashes@.len(),
                hashes@.len() == self.input_derivations@.len(),
                keys@.len() == idx@.len(),
                strictly_sorted(bytes_view(keys@)),
                forall|j: int| 0 <= j < idx@.len() ==> idx@[j] < i,
                keyed_map(bytes_view(keys@), idx@.map_values(|j: usize| j as int)) == modulo_map(
                    hashes@,
                    i as int,
                ),
            decreases hashes@.len() - i,
        {
            let hk = hex_lower(hashes[i].as_slice());
            let (slot, found) = find_slot(&keys, hk.as_slice());
            let ghost ks = bytes_view(keys@);
            let ghost iv = idx@.map_values(|j: usize| j as int);
            if found {
                idx.set(slot, i);
                proof {
                    assert(idx@.map_values(|j: usize| j as int) =~= iv.update(slot as int, i as int));
                    lemma_keyed_map_update(ks, iv, i as int, slot as int);
                }
            } else {
                let ghost hv = hk@;
                keys.insert(slot, hk);
                idx.insert(slot, i);
                proof {
                    assert(bytes_view(keys@) =~= ks.insert(slot as int, hv));
                    assert(idx@.map_values(|j: usize| j as int) =~= iv.insert(slot as int, i as int));
                    lemma_insert_keeps_sorted(ks, hv, slot as int);
                    lemma_keyed_map_insert(ks, iv, hv, i as int, slot as int);
                }
            }
            i = i + 1;
        }
        let mut drvs: Vec<u8> = Vec::new();
        write_input_drvs_replaced(&mut drvs, self, &keys, &idx);
        let aterm = self.aterm_bytes_with(drvs.as_slice());
        let r = sha256(aterm.as_slice());
        proof {
            let ks = bytes_view(keys@);
            let ix = idx@.map_values(|j: usize| j as int);
            assert(idx@.map_values(|j: usize| self.input_derivation_outputs()[j as int]) =~= ix.map_values(
                |j: int| self.input_derivation_outputs()[j],
            ));
            assert(r@ == sha256_spec(
                self.aterm_with(
                    input_drvs_term(ks, ix.map_values(|j: int| self.input_derivation_outputs()[j])),
                ),
            ));
        }
        r
    }

    /// The hash of the derivation modulo fixed-output derivations. A
    /// fixed-output derivation gives its [`Derivation::fod_digest`] and
    /// `lookup` is not called; otherwise `lookup` is asked for the modular
    /// hash of each input derivation, in order.
    pub fn hash_derivation_modulo<F: Fn(&StorePath) -> [u8; 32]>(&self, lookup: F) -> (r: [u8; 32])
        requires
            self.wf(),
            self.fod_string() is None ==> forall|p: StorePath| call_requires(lookup, (&p,)),
        ensures
            match self.fod_string() {
                Some(s) => r@ == sha256_spec(s),
                None => exists|hs: Seq<[u8; 32]>|
                    {
                        &&& hs.len() == self.input_derivations@.len()
                        &&& forall|i: int|
                            0 <= i < hs.len() ==> call_ensures(
                                lookup,
                                (&self.input_derivations@[i].0,),
                                #[trigger] hs[i],
                            )
                        &&& self.modulo_result(hs, r)
                    },
            },
    {
        match self.fod_digest() {
            Some(d) => {
                return d;
            },
            None => {},
        }
        let mut hashes: Vec<[u8; 32]> = Vec::new();
        let mut i: usize = 0;
        while i < self.input_derivations.len()
            invariant
                i <= self.input_derivations@.len(),
                hashes@.len() == i,
                forall|p: StorePath| call_requires(lookup, (&p,)),
                forall|j: int|
                    0 <= j < i ==> call_ensures(lookup, (&self.input_derivations@[j].0,), #[trigger] hashes@[j]),
            decreases self.input_derivations@.len() - i,
        {
            let h = lookup(&self.input_derivations[i].0);
            hashes.push(h);
            i = i + 1;
        }
        self.hash_derivation_modulo_with(hashes.as_slice())
    }
}

/// After `k` outputs have put their paths into the environment, each of
/// them finds its own path under its name (the names being distinct).
proof fn lemma_env_with_outputs(
    m: Map<Seq<u8>, Seq<u8>>,
    outs: Seq<(String, Output)>,
    name: Seq<u8>,
    hdm: Seq<u8>,
    k: int,
)
    requires
        strictly_sorted(outs.map_values(|e: (String, Output)| str_bytes(e.0))),
        0 <= k <= outs.len(),
    ensures
        forall|i: int|
            #![trigger outs[i]]
            0 <= i < k ==> {
                let v = output_path_view(name, hdm, str_bytes(outs[i].0), outs[i].1.ca_hash);
                &&& env_with_outputs(m, outs, name, hdm, k).contains_key(str_bytes(outs[i].0))
                &&& env_with_outputs(m, outs, name, hdm, k)[str_bytes(outs[i].0)] == absolute_path(v.0, v.1)
            },
    decreases k,
{
    let names = outs.map_values(|e: (String, Output)| str_bytes(e.0));
    if k > 0 {
        lemma_env_with_outputs(m, outs, name, hdm, k - 1);
        let prev = env_with_outputs(m, outs, name, hdm, k - 1);
        let cur = env_with_outputs(m, outs, name, hdm, k);
        let e = outs[k - 1];
        let w = output_path_view(name, hdm, str_bytes(e.0), e.1.ca_hash);
        assert(cur == prev.insert(str_bytes(e.0), absolute_path(w.0, w.1)));
        assert forall|i: int|
            #![trigger outs[i]]
            0 <= i < k implies {
                let v = output_path_view(name, hdm, str_bytes(outs[i].0), outs[i].1.ca_hash);
                &&& cur.contains_key(str_bytes(outs[i].0))
                &&& cur[str_bytes(outs[i].0)] == absolute_path(v.0, v.1)
            } by {
            if i < k - 1 {
                assert(names[i] == str_bytes(outs[i].0));
                assert(names[k - 1] == str_bytes(outs[k - 1].0));
                assert(seq_lt(names[i], names[k - 1]));
                crate::sorted::lemma_lt_irreflexive(names[i]);
                assert(prev.contains_key(str_bytes(outs[i].0)));
            }
        }
    }
}

/// Once the output paths of a derivation are computed, the environment
/// holds each output's path under the output's name.
pub proof fn lemma_output_paths_in_environment(old: Derivation, new: Derivation, name: Seq<u8>, hdm: Seq<u8>)
    requires
        old.wf(),
        outputs_done(old, new, name, hdm, old.outputs@.len() as int),
    ensures
        forall|i: int|
            0 <= i < new.outputs@.len() ==> {
                &&& (#[trigger] new.outputs@[i]).1.path is Some
                &&& new.environment_map().contains_key(str_bytes(new.outputs@[i].0))
                &&& new.environment_map()[str_bytes(new.outputs@[i].0)] == path_bytes(
                    new.outputs@[i].1.path->0,
                )
            },
{
    lemma_env_with_outputs(old.environment_map(), old.outputs@, name, hdm, old.outputs@.len() as int);
    assert forall|i: int| 0 <= i < new.outputs@.len() implies {
        &&& (#[trigger] new.outputs@[i]).1.path is Some
        &&& new.environment_map().contains_key(str_bytes(new.outputs@[i].0))
        &&& new.environment_map()[str_bytes(new.outputs@[i].0)] == path_bytes(new.outputs@[i].1.path->0)
    } by {
        assert(new.outputs@[i].0 == old.outputs@[i].0);
        assert(env_with_outputs(old.environment_map(), old.outputs@, name, hdm, old.outputs@.len() as int).contains_key(
            str_bytes(old.outputs@[i].0),
        ));
    }
}

/// The modular hash of a fixed-output derivation does not depend on the
/// hashes of its input derivations.
pub proof fn lemma_fixed_output_modulo_ignores_inputs(
    d: Derivation,
    hs1: Seq<[u8; 32]>,
    r1: [u8; 32],
    hs2: Seq<[u8; 32]>,
    r2: [u8; 32],
)
    requires
        d.fod_string() is Some,
        d.modulo_result(hs1, r1),
        d.modulo_result(hs2, r2),
    ensures
        r1 == r2,
{
    assert(r1@ =~= r2@);
    assert forall|i: int| 0 <= i < 32 implies r1[i] == r2[i] by {
        assert(r1@[i] == r2@[i]);
    }
    assert(r1 =~= r2);
}

/// Without input derivations, the modular hash of a derivation that is not
/// fixed-output is the SHA-256 of its ATerm.
pub proof fn lemma_modulo_without_inputs_hashes_aterm(d: Derivation, r: [u8; 32])
    requires
        d.fod_string() is None,
        d.input_derivations@.len() == 0,
        d.modulo_result(Seq::empty(), r),
    ensures
        r@ == sha256_spec(d.aterm()),
{
    let (ks, ix) = choose|ks: Seq<Seq<u8>>, ix: Seq<int>|
        {
            &&& strictly_sorted(ks)
            &&& ks.len() == ix.len()
            &&& keyed_map(ks, ix) == modulo_map(Seq::<[u8; 32]>::empty(), 0)
            &&& r@ == sha256_spec(
                d.aterm_with(
                    input_drvs_term(ks, ix.map_values(|j: int| d.input_derivation_outputs()[j])),
                ),
            )
        };
    if ks.len() > 0 {
        assert(ks.contains(ks[0]));
        assert(keyed_map(ks, ix).contains_key(ks[0]));
    }
    assert(ks =~= d.input_derivation_paths());
    assert(ix.map_values(|j: int| d.input_derivation_outputs()[j]) =~= d.input_derivation_outputs());
}

/// The names of keyed entries, as bytes.
fn name_keys<T>(v: &Vec<(String, T)>) -> (r: Vec<Vec<u8>>)
    ensures
        bytes_view(r@) == v@.map_values(|e: (String, T)| str_bytes(e.0)),
{
    let ghost want = v@.map_values(|e: (String, T)| str_bytes(e.0));
    let mut r: Vec<Vec<u8>> = Vec::new();
    let mut i: usize = 0;
    while i < v.len()
        invariant
            want == v@.map_values(|e: (String, T)| str_bytes(e.0)),
            i <= v@.len(),
            bytes_view(r@) == want.take(i as int),
        decreases v@.len() - i,
    {
        let b = vstd::slice::slice_to_vec(string_bytes(&v[i].0));
        let ghost before = r@;
        r.push(b);
        assert(bytes_view(r@) =~= bytes_view(before).push(b@));
        assert(want.take(i + 1) =~= want.take(i as int).push(b@));
        i = i + 1;
    }
    assert(want.take(i as int) =~= want);
    r
}

/// The strings, as bytes.
fn string_list_keys(v: &Vec<String>) -> (r: Vec<Vec<u8>>)
    ensures
        bytes_view(r@) == strs_bytes(v@),
{
    let ghost want = strs_bytes(v@);
    let mut r: Vec<Vec<u8>> = Vec::new();
    let mut i: usize = 0;
    while i < v.len()
        invariant
            want == strs_bytes(v@),
            i <= v@.len(),
            bytes_view(r@) == want.take(i as int),
        decreases v@.len() - i,
    {
        let b = vstd::slice::slice_to_vec(string_bytes(&v[i]));
        let ghost before = r@;
        r.push(b);
        assert(bytes_view(r@) =~= bytes_view(before).push(b@));
        assert(want.take(i + 1) =~= want.take(i as int).push(b@));
        i = i + 1;
    }
    assert(want.take(i as int) =~= want);
    r
}

/// The absolute paths of store paths.
fn path_list_keys(v: &Vec<StorePath>) -> (r: Vec<Vec<u8>>)
    ensures
        bytes_view(r@) == paths_bytes(v@),
{
    let ghost want = paths_bytes(v@);
    let mut r: Vec<Vec<u8>> = Vec::new();
    let mut i: usize = 0;
    while i < v.len()
        invariant
            want == paths_bytes(v@),
            i <= v@.len(),
            bytes_view(r@) == want.take(i as int),
        decreases v@.len() - i,
    {
        let b = v[i].to_absolute_path_bytes();
        let ghost before = r@;
        r.push(b);
        assert(bytes_view(r@) =~= bytes_view(before).push(b@));
        assert(want.take(i + 1) =~= want.take(i as int).push(b@));
        i = i + 1;
    }
    assert(want.take(i as int) =~= want);
    r
}

impl Derivation {
    /// Decides [`Derivation::wf`]: callers that assembled the fields
    /// themselves check it before handing the derivation on.
    pub fn is_well_formed(&self) -> (r: bool)
        ensures
            r == self.wf(),
    {
        let names = name_keys(&self.outputs);
        if !is_strictly_sorted(&names) {
            return false;
        }
        let mut i: usize = 0;
        while i < self.outputs.len()
            invariant
                i <= self.outputs@.len(),
                forall|j: int|
                    0 <= j < i ==> !(#[trigger] self.outputs@[j].1.ca_hash matches Some(CAHash::Text(_))),
            decreases self.outputs@.len() - i,
        {
            match &self.outputs[i].1.ca_hash {
                Some(CAHash::Text(_)) => {
                    return false;
                },
                _ => {},
            }
            i = i + 1;
        }
        let mut drv_paths: Vec<Vec<u8>> = Vec::new();
        let mut j: usize = 0;
        while j < self.input_derivations.len()
            invariant
                j <= self.input_derivations@.len(),
                bytes_view(drv_paths@) == self.input_derivation_paths().take(j as int),
                forall|k: int|
                    0 <= k < j ==> strictly_sorted(#[trigger] self.input_derivation_outputs()[k]),
            decreases self.input_derivations@.len() - j,
        {
            let outs = string_list_keys(&self.input_derivations[j].1);
            assert(bytes_view(outs@) == self.input_derivation_outputs()[j as int]);
            if !is_strictly_sorted(&outs) {
                return false;
            }
            let b = self.input_derivations[j].0.to_absolute_path_bytes();
            let ghost before = drv_paths@;
            drv_paths.push(b);
            assert(bytes_view(drv_paths@) =~= bytes_view(before).push(b@));
            assert(self.input_derivation_paths().take(j + 1) =~= self.input_derivation_paths().take(
                j as int,
            ).push(b@));
            j = j + 1;
        }
        assert(self.input_derivation_paths().take(j as int) =~= self.input_derivation_paths());
        if !is_strictly_sorted(&drv_paths) {
            return false;
        }
        let sources = path_list_keys(&self.input_sources);
        if !is_strictly_sorted(&sources) {
            return false;
        }
        let env_keys = name_keys(&self.environment);
        is_strictly_sorted(&env_keys)
    }
}

} // verus!
