//! Pieces of the ATerm text of a derivation: quoted and escaped strings,
//! comma-separated lists.

use crate::derivation::{
    ca_kind_prefix, env_entry_term, input_drv_term, input_drvs_term, output_term, path_bytes,
    paths_bytes, str_bytes, strs_bytes, Derivation, Output,
};
use crate::hashing::hex_lower;
use crate::nixhash::{algo_name_bytes, CAHash};
use crate::refscan::bytes_view;
use crate::store_path::StorePath;
use crate::text::push_all;
use vstd::prelude::*;
use vstd::string::StringSliceAdditionalSpecFns;

verus! {

/// How one byte appears inside a quoted ATerm string: backslash, newline,
/// carriage return, tab and double quote are escaped with a backslash.
pub open spec fn esc(c: u8) -> Seq<u8> {
    if c == 92 {
        seq![92u8, 92]
    } else if c == 10 {
        seq![92u8, 110]
    } else if c == 13 {
        seq![92u8, 114]
    } else if c == 9 {
        seq![92u8, 116]
    } else if c == 34 {
        seq![92u8, 34]
    } else {
        seq![c]
    }
}

/// Every byte of `s` escaped.
pub open spec fn escaped(s: Seq<u8>) -> Seq<u8>
    decreases s.len(),
{
    if s.len() == 0 {
        Seq::empty()
    } else {
        escaped(s.drop_last()) + esc(s.last())
    }
}

/// `s` escaped, between double quotes.
pub open spec fn quoted(s: Seq<u8>) -> Seq<u8> {
    seq![34u8] + escaped(s) + seq![34u8]
}

/// The parts separated by commas.
pub open spec fn joined(parts: Seq<Seq<u8>>) -> Seq<u8>
    decreases parts.len(),
{
    if parts.len() == 0 {
        Seq::empty()
    } else if parts.len() == 1 {
        parts[0]
    } else {
        joined(parts.drop_last()) + seq![44u8] + parts.last()
    }
}

/// The quoted strings, comma-separated, in brackets.
pub open spec fn quoted_array(items: Seq<Seq<u8>>) -> Seq<u8> {
    seq![91u8] + joined(items.map_values(|s: Seq<u8>| quoted(s))) + seq![93u8]
}

/// Joining one more part.
pub proof fn lemma_joined_step(parts: Seq<Seq<u8>>, i: int)
    requires
        0 <= i < parts.len(),
    ensures
        joined(parts.take(i + 1)) == joined(parts.take(i)) + (if i > 0 {
            seq![44u8]
        } else {
            Seq::<u8>::empty()
        }) + parts[i],
{
    let t = parts.take(i + 1);
    assert(t.drop_last() =~= parts.take(i));
    if i == 0 {
        assert(parts.take(0) =~= Seq::<Seq<u8>>::empty());
        assert(joined(t) == t[0]);
        assert(Seq::<u8>::empty() + Seq::<u8>::empty() + parts[0] =~= parts[0]);
    }
}

/// Appends `s` escaped.
pub fn write_escaped(out: &mut Vec<u8>, s: &[u8])
    ensures
        final(out)@ == old(out)@ + escaped(s@),
{
    let mut i: usize = 0;
    while i < s.len()
        invariant
            i <= s@.len(),
            out@ == old(out)@ + escaped(s@.take(i as int)),
        decreases s@.len() - i,
    {
        assert(s@.take(i + 1).drop_last() =~= s@.take(i as int));
        let c = s[i];
        if c == 92 {
            out.push(92u8);
            out.push(92u8);
        } else if c == 10 {
            out.push(92u8);
            out.push(110u8);
        } else if c == 13 {
            out.push(92u8);
            out.push(114u8);
        } else if c == 9 {
            out.push(92u8);
            out.push(116u8);
        } else if c == 34 {
            out.push(92u8);
            out.push(34u8);
        } else {
            out.push(c);
        }
        i = i + 1;
        assert(out@ =~= old(out)@ + escaped(s@.take(i as int)));
    }
    assert(s@.take(i as int) =~= s@);
}

/// Appends `s` quoted.
pub fn write_quoted(out: &mut Vec<u8>, s: &[u8])
    ensures
        final(out)@ == old(out)@ + quoted(s@),
{
    out.push(34u8);
    write_escaped(out, s);
    out.push(34u8);
    assert(out@ =~= old(out)@ + quoted(s@));
}

/// Appends the quoted strings as a bracketed array.
pub fn write_quoted_array(out: &mut Vec<u8>, items: &[Vec<u8>])
    ensures
        final(out)@ == old(out)@ + quoted_array(items@.map_values(|v: Vec<u8>| v@)),
{
    let ghost iv = items@.map_values(|v: Vec<u8>| v@);
    let ghost parts = iv.map_values(|s: Seq<u8>| quoted(s));
    out.push(91u8);
    let ghost head = out@;
    let mut i: usize = 0;
    while i < items.len()
        invariant
            iv == items@.map_values(|v: Vec<u8>| v@),
            parts == iv.map_values(|s: Seq<u8>| quoted(s)),
            i <= items@.len(),
            out@ == head + joined(parts.take(i as int)),
        decreases items@.len() - i,
    {
        proof {
            lemma_joined_step(parts, i as int);
        }
        if i > 0 {
            out.push(44u8);
        }
        write_quoted(out, items[i].as_slice());
        i = i + 1;
        assert(out@ =~= head + joined(parts.take(i as int)));
    }
    assert(parts.take(i as int) =~= parts);
    out.push(93u8);
    assert(out@ =~= old(out)@ + quoted_array(iv));
}

/// Appends `s` as it is.
pub fn write_bytes(out: &mut Vec<u8>, s: &[u8])
    ensures
        final(out)@ == old(out)@ + s@,
{
    push_all(out, s);
}

/// The UTF-8 bytes of a string.
pub fn string_bytes(s: &String) -> (r: &[u8])
    ensures
        r@ == str_bytes(*s),
{
    s.as_str().as_bytes()
}

/// Appends the quoted strings as a bracketed array.
pub fn write_quoted_strings(out: &mut Vec<u8>, items: &Vec<String>)
    ensures
        final(out)@ == old(out)@ + quoted_array(strs_bytes(items@)),
{
    let ghost iv = strs_bytes(items@);
    let ghost parts = iv.map_values(|s: Seq<u8>| quoted(s));
    out.push(91u8);
    let ghost head = out@;
    let mut i: usize = 0;
    while i < items.len()
        invariant
            iv == strs_bytes(items@),
            parts == iv.map_values(|s: Seq<u8>| quoted(s)),
            i <= items@.len(),
            out@ == head + joined(parts.take(i as int)),
        decreases items@.len() - i,
    {
        proof {
            lemma_joined_step(parts, i as int);
        }
        if i > 0 {
            out.push(44u8);
        }
        write_quoted(out, string_bytes(&items[i]));
        i = i + 1;
        assert(out@ =~= head + joined(parts.take(i as int)));
    }
    assert(parts.take(i as int) =~= parts);
    out.push(93u8);
    assert(out@ =~= old(out)@ + quoted_array(iv));
}

/// Appends the absolute paths, quoted, as a bracketed array.
pub fn write_quoted_paths(out: &mut Vec<u8>, items: &Vec<StorePath>)
    ensures
        final(out)@ == old(out)@ + quoted_array(paths_bytes(items@)),
{
    let ghost iv = paths_bytes(items@);
    let ghost parts = iv.map_values(|s: Seq<u8>| quoted(s));
    out.push(91u8);
    let ghost head = out@;
    let mut i: usize = 0;
    while i < items.len()
        invariant
            iv == paths_bytes(items@),
            parts == iv.map_values(|s: Seq<u8>| quoted(s)),
            i <= items@.len(),
            out@ == head + joined(parts.take(i as int)),
        decreases items@.len() - i,
    {
        proof {
            lemma_joined_step(parts, i as int);
        }
        if i > 0 {
            out.push(44u8);
        }
        let b = items[i].to_absolute_path_bytes();
        write_quoted(out, b.as_slice());
        i = i + 1;
        assert(out@ =~= head + joined(parts.take(i as int)));
    }
    assert(parts.take(i as int) =~= parts);
    out.push(93u8);
    assert(out@ =~= old(out)@ + quoted_array(iv));
}

/// Appends one output: name, path, hash mode and algorithm, digest.
pub fn write_output(out: &mut Vec<u8>, name: &String, o: &Output)
    requires
        !(o.ca_hash matches Some(CAHash::Text(_))),
    ensures
        final(out)@ == old(out)@ + output_term(str_bytes(*name), *o),
{
    out.push(40u8);
    write_quoted(out, string_bytes(name));
    out.push(44u8);
    match &o.path {
        Some(p) => {
            let b = p.to_absolute_path_bytes();
            write_quoted(out, b.as_slice());
        },
        None => {
            write_quoted(out, &[]);
        },
    }
    out.push(44u8);
    match &o.ca_hash {
        Some(ca) => {
            let mut a = ca_kind_prefix(ca);
            let h = ca.hash();
            let an = algo_name_bytes(h.algo());
            push_all(&mut a, an.as_slice());
            write_quoted(out, a.as_slice());
            out.push(44u8);
            let hx = hex_lower(h.digest_as_bytes());
            write_quoted(out, hx.as_slice());
        },
        None => {
            write_quoted(out, &[]);
            out.push(44u8);
            write_quoted(out, &[]);
        },
    }
    out.push(41u8);
    proof {
        assert(Seq::<u8>::empty() =~= seq![]);
    }
    assert(out@ =~= old(out)@ + output_term(str_bytes(*name), *o));
}

/// Appends the list of outputs.
pub fn write_outputs(out: &mut Vec<u8>, d: &Derivation)
    requires
        d.wf(),
    ensures
        final(out)@ == old(out)@ + d.outputs_term(),
{
    let ghost parts = Seq::new(
        d.outputs@.len(),
        |i: int| output_term(str_bytes(d.outputs@[i].0), d.outputs@[i].1),
    );
    out.push(91u8);
    let ghost head = out@;
    let mut i: usize = 0;
    while i < d.outputs.len()
        invariant
            d.wf(),
            parts == Seq::new(
                d.outputs@.len(),
                |i: int| output_term(str_bytes(d.outputs@[i].0), d.outputs@[i].1),
            ),
            i <= d.outputs@.len(),
            out@ == head + joined(parts.take(i as int)),
        decreases d.outputs@.len() - i,
    {
        proof {
            lemma_joined_step(parts, i as int);
        }
        if i > 0 {
            out.push(44u8);
        }
        assert(!(d.outputs@[i as int].1.ca_hash matches Some(CAHash::Text(_))));
        write_output(out, &d.outputs[i].0, &d.outputs[i].1);
        i = i + 1;
        assert(out@ =~= head + joined(parts.take(i as int)));
    }
    assert(parts.take(i as int) =~= parts);
    out.push(93u8);
    assert(out@ =~= old(out)@ + d.outputs_term());
}

/// Appends the environment.
pub fn write_environment(out: &mut Vec<u8>, d: &Derivation)
    ensures
        final(out)@ == old(out)@ + d.environment_term(),
{
    let ghost parts = Seq::new(
        d.environment@.len(),
        |i: int| env_entry_term(d.environment_keys()[i], d.environment_values()[i]),
    );
    out.push(91u8);
    let ghost head = out@;
    let mut i: usize = 0;
    while i < d.environment.len()
        invariant
            parts == Seq::new(
                d.environment@.len(),
                |i: int| env_entry_term(d.environment_keys()[i], d.environment_values()[i]),
            ),
            i <= d.environment@.len(),
            out@ == head + joined(parts.take(i as int)),
        decreases d.environment@.len() - i,
    {
        proof {
            lemma_joined_step(parts, i as int);
        }
        if i > 0 {
            out.push(44u8);
        }
        out.push(40u8);
        out.push(34u8);
        push_all(out, string_bytes(&d.environment[i].0));
        out.push(34u8);
        out.push(44u8);
        write_quoted(out, d.environment[i].1.as_slice());
        out.push(41u8);
        i = i + 1;
        assert(out@ =~= head + joined(parts.take(i as int)));
    }
    assert(parts.take(i as int) =~= parts);
    out.push(93u8);
    assert(out@ =~= old(out)@ + d.environment_term());
}

/// Appends one input derivation under `key`, with its output names.
pub fn write_input_drv(out: &mut Vec<u8>, key: &[u8], names: &Vec<String>)
    ensures
        final(out)@ == old(out)@ + input_drv_term(key@, strs_bytes(names@)),
{
    out.push(40u8);
    write_quoted(out, key);
    out.push(44u8);
    write_quoted_strings(out, names);
    out.push(41u8);
    assert(out@ =~= old(out)@ + input_drv_term(key@, strs_bytes(names@)));
}

/// Appends the list of input derivations, each under its absolute path.
pub fn write_input_drvs(out: &mut Vec<u8>, d: &Derivation)
    ensures
        final(out)@ == old(out)@ + input_drvs_term(
            d.input_derivation_paths(),
            d.input_derivation_outputs(),
        ),
{
    let ghost keys = d.input_derivation_paths();
    let ghost names = d.input_derivation_outputs();
    let ghost parts = Seq::new(keys.len(), |i: int| input_drv_term(keys[i], names[i]));
    out.push(91u8);
    let ghost head = out@;
    let mut i: usize = 0;
    while i < d.input_derivations.len()
        invariant
            keys == d.input_derivation_paths(),
            names == d.input_derivation_outputs(),
            parts == Seq::new(keys.len(), |i: int| input_drv_term(keys[i], names[i])),
            i <= d.input_derivations@.len(),
            out@ == head + joined(parts.take(i as int)),
        decreases d.input_derivations@.len() - i,
    {
        proof {
            lemma_joined_step(parts, i as int);
        }
        if i > 0 {
            out.push(44u8);
        }
        let k = d.input_derivations[i].0.to_absolute_path_bytes();
        write_input_drv(out, k.as_slice(), &d.input_derivations[i].1);
        i = i + 1;
        assert(out@ =~= head + joined(parts.take(i as int)));
    }
    assert(parts.take(i as int) =~= parts);
    out.push(93u8);
    assert(out@ =~= old(out)@ + input_drvs_term(keys, names));
}

/// Appends the list of input derivations with `keys[j]` written in place of
/// a path, carrying the output names of input derivation `idx[j]`.
pub fn write_input_drvs_replaced(out: &mut Vec<u8>, d: &Derivation, keys: &Vec<Vec<u8>>, idx: &Vec<usize>)
    requires
        keys@.len() == idx@.len(),
        forall|j: int| 0 <= j < idx@.len() ==> idx@[j] < d.input_derivations@.len(),
    ensures
        final(out)@ == old(out)@ + input_drvs_term(
            bytes_view(keys@),
            idx@.map_values(|j: usize| d.input_derivation_outputs()[j as int]),
        ),
{
    let ghost ks = bytes_view(keys@);
    let ghost names = idx@.map_values(|j: usize| d.input_derivation_outputs()[j as int]);
    let ghost parts = Seq::new(ks.len(), |i: int| input_drv_term(ks[i], names[i]));
    out.push(91u8);
    let ghost head = out@;
    let mut i: usize = 0;
    while i < keys.len()
        invariant
            keys@.len() == idx@.len(),
            forall|j: int| 0 <= j < idx@.len() ==> idx@[j] < d.input_derivations@.len(),
            ks == bytes_view(keys@),
            names == idx@.map_values(|j: usize| d.input_derivation_outputs()[j as int]),
            parts == Seq::new(ks.len(), |i: int| input_drv_term(ks[i], names[i])),
            i <= keys@.len(),
            out@ == head + joined(parts.take(i as int)),
        decreases keys@.len() - i,
    {
        proof {
            lemma_joined_step(parts, i as int);
        }
        if i > 0 {
            out.push(44u8);
        }
        let j = idx[i];
        write_input_drv(out, keys[i].as_slice(), &d.input_derivations[j].1);
        i = i + 1;
        assert(out@ =~= head + joined(parts.take(i as int)));
    }
    assert(parts.take(i as int) =~= parts);
    out.push(93u8);
    assert(out@ =~= old(out)@ + input_drvs_term(ks, names));
}

} // verus!
