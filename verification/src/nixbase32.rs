//! Nix's own base32 flavour: a reduced alphabet, and digits emitted from the
//! most significant 5-bit group of a little-endian bit stream downwards.

use crate::text::{ascii_chars, string_from_ascii};
use vstd::prelude::*;

verus! {

/// The 32 characters of the nixbase32 alphabet (no `e`, `o`, `u`, `t`).
pub const ALPHABET: [u8; 32] = [
    48, 49, 50, 51, 52, 53, 54, 55, 56, 57, 97, 98, 99, 100, 102,
    103, 104, 105, 106, 107, 108, 109, 110, 112, 113, 114, 115, 118, 119, 120,
    121, 122,
];

/// Number of characters needed to encode `n` bytes.
pub open spec fn spec_encode_len(n: nat) -> nat {
    (n * 8 + 4) / 5
}

/// The 16-bit little-endian word starting at byte `i` (the high byte is zero
/// past the end of the input).
pub open spec fn word_at(input: Seq<u8>, i: int) -> u16 {
    if i + 1 < input.len() {
        (input[i] as u16) | ((input[i + 1] as u16) << 8u16)
    } else {
        input[i] as u16
    }
}

/// The 5-bit group that starts at bit `5 * n` of the input.
pub open spec fn group_at(input: Seq<u8>, n: int) -> u16 {
    (word_at(input, (n * 5) / 8) >> (((n * 5) % 8) as u16)) & 0x1fu16
}

/// The nixbase32 encoding: character `k` encodes group `len - 1 - k`.
pub open spec fn spec_encode(input: Seq<u8>) -> Seq<u8> {
    let l = spec_encode_len(input.len());
    Seq::new(l, |k: int| ALPHABET@[group_at(input, l - 1 - k) as int])
}

/// Every character of the alphabet is ASCII.
pub proof fn lemma_alphabet_ascii()
    ensures
        forall|i: int| 0 <= i < 32 ==> #[trigger] ALPHABET@[i] < 128,
{
}

/// Every character of an encoding is ASCII.
pub proof fn lemma_encode_ascii(input: Seq<u8>)
    ensures
        forall|k: int| 0 <= k < spec_encode(input).len() ==> #[trigger] spec_encode(input)[k] < 128,
{
    assert forall|k: int| 0 <= k < spec_encode(input).len() implies #[trigger] spec_encode(
        input,
    )[k] < 128 by {
        let l = spec_encode_len(input.len());
        let w = word_at(input, ((l - 1 - k) * 5) / 8);
        let sh = (((l - 1 - k) * 5) % 8) as u16;
        assert(((w >> sh) & 0x1fu16) < 32) by (bit_vector);
    }
}

/// Number of characters needed to encode `len` bytes.
pub fn encode_len(len: usize) -> (r: usize)
    requires
        len <= usize::MAX / 8,
    ensures
        r == spec_encode_len(len as nat),
{
    (len * 8 + 4) / 5
}

/// Encodes `input` as nixbase32 bytes (all ASCII).
pub fn encode_bytes(input: &[u8]) -> (out: Vec<u8>)
    requires
        input.len() <= usize::MAX / 8,
    ensures
        out@ == spec_encode(input@),
{
    let output_len = encode_len(input.len());
    let mut output: Vec<u8> = Vec::with_capacity(output_len);
    let mut k: usize = 0;
    while k < output_len
        invariant
            output_len == spec_encode_len(input@.len()),
            input.len() <= usize::MAX / 8,
            k <= output_len,
            output@.len() == k,
            forall|x: int| 0 <= x < k ==> output@[x] == #[trigger] spec_encode(input@)[x],
        decreases output_len - k,
    {
        let n = output_len - 1 - k;
        let b = n * 5;
        let i = b / 8;
        let j = b % 8;
        assert(i < input.len()) by (nonlinear_arith)
            requires
                n < output_len,
                output_len == (input.len() * 8 + 4) / 5,
                b == n * 5,
                i == b / 8,
        ;
        let mut word: u16 = input[i] as u16;
        if i + 1 < input.len() {
            word = word | ((input[i + 1] as u16) << 8u16);
        }
        let jj: u16 = j as u16;
        let c: u16 = (word >> jj) & 0x1fu16;
        assert(c < 32) by (bit_vector)
            requires
                c == (word >> jj) & 0x1fu16,
        ;
        assert(word == word_at(input@, i as int));
        assert(c == group_at(input@, n as int));
        output.push(ALPHABET[c as usize]);
        k = k + 1;
    }
    assert(output@ =~= spec_encode(input@));
    output
}

/// Encodes `input` as a nixbase32 string.
pub fn encode(input: &[u8]) -> (out: String)
    requires
        input.len() <= usize::MAX / 8,
    ensures
        out@ == ascii_chars(spec_encode(input@)),
{
    let b = encode_bytes(input);
    proof {
        lemma_encode_ascii(input@);
    }
    string_from_ascii(b)
}

/// Distinct positions of the alphabet hold distinct characters.
proof fn lemma_alphabet_distinct(x: int, y: int)
    requires
        0 <= x < 32,
        0 <= y < 32,
        ALPHABET@[x] == ALPHABET@[y],
    ensures
        x == y,
{
    assert(forall|k: int| 0 <= k < 31 ==> #[trigger] ALPHABET@[k] < ALPHABET@[k + 1]);
    if x < y {
        lemma_alphabet_increasing(x, y);
    } else if y < x {
        lemma_alphabet_increasing(y, x);
    }
}

proof fn lemma_alphabet_increasing(i: int, j: int)
    requires
        0 <= i < j < 32,
        forall|k: int| 0 <= k < 31 ==> #[trigger] ALPHABET@[k] < ALPHABET@[k + 1],
    ensures
        ALPHABET@[i] < ALPHABET@[j],
    decreases j - i,
{
    if j > i + 1 {
        lemma_alphabet_increasing(i, j - 1);
        assert(ALPHABET@[j - 1] < ALPHABET@[j]);
    }
}

/// Bit `r` of a group is bit `s + r` of the word it was cut from.
proof fn lemma_group_bit(w: u16, s: u16, r: u16)
    requires
        s < 8,
        r < 5,
    ensures
        (((w >> s) & 0x1fu16) >> r) & 1u16 == (w >> ((s + r) as u16)) & 1u16,
{
    assert((((w >> s) & 0x1fu16) >> r) & 1u16 == (w >> ((s + r) as u16)) & 1u16) by (bit_vector)
        requires
            s < 8,
            r < 5,
    ;
}

/// Bit `p` of a little-endian word is a bit of its low or its high byte.
proof fn lemma_word_bit(x: u8, y: u8, p: u16)
    requires
        p < 16,
    ensures
        p < 8 ==> (((x as u16) | ((y as u16) << 8u16)) >> p) & 1u16 == ((x >> (p as u8)) & 1u8) as u16,
        p >= 8 ==> (((x as u16) | ((y as u16) << 8u16)) >> p) & 1u16 == ((y >> ((p - 8) as u8)) & 1u8) as u16,
        p < 8 ==> ((x as u16) >> p) & 1u16 == ((x >> (p as u8)) & 1u8) as u16,
{
    assert(p < 8 ==> (((x as u16) | ((y as u16) << 8u16)) >> p) & 1u16 == ((x >> (p as u8)) & 1u8) as u16)
        by (bit_vector)
        requires
            p < 16,
    ;
    assert(p >= 8 ==> (((x as u16) | ((y as u16) << 8u16)) >> p) & 1u16 == ((y >> ((p - 8) as u8)) & 1u8) as u16)
        by (bit_vector)
        requires
            p < 16,
    ;
    assert(p < 8 ==> ((x as u16) >> p) & 1u16 == ((x >> (p as u8)) & 1u8) as u16) by (bit_vector)
        requires
            p < 16,
    ;
}

/// Two bytes with the same eight bits are equal.
proof fn lemma_bits_equal(x: u8, y: u8)
    requires
        forall|t: u8| t < 8 ==> #[trigger] ((x >> t) & 1u8) == ((y >> t) & 1u8),
    ensures
        x == y,
{
    assert((x >> 0u8) & 1u8 == (y >> 0u8) & 1u8);
    assert((x >> 1u8) & 1u8 == (y >> 1u8) & 1u8);
    assert((x >> 2u8) & 1u8 == (y >> 2u8) & 1u8);
    assert((x >> 3u8) & 1u8 == (y >> 3u8) & 1u8);
    assert((x >> 4u8) & 1u8 == (y >> 4u8) & 1u8);
    assert((x >> 5u8) & 1u8 == (y >> 5u8) & 1u8);
    assert((x >> 6u8) & 1u8 == (y >> 6u8) & 1u8);
    assert((x >> 7u8) & 1u8 == (y >> 7u8) & 1u8);
    assert(x == y) by (bit_vector)
        requires
            (x >> 0u8) & 1u8 == (y >> 0u8) & 1u8,
            (x >> 1u8) & 1u8 == (y >> 1u8) & 1u8,
            (x >> 2u8) & 1u8 == (y >> 2u8) & 1u8,
            (x >> 3u8) & 1u8 == (y >> 3u8) & 1u8,
            (x >> 4u8) & 1u8 == (y >> 4u8) & 1u8,
            (x >> 5u8) & 1u8 == (y >> 5u8) & 1u8,
            (x >> 6u8) & 1u8 == (y >> 6u8) & 1u8,
            (x >> 7u8) & 1u8 == (y >> 7u8) & 1u8,
    ;
}

/// Bit `t` of byte `i` of the input is bit `(8i + t) % 5` of group
/// `(8i + t) / 5`.
proof fn lemma_byte_bit_in_group(input: Seq<u8>, i: int, t: u8)
    requires
        0 <= i < input.len(),
        t < 8,
    ensures
        ({
            let m = 8 * i + t;
            ((input[i] >> t) & 1u8) as u16 == (group_at(input, m / 5) >> ((m % 5) as u16)) & 1u16
        }),
{
    let m = 8 * i + t;
    let n = m / 5;
    let r = m % 5;
    let q = (n * 5) / 8;
    let s = (n * 5) % 8;
    assert(n * 5 + r == m && 0 <= r < 5 && q * 8 + s == n * 5 && 0 <= s < 8 && n >= 0 && q >= 0) by (nonlinear_arith)
        requires
            m >= 0,
            n == m / 5,
            r == m % 5,
            q == (n * 5) / 8,
            s == (n * 5) % 8,
    ;
    let w = word_at(input, q);
    lemma_group_bit(w, s as u16, r as u16);
    assert(group_at(input, n) == (w >> (s as u16)) & 0x1fu16);
    let p = s + r;
    if p < 8 {
        assert(q == i) by (nonlinear_arith)
            requires
                q * 8 + p == 8 * i + t,
                0 <= p < 8,
                0 <= t < 8,
        ;
        if q + 1 < input.len() {
            lemma_word_bit(input[q], input[q + 1], p as u16);
        } else {
            lemma_word_bit(input[q], 0u8, p as u16);
        }
    } else {
        assert(q + 1 == i) by (nonlinear_arith)
            requires
                q * 8 + p == 8 * i + t,
                8 <= p < 13,
                0 <= t < 8,
        ;
        lemma_word_bit(input[q], input[q + 1], p as u16);
        assert((p - 8) as u8 == t);
    }
}

/// The encoding of a byte string of known length determines it:
/// nixbase32 is injective.
pub proof fn lemma_encode_injective(a: Seq<u8>, b: Seq<u8>)
    requires
        spec_encode(a) == spec_encode(b),
    ensures
        a == b,
{
    let l = spec_encode_len(a.len());
    assert(a.len() == b.len()) by {
        assert(spec_encode(a).len() == spec_encode_len(a.len()));
        assert(spec_encode(b).len() == spec_encode_len(b.len()));
        assert(spec_encode(a).len() == spec_encode(b).len());
        if a.len() < b.len() {
            assert((a.len() * 8 + 4) / 5 < (b.len() * 8 + 4) / 5) by (nonlinear_arith)
                requires
                    a.len() < b.len(),
            ;
        } else if b.len() < a.len() {
            assert((b.len() * 8 + 4) / 5 < (a.len() * 8 + 4) / 5) by (nonlinear_arith)
                requires
                    b.len() < a.len(),
            ;
        }
    }
    assert forall|n: int| 0 <= n < l implies #[trigger] group_at(a, n) == group_at(b, n) by {
        let k = l - 1 - n;
        assert(spec_encode(a)[k] == spec_encode(b)[k]);
        let wa = word_at(a, (n * 5) / 8);
        let wb = word_at(b, (n * 5) / 8);
        let sh = ((n * 5) % 8) as u16;
        assert(((wa >> sh) & 0x1fu16) < 32) by (bit_vector);
        assert(((wb >> sh) & 0x1fu16) < 32) by (bit_vector);
        assert(l - 1 - k == n);
        assert(spec_encode(a)[k] == ALPHABET@[group_at(a, n) as int]);
        assert(spec_encode(b)[k] == ALPHABET@[group_at(b, n) as int]);
        lemma_alphabet_distinct(group_at(a, n) as int, group_at(b, n) as int);
    }
    assert forall|i: int| 0 <= i < a.len() implies a[i] == b[i] by {
        assert forall|t: u8| t < 8 implies #[trigger] ((a[i] >> t) & 1u8) == ((b[i] >> t) & 1u8) by {
            let m = 8 * i + t;
            assert(0 <= m / 5 < l) by (nonlinear_arith)
                requires
                    m == 8 * i + t,
                    0 <= i < a.len(),
                    t < 8,
                    l == (a.len() * 8 + 4) / 5,
            ;
            lemma_byte_bit_in_group(a, i, t);
            lemma_byte_bit_in_group(b, i, t);
            assert(group_at(a, m / 5) == group_at(b, m / 5));
        }
        lemma_bits_equal(a[i], b[i]);
    }
    assert(a =~= b);
}

} // verus!
