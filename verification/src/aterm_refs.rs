//! What the reference reader of [`crate::aterm`] finds in the ATerm that
//! [`Derivation::to_aterm_bytes`] writes: the third top-level list holds
//! exactly the input sources, the second the terms of the input
//! derivations.

use crate::aterm::{
    aterm_references, closes_to_zero, depth_after, derivation_refs, first_close_from, is_close,
    is_nth_top_open, is_open, lex, lex_step, list_contents, list_state, list_step, matching_bracket,
    nth_top_list_start, nth_top_open_from, top_opens_before, path_end_from, is_path_end, source_refs, split_commas,
    split_state, store_dir_from, store_path_in, string_list, unescape, ListState,
};
use crate::aterm_write::{esc, escaped, joined, quoted, quoted_array};
use crate::derivation::{
    derive_open, env_entry_term, input_drvs_term, list_term, output_term, path_bytes, paths_bytes,
    str_bytes, Derivation,
};
use crate::derivation::{drv_name, drv_path};
use crate::hashing::sha256_spec;
use crate::sorted::{lemma_sorted_unique, strictly_sorted};
use crate::nixbase32::{group_at, spec_encode, spec_encode_len, word_at};
use crate::store_path::{
    absolute_path, fingerprint_digest, references_string, store_dir_slash, text_ty, valid_name, valid_name_char,
};
use crate::text::has_prefix;
use vstd::prelude::*;

verus! {

/// The lexer state after the first `k` bytes of `t`, starting from `st`.
pub open spec fn lex_run(st: (bool, bool), t: Seq<u8>, k: int) -> (bool, bool)
    decreases k,
{
    if k <= 0 {
        st
    } else {
        lex_step(lex_run(st, t, k - 1), t[k - 1])
    }
}

/// Outside string literals `[` and `]` are brackets.
pub open spec fn is_bracket(c: u8) -> bool {
    c == 91 || c == 93
}

/// `t`, lexed from outside a string literal, ends outside one and has no
/// bracket outside string literals.
pub open spec fn plain(t: Seq<u8>) -> bool {
    &&& lex_run((false, false), t, t.len() as int) == (false, false)
    &&& forall|j: int| 0 <= j < t.len() ==> !(!lex_run((false, false), t, j).0 && #[trigger] is_bracket(t[j]))
}

/// Outside a string literal the escape flag is never set.
proof fn lemma_outside_clean(st: (bool, bool), t: Seq<u8>, k: int)
    requires
        st == (false, false) || st.0,
    ensures
        !lex_run(st, t, k).0 ==> lex_run(st, t, k) == (false, false),
    decreases k,
{
    if k > 0 {
        lemma_outside_clean(st, t, k - 1);
    }
}

/// Lexing `a + b` is lexing `a`, then `b` from where `a` left off.
proof fn lemma_lex_run_concat(st: (bool, bool), a: Seq<u8>, b: Seq<u8>, j: int)
    requires
        0 <= j <= b.len(),
    ensures
        lex_run(st, a + b, a.len() + j) == lex_run(lex_run(st, a, a.len() as int), b, j),
    decreases j,
{
    if j == 0 {
        lemma_lex_run_prefix(st, a, b, a.len() as int);
    } else {
        lemma_lex_run_concat(st, a, b, j - 1);
        assert((a + b)[a.len() + j - 1] == b[j - 1]);
    }
}

/// Lexing a prefix of `a + b` within `a` is lexing `a`.
proof fn lemma_lex_run_prefix(st: (bool, bool), a: Seq<u8>, b: Seq<u8>, k: int)
    requires
        0 <= k <= a.len(),
    ensures
        lex_run(st, a + b, k) == lex_run(st, a, k),
    decreases k,
{
    if k > 0 {
        lemma_lex_run_prefix(st, a, b, k - 1);
        assert((a + b)[k - 1] == a[k - 1]);
    }
}

/// Two plain pieces make a plain whole.
proof fn lemma_plain_concat(a: Seq<u8>, b: Seq<u8>)
    requires
        plain(a),
        plain(b),
    ensures
        plain(a + b),
{
    let ab = a + b;
    lemma_lex_run_concat((false, false), a, b, b.len() as int);
    assert forall|j: int| 0 <= j < ab.len() implies !(!lex_run((false, false), ab, j).0 && #[trigger] is_bracket(ab[j])) by {
        if j < a.len() {
            lemma_lex_run_prefix((false, false), a, b, j);
            assert(ab[j] == a[j]);
        } else {
            lemma_lex_run_concat((false, false), a, b, j - a.len());
            assert(ab[j] == b[j - a.len()]);
        }
    }
}

/// A byte that is neither a quote nor a bracket is plain.
proof fn lemma_plain_byte(c: u8)
    requires
        c != 34,
        !is_bracket(c),
    ensures
        plain(seq![c]),
{
    assert(seq![c][0] == c);
    assert(lex_run((false, false), seq![c], 0) == (false, false));
    assert(lex_run((false, false), seq![c], 1) == lex_step((false, false), c));
}

/// One escaped byte keeps the lexer inside the string literal.
proof fn lemma_esc_in_string(c: u8)
    ensures
        lex_run((true, false), esc(c), esc(c).len() as int) == (true, false),
        forall|j: int| 0 <= j <= esc(c).len() ==> (#[trigger] lex_run((true, false), esc(c), j)).0,
{
    let e = esc(c);
    assert(lex_run((true, false), e, 0) == (true, false));
    assert(e[0] == 92 ==> lex_run((true, false), e, 1) == (true, true));
    assert(e[0] != 92 ==> e.len() == 1 && e[0] != 34);
    assert(lex_run((true, false), e, 1).0);
    if e.len() == 2 {
        assert(lex_run((true, false), e, 2) == (true, false));
    }
}

/// Inside a string literal an escaped string stays inside it.
proof fn lemma_escaped_in_string(x: Seq<u8>)
    ensures
        lex_run((true, false), escaped(x), escaped(x).len() as int) == (true, false),
        forall|j: int| 0 <= j <= escaped(x).len() ==> (#[trigger] lex_run((true, false), escaped(x), j)).0,
    decreases x.len(),
{
    if x.len() > 0 {
        let p = escaped(x.drop_last());
        let e = esc(x.last());
        lemma_escaped_in_string(x.drop_last());
        assert(escaped(x) == p + e);
        lemma_esc_in_string(x.last());
        assert forall|j: int| 0 <= j <= e.len() implies (#[trigger] lex_run((true, false), p + e, p.len() + j)).0 && (j == e.len() ==> lex_run((true, false), p + e, p.len() + j) == (true, false)) by {
            lemma_lex_run_concat((true, false), p, e, j);
        }
        assert forall|j: int| 0 <= j <= escaped(x).len() implies (#[trigger] lex_run((true, false), escaped(x), j)).0 by {
            if j <= p.len() {
                lemma_lex_run_prefix((true, false), p, e, j);
            } else {
                assert(lex_run((true, false), p + e, p.len() + (j - p.len())).0);
            }
        }
        assert(lex_run((true, false), p + e, (p.len() + e.len()) as int) == (true, false));
    }
}

/// A quoted string is plain.
proof fn lemma_plain_quoted(x: Seq<u8>)
    ensures
        plain(quoted(x)),
{
    let q = quoted(x);
    let a = seq![34u8];
    let ex = escaped(x);
    lemma_escaped_in_string(x);
    assert(q == a + ex + seq![34u8]);
    assert(a[0] == 34);
    assert(lex_run((false, false), a, 0) == (false, false));
    assert(lex_run((false, false), a, 1) == (true, false));
    assert forall|j: int| 0 <= j <= ex.len() implies (#[trigger] lex_run((false, false), a + ex, 1 + j)).0 by {
        lemma_lex_run_concat((false, false), a, ex, j);
    }
    lemma_lex_run_concat((false, false), a + ex, seq![34u8], 1);
    assert(seq![34u8][0] == 34);
    assert(lex_run((true, false), seq![34u8], 0) == (true, false));
    assert(lex_run((true, false), seq![34u8], 1) == (false, false));
    assert(lex_run((false, false), a + ex, 1 + ex.len() as int) == (true, false)) by {
        lemma_lex_run_concat((false, false), a, ex, ex.len() as int);
    }
    assert forall|j: int| 0 <= j < q.len() implies !(!lex_run((false, false), q, j).0 && #[trigger] is_bracket(q[j])) by {
        if j == 0 {
            assert(q[0] == 34);
        } else if j < q.len() - 1 {
            lemma_lex_run_prefix((false, false), a + ex, seq![34u8], j);
            assert(lex_run((false, false), a + ex, 1 + (j - 1)).0);
        } else {
            assert(q[j] == 34);
        }
    }
    assert(lex_run((false, false), q, q.len() as int) == (false, false));
}

/// Plain parts joined by commas are plain.
proof fn lemma_plain_joined(parts: Seq<Seq<u8>>)
    requires
        forall|i: int| 0 <= i < parts.len() ==> plain(#[trigger] parts[i]),
    ensures
        plain(joined(parts)),
    decreases parts.len(),
{
    if parts.len() == 0 {
        assert(joined(parts) =~= Seq::<u8>::empty());
    } else if parts.len() == 1 {
        assert(plain(parts[0]));
    } else {
        let d = parts.drop_last();
        assert forall|i: int| 0 <= i < d.len() implies plain(#[trigger] d[i]) by {
            assert(d[i] == parts[i]);
        }
        lemma_plain_joined(d);
        lemma_plain_byte(44u8);
        lemma_plain_concat(joined(d), seq![44u8]);
        assert(plain(parts.last()));
        lemma_plain_concat(joined(d) + seq![44u8], parts.last());
    }
}

/// Bytes without quotes or brackets are plain, and never enter a string.
proof fn lemma_plain_no_specials(t: Seq<u8>)
    requires
        forall|i: int| 0 <= i < t.len() ==> #[trigger] t[i] != 34 && !is_bracket(t[i]),
    ensures
        plain(t),
        forall|j: int| 0 <= j <= t.len() ==> #[trigger] lex_run((false, false), t, j) == (false, false),
{
    assert forall|j: int| 0 <= j <= t.len() implies #[trigger] lex_run((false, false), t, j) == (false, false) by {
        lemma_no_specials_upto(t, j);
    }
}

proof fn lemma_no_specials_upto(t: Seq<u8>, j: int)
    requires
        0 <= j <= t.len(),
        forall|i: int| 0 <= i < t.len() ==> #[trigger] t[i] != 34 && !is_bracket(t[i]),
    ensures
        lex_run((false, false), t, j) == (false, false),
    decreases j,
{
    if j > 0 {
        lemma_no_specials_upto(t, j - 1);
        assert(t[j - 1] != 34);
    }
}

/// The lexer state of the whole text is a run from the start.
proof fn lemma_lex_is_run(s: Seq<u8>, k: int)
    ensures
        lex(s, k) == lex_run((false, false), s, k),
    decreases k,
{
    if k > 0 {
        lemma_lex_is_run(s, k - 1);
    }
}

/// Where `t` sits in `s` at `lo`, entered from outside any string literal,
/// lexing `s` through it is lexing `t` afresh.
proof fn lemma_segment_lex(s: Seq<u8>, lo: int, t: Seq<u8>, j: int)
    requires
        0 <= lo,
        0 <= j <= t.len(),
        lo + t.len() <= s.len(),
        s.subrange(lo, lo + t.len()) == t,
        lex(s, lo) == (false, false),
    ensures
        lex(s, lo + j) == lex_run((false, false), t, j),
    decreases j,
{
    if j > 0 {
        lemma_segment_lex(s, lo, t, j - 1);
        assert(s[lo + j - 1] == s.subrange(lo, lo + t.len())[j - 1]);
    }
}

/// Lexing `s` through a plain segment: no bracket counts inside it, the
/// count of opening brackets stays, and the lexer ends outside strings.
proof fn lemma_plain_segment(s: Seq<u8>, lo: int, t: Seq<u8>)
    requires
        0 <= lo,
        lo + t.len() <= s.len(),
        s.subrange(lo, lo + t.len()) == t,
        lex(s, lo) == (false, false),
        plain(t),
    ensures
        lex(s, lo + t.len()) == (false, false),
        top_opens_before(s, lo + t.len()) == top_opens_before(s, lo),
        depth_after(s, lo + t.len()) == depth_after(s, lo),
        forall|i: int| lo <= i < lo + t.len() ==> !#[trigger] is_open(s, i) && !is_close(s, i),
{
    assert forall|i: int| lo <= i < lo + t.len() implies !#[trigger] is_open(s, i) && !is_close(s, i) by {
        lemma_segment_lex(s, lo, t, i - lo);
        assert(s[i] == t[i - lo]);
        assert(!(!lex_run((false, false), t, i - lo).0 && is_bracket(t[i - lo])));
    }
    lemma_segment_lex(s, lo, t, t.len() as int);
    lemma_counts_unchanged(s, lo, lo + t.len());
}

proof fn lemma_counts_unchanged(s: Seq<u8>, lo: int, hi: int)
    requires
        0 <= lo <= hi,
        forall|i: int| lo <= i < hi ==> !#[trigger] is_open(s, i) && !is_close(s, i),
    ensures
        top_opens_before(s, hi) == top_opens_before(s, lo),
        depth_after(s, hi) == depth_after(s, lo),
    decreases hi - lo,
{
    if hi > lo {
        lemma_counts_unchanged(s, lo, hi - 1);
        assert(!is_open(s, hi - 1) && !is_close(s, hi - 1));
    }
}

/// One byte that is not a quote, lexed from outside strings.
proof fn lemma_byte_step(s: Seq<u8>, i: int)
    requires
        0 <= i < s.len(),
        lex(s, i) == (false, false),
        s[i] != 34,
    ensures
        lex(s, i + 1) == (false, false),
        is_open(s, i) == (s[i] == 91),
        is_close(s, i) == (s[i] == 93),
        top_opens_before(s, i + 1) == top_opens_before(s, i) + if s[i] == 91 && depth_after(s, i) == 0 {
            1nat
        } else {
            0nat
        },
        depth_after(s, i + 1) == depth_after(s, i) + if s[i] == 91 {
            1int
        } else if s[i] == 93 {
            -1int
        } else {
            0int
        },
{
}

/// The search for the `n`-th list finds `p` when nothing before it is one.
proof fn lemma_nth_found(s: Seq<u8>, n: nat, k: int, p: int)
    requires
        0 <= k <= p < s.len(),
        forall|i: int| k <= i < p ==> !#[trigger] is_nth_top_open(s, n, i),
        is_nth_top_open(s, n, p),
    ensures
        nth_top_open_from(s, n, k) == Some(p),
    decreases p - k,
{
    if k < p {
        lemma_nth_found(s, n, k + 1, p);
    }
}

/// The search for the closing bracket finds `p` when nothing before it
/// closes back to depth 0.
proof fn lemma_close_found(t: Seq<u8>, k: int, p: int)
    requires
        0 <= k <= p < t.len(),
        forall|i: int| k <= i < p ==> !#[trigger] closes_to_zero(t, i),
        closes_to_zero(t, p),
    ensures
        first_close_from(t, k) == Some(p),
    decreases p - k,
{
    if k < p {
        lemma_close_found(t, k + 1, p);
    }
}

/// The bracket depth after the first `j` bytes of `t`, lexed afresh.
pub open spec fn drun(t: Seq<u8>, j: int) -> int
    decreases j,
{
    if j <= 0 {
        0
    } else {
        drun(t, j - 1) + if !lex_run((false, false), t, j - 1).0 && t[j - 1] == 91 {
            1int
        } else if !lex_run((false, false), t, j - 1).0 && t[j - 1] == 93 {
            -1int
        } else {
            0int
        }
    }
}

/// `t`, lexed from outside string literals, ends outside them, with every
/// list it opens closed and none closed that it did not open.
pub open spec fn nested(t: Seq<u8>) -> bool {
    &&& lex_run((false, false), t, t.len() as int) == (false, false)
    &&& drun(t, t.len() as int) == 0
    &&& forall|j: int| 0 <= j <= t.len() ==> #[trigger] drun(t, j) >= 0
}

proof fn lemma_plain_drun(t: Seq<u8>, j: int)
    requires
        plain(t),
        0 <= j <= t.len(),
    ensures
        drun(t, j) == 0,
    decreases j,
{
    if j > 0 {
        lemma_plain_drun(t, j - 1);
        assert(!(!lex_run((false, false), t, j - 1).0 && is_bracket(t[j - 1])));
    }
}

/// A plain run is nested.
proof fn lemma_plain_nested(t: Seq<u8>)
    requires
        plain(t),
    ensures
        nested(t),
{
    assert forall|j: int| 0 <= j <= t.len() implies #[trigger] drun(t, j) >= 0 by {
        lemma_plain_drun(t, j);
    }
    lemma_plain_drun(t, t.len() as int);
}

proof fn lemma_drun_prefix(a: Seq<u8>, b: Seq<u8>, j: int)
    requires
        0 <= j <= a.len(),
    ensures
        drun(a + b, j) == drun(a, j),
    decreases j,
{
    if j > 0 {
        lemma_drun_prefix(a, b, j - 1);
        lemma_lex_run_prefix((false, false), a, b, j - 1);
        assert((a + b)[j - 1] == a[j - 1]);
    }
}

/// After a piece that ends outside strings, depth runs on from where it was.
proof fn lemma_drun_concat(a: Seq<u8>, b: Seq<u8>, j: int)
    requires
        lex_run((false, false), a, a.len() as int) == (false, false),
        0 <= j <= b.len(),
    ensures
        drun(a + b, a.len() + j) == drun(a, a.len() as int) + drun(b, j),
    decreases j,
{
    if j == 0 {
        lemma_drun_prefix(a, b, a.len() as int);
    } else {
        lemma_drun_concat(a, b, j - 1);
        lemma_lex_run_concat((false, false), a, b, j - 1);
        assert((a + b)[a.len() + j - 1] == b[j - 1]);
    }
}

/// Two nested pieces make a nested whole.
proof fn lemma_nested_concat(a: Seq<u8>, b: Seq<u8>)
    requires
        nested(a),
        nested(b),
    ensures
        nested(a + b),
{
    let ab = a + b;
    lemma_lex_run_concat((false, false), a, b, b.len() as int);
    lemma_drun_concat(a, b, b.len() as int);
    assert forall|j: int| 0 <= j <= ab.len() implies #[trigger] drun(ab, j) >= 0 by {
        if j <= a.len() {
            lemma_drun_prefix(a, b, j);
        } else {
            lemma_drun_concat(a, b, j - a.len());
            assert(drun(b, j - a.len()) >= 0);
        }
    }
}

/// A nested run in brackets is nested, and inside the brackets the depth
/// is at least 1.
proof fn lemma_nested_bracketed(m: Seq<u8>)
    requires
        nested(m),
    ensures
        nested(seq![91u8] + m + seq![93u8]),
        forall|j: int| 1 <= j <= m.len() + 1 ==> #[trigger] drun(seq![91u8] + m + seq![93u8], j) >= 1,
{
    let o = seq![91u8];
    let c = seq![93u8];
    let om = o + m;
    assert(o[0] == 91);
    assert(lex_run((false, false), o, 0) == (false, false));
    assert(lex_run((false, false), o, 1) == (false, false));
    assert(drun(o, 0) == 0);
    assert(drun(o, 1) == 1);
    lemma_lex_run_concat((false, false), o, m, m.len() as int);
    lemma_drun_concat(o, m, m.len() as int);
    assert(c[0] == 93);
    assert(lex_run((false, false), c, 0) == (false, false));
    assert(lex_run((false, false), c, 1) == (false, false));
    assert(drun(c, 0) == 0);
    assert(drun(c, 1) == -1);
    lemma_lex_run_concat((false, false), om, c, 1);
    lemma_drun_concat(om, c, 1);
    let all = om + c;
    assert forall|j: int| 1 <= j <= m.len() + 1 implies #[trigger] drun(all, j) >= 1 by {
        lemma_drun_prefix(om, c, j);
        lemma_drun_concat(o, m, j - 1);
        assert(drun(m, j - 1) >= 0);
    }
    assert forall|j: int| 0 <= j <= all.len() implies #[trigger] drun(all, j) >= 0 by {
        if j == 0 {
        } else if j <= m.len() + 1 {
            assert(drun(all, j) >= 1);
        }
    }
}

/// Nested parts joined by commas are nested.
proof fn lemma_nested_joined(parts: Seq<Seq<u8>>)
    requires
        forall|i: int| 0 <= i < parts.len() ==> nested(#[trigger] parts[i]),
    ensures
        nested(joined(parts)),
    decreases parts.len(),
{
    if parts.len() == 0 {
        assert(joined(parts) =~= Seq::<u8>::empty());
        lemma_plain_no_specials(Seq::<u8>::empty());
        lemma_plain_nested(Seq::<u8>::empty());
    } else if parts.len() == 1 {
        assert(nested(parts[0]));
    } else {
        let d = parts.drop_last();
        assert forall|i: int| 0 <= i < d.len() implies nested(#[trigger] d[i]) by {
            assert(d[i] == parts[i]);
        }
        lemma_nested_joined(d);
        lemma_plain_byte(44u8);
        lemma_plain_nested(seq![44u8]);
        lemma_nested_concat(joined(d), seq![44u8]);
        assert(nested(parts.last()));
        lemma_nested_concat(joined(d) + seq![44u8], parts.last());
    }
}

/// Where `t` sits in `s` at `lo`, entered from outside any string literal,
/// the depth of `s` through it is the depth at `lo` plus the depth of `t`.
proof fn lemma_segment_depth(s: Seq<u8>, lo: int, t: Seq<u8>, j: int)
    requires
        0 <= lo,
        0 <= j <= t.len(),
        lo + t.len() <= s.len(),
        s.subrange(lo, lo + t.len()) == t,
        lex(s, lo) == (false, false),
    ensures
        depth_after(s, lo + j) == depth_after(s, lo) + drun(t, j),
    decreases j,
{
    if j > 0 {
        lemma_segment_depth(s, lo, t, j - 1);
        lemma_segment_lex(s, lo, t, j - 1);
        assert(s[lo + j - 1] == t[j - 1]);
    }
}

/// Lexing `s` through a nested segment entered at depth at least 1: the
/// lexer ends outside strings at the same depth, no top-level list opens in
/// it, and the depth never falls below where it started.
proof fn lemma_nested_segment(s: Seq<u8>, lo: int, t: Seq<u8>)
    requires
        0 <= lo,
        lo + t.len() <= s.len(),
        s.subrange(lo, lo + t.len()) == t,
        lex(s, lo) == (false, false),
        nested(t),
        depth_after(s, lo) >= 1,
    ensures
        lex(s, lo + t.len()) == (false, false),
        depth_after(s, lo + t.len()) == depth_after(s, lo),
        top_opens_before(s, lo + t.len()) == top_opens_before(s, lo),
        forall|i: int| lo <= i <= lo + t.len() ==> #[trigger] depth_after(s, i) >= depth_after(s, lo),
{
    assert forall|i: int| lo <= i <= lo + t.len() implies #[trigger] depth_after(s, i) >= depth_after(s, lo) by {
        lemma_segment_depth(s, lo, t, i - lo);
        assert(drun(t, i - lo) >= 0);
    }
    lemma_segment_lex(s, lo, t, t.len() as int);
    lemma_segment_depth(s, lo, t, t.len() as int);
    lemma_no_top_opens(s, lo, lo + t.len() as int);
}

proof fn lemma_no_top_opens(s: Seq<u8>, lo: int, hi: int)
    requires
        0 <= lo <= hi,
        forall|i: int| lo <= i <= hi ==> #[trigger] depth_after(s, i) >= 1,
    ensures
        top_opens_before(s, hi) == top_opens_before(s, lo),
    decreases hi - lo,
{
    if hi > lo {
        lemma_no_top_opens(s, lo, hi - 1);
        assert(depth_after(s, hi - 1) >= 1);
    }
}

/// The string-list reader after the first `k` bytes of `t`, from `st`.
pub open spec fn list_run(st: ListState, t: Seq<u8>, k: int) -> ListState
    decreases k,
{
    if k <= 0 {
        st
    } else {
        list_step(list_run(st, t, k - 1), t[k - 1])
    }
}

proof fn lemma_list_is_run(s: Seq<u8>, k: int)
    ensures
        list_state(s, k) == list_run((Seq::empty(), Seq::empty(), false, false), s, k),
    decreases k,
{
    if k > 0 {
        lemma_list_is_run(s, k - 1);
    }
}

proof fn lemma_list_run_prefix(st: ListState, a: Seq<u8>, b: Seq<u8>, k: int)
    requires
        0 <= k <= a.len(),
    ensures
        list_run(st, a + b, k) == list_run(st, a, k),
    decreases k,
{
    if k > 0 {
        lemma_list_run_prefix(st, a, b, k - 1);
        assert((a + b)[k - 1] == a[k - 1]);
    }
}

/// Reading `a + b` is reading `a`, then `b` from where `a` left off.
proof fn lemma_list_run_concat(st: ListState, a: Seq<u8>, b: Seq<u8>, j: int)
    requires
        0 <= j <= b.len(),
    ensures
        list_run(st, a + b, a.len() + j) == list_run(list_run(st, a, a.len() as int), b, j),
    decreases j,
{
    if j == 0 {
        lemma_list_run_prefix(st, a, b, a.len() as int);
    } else {
        lemma_list_run_concat(st, a, b, j - 1);
        assert((a + b)[a.len() + j - 1] == b[j - 1]);
    }
}

/// Unescaping undoes escaping, one byte at a time.
proof fn lemma_read_esc(done: Seq<Seq<u8>>, cur: Seq<u8>, c: u8)
    ensures
        list_run((done, cur, true, false), esc(c), esc(c).len() as int) == (done, cur.push(c), true, false),
{
    let e = esc(c);
    assert(list_run((done, cur, true, false), e, 0) == (done, cur, true, false));
    if e.len() == 2 {
        assert(e[0] == 92);
        assert(list_run((done, cur, true, false), e, 1) == (done, cur, true, true));
        assert(unescape(e[1]) == c);
    } else {
        assert(e[0] == c);
    }
}

/// Reading an escaped string inside a literal appends it.
proof fn lemma_read_escaped(done: Seq<Seq<u8>>, cur: Seq<u8>, x: Seq<u8>)
    ensures
        list_run((done, cur, true, false), escaped(x), escaped(x).len() as int) == (done, cur + x, true, false),
    decreases x.len(),
{
    if x.len() == 0 {
        assert(cur + x =~= cur);
    } else {
        let p = escaped(x.drop_last());
        let e = esc(x.last());
        lemma_read_escaped(done, cur, x.drop_last());
        lemma_list_run_concat((done, cur, true, false), p, e, e.len() as int);
        lemma_read_esc(done, cur + x.drop_last(), x.last());
        assert((cur + x.drop_last()).push(x.last()) =~= cur + x);
    }
}

/// Reading a quoted string adds it to the strings read.
proof fn lemma_read_quoted(done: Seq<Seq<u8>>, x: Seq<u8>)
    ensures
        list_run((done, Seq::empty(), false, false), quoted(x), quoted(x).len() as int) == (
            done.push(x),
            Seq::<u8>::empty(),
            false,
            false,
        ),
{
    let a = seq![34u8];
    let ex = escaped(x);
    let st0: ListState = (done, Seq::empty(), false, false);
    assert(quoted(x) == a + ex + seq![34u8]);
    assert(a[0] == 34);
    assert(list_run(st0, a, 0) == st0);
    assert(list_run(st0, a, 1) == (done, Seq::<u8>::empty(), true, false));
    lemma_list_run_concat(st0, a, ex, ex.len() as int);
    lemma_read_escaped(done, Seq::empty(), x);
    assert(Seq::<u8>::empty() + x =~= x);
    lemma_list_run_concat(st0, a + ex, seq![34u8], 1);
    assert(seq![34u8][0] == 34);
    let st1: ListState = (done, x, true, false);
    assert(list_run(st1, seq![34u8], 0) == st1);
    assert(list_run(st1, seq![34u8], 1) == (done.push(x), Seq::<u8>::empty(), false, false));
}

/// Reading quoted strings joined by commas adds them all, in order.
proof fn lemma_read_quoted_list(done: Seq<Seq<u8>>, xs: Seq<Seq<u8>>)
    ensures
        list_run(
            (done, Seq::empty(), false, false),
            joined(xs.map_values(|s: Seq<u8>| quoted(s))),
            joined(xs.map_values(|s: Seq<u8>| quoted(s))).len() as int,
        ) == (done + xs, Seq::<u8>::empty(), false, false),
    decreases xs.len(),
{
    let parts = xs.map_values(|s: Seq<u8>| quoted(s));
    if xs.len() == 0 {
        assert(joined(parts) =~= Seq::<u8>::empty());
        assert(done + xs =~= done);
    } else if xs.len() == 1 {
        assert(joined(parts) == quoted(xs[0]));
        lemma_read_quoted(done, xs[0]);
        assert(done.push(xs[0]) =~= done + xs);
    } else {
        let d = xs.drop_last();
        assert(parts.drop_last() =~= d.map_values(|s: Seq<u8>| quoted(s)));
        lemma_read_quoted_list(done, d);
        let jd = joined(parts.drop_last());
        let st0: ListState = (done, Seq::empty(), false, false);
        let st1: ListState = (done + d, Seq::empty(), false, false);
        assert(joined(parts) == jd + seq![44u8] + quoted(xs.last()));
        lemma_list_run_concat(st0, jd, seq![44u8], 1);
        assert(seq![44u8][0] == 44);
        assert(list_run(st1, seq![44u8], 0) == st1);
        assert(list_run(st1, seq![44u8], 1) == st1);
        lemma_list_run_concat(st0, jd + seq![44u8], quoted(xs.last()), quoted(xs.last()).len() as int);
        lemma_read_quoted(done + d, xs.last());
        assert((done + d).push(xs.last()) =~= done + xs);
    }
}

/// The string literals of a quoted list are its strings.
pub proof fn lemma_string_list_of_quoted(xs: Seq<Seq<u8>>)
    ensures
        string_list(joined(xs.map_values(|s: Seq<u8>| quoted(s)))) == xs,
{
    let j = joined(xs.map_values(|s: Seq<u8>| quoted(s)));
    lemma_list_is_run(j, j.len() as int);
    lemma_read_quoted_list(Seq::empty(), xs);
    assert(Seq::<Seq<u8>>::empty() + xs =~= xs);
}

/// One output of a derivation's ATerm is plain.
proof fn lemma_plain_output_term(name: Seq<u8>, o: crate::derivation::Output)
    ensures
        plain(output_term(name, o)),
{
    let open = seq![40u8];
    let comma = seq![44u8];
    let close = seq![41u8];
    lemma_plain_byte(40u8);
    lemma_plain_byte(44u8);
    lemma_plain_byte(41u8);
    lemma_plain_quoted(name);
    lemma_plain_quoted(crate::derivation::output_path_bytes(o));
    lemma_plain_quoted(crate::derivation::output_algo_bytes(o));
    lemma_plain_quoted(crate::derivation::output_digest_bytes(o));
    let a1 = open + quoted(name);
    lemma_plain_concat(open, quoted(name));
    lemma_plain_concat(a1, comma);
    let a2 = a1 + comma + quoted(crate::derivation::output_path_bytes(o));
    lemma_plain_concat(a1 + comma, quoted(crate::derivation::output_path_bytes(o)));
    lemma_plain_concat(a2, comma);
    let a3 = a2 + comma + quoted(crate::derivation::output_algo_bytes(o));
    lemma_plain_concat(a2 + comma, quoted(crate::derivation::output_algo_bytes(o)));
    lemma_plain_concat(a3, comma);
    let a4 = a3 + comma + quoted(crate::derivation::output_digest_bytes(o));
    lemma_plain_concat(a3 + comma, quoted(crate::derivation::output_digest_bytes(o)));
    lemma_plain_concat(a4, close);
    assert(output_term(name, o) == a4 + close);
}

/// What lies between the brackets of the list of outputs is plain.
proof fn lemma_plain_outputs(d: Derivation)
    ensures
        plain(
            joined(
                Seq::new(d.outputs@.len(), |i: int| output_term(str_bytes(d.outputs@[i].0), d.outputs@[i].1)),
            ),
        ),
{
    let parts = Seq::new(d.outputs@.len(), |i: int| output_term(str_bytes(d.outputs@[i].0), d.outputs@[i].1));
    assert forall|i: int| 0 <= i < parts.len() implies plain(#[trigger] parts[i]) by {
        lemma_plain_output_term(str_bytes(d.outputs@[i].0), d.outputs@[i].1);
    }
    lemma_plain_joined(parts);
}

/// The ATerm after the list of input sources.
spec fn aterm_tail(d: Derivation) -> Seq<u8> {
    seq![44u8] + quoted(str_bytes(d.system)) + seq![44u8] + quoted(str_bytes(d.builder)) + seq![44u8]
        + quoted_array(crate::derivation::strs_bytes(d.arguments@)) + seq![44u8] + d.environment_term()
        + seq![41u8]
}

/// The ATerm up to the end of the list of input sources, with `drvs` as
/// the list of input derivations.
spec fn aterm_head(d: Derivation, drvs: Seq<u8>) -> Seq<u8> {
    derive_open() + d.outputs_term() + seq![44u8] + drvs + seq![44u8] + quoted_array(d.input_source_paths())
}

proof fn lemma_aterm_split(d: Derivation, drvs: Seq<u8>)
    ensures
        d.aterm_with(drvs) == aterm_head(d, drvs) + aterm_tail(d),
{
    assert(d.aterm_with(drvs) =~= aterm_head(d, drvs) + aterm_tail(d));
}

/// Every input source path starts with the store directory.
proof fn lemma_sources_in_store(d: Derivation)
    ensures
        forall|i: int|
            0 <= i < d.input_source_paths().len() ==> has_prefix(
                #[trigger] d.input_source_paths()[i],
                store_dir_slash(),
            ),
{
    assert forall|i: int| 0 <= i < d.input_source_paths().len() implies has_prefix(
        #[trigger] d.input_source_paths()[i],
        store_dir_slash(),
    ) by {
        let p = d.input_sources@[i];
        assert(d.input_source_paths()[i] == path_bytes(p));
        assert(path_bytes(p).take(11) =~= store_dir_slash());
    }
}

/// The sources read from a third list that quotes store paths are those
/// paths.
proof fn lemma_source_refs_of(s: Seq<u8>, srcs: Seq<Seq<u8>>)
    requires
        list_contents(s, 3) == Some(joined(srcs.map_values(|x: Seq<u8>| quoted(x)))),
        forall|i: int| 0 <= i < srcs.len() ==> has_prefix(#[trigger] srcs[i], store_dir_slash()),
    ensures
        source_refs(s) == srcs.to_set(),
{
    lemma_string_list_of_quoted(srcs);
    assert forall|x: Seq<u8>| #[trigger] source_refs(s).contains(x) <==> srcs.to_set().contains(x) by {
        if srcs.contains(x) {
            let k = choose|k: int| 0 <= k < srcs.len() && srcs[k] == x;
            assert(has_prefix(srcs[k], store_dir_slash()));
        }
    }
    assert(source_refs(s) =~= srcs.to_set());
}

/// A `[`, a nested run and a `]` at `p`: the bracket at `p` is closed by
/// the one after the run.
proof fn lemma_nested_bracketed_close(s: Seq<u8>, p: int, m: Seq<u8>)
    requires
        0 <= p,
        p + 1 + m.len() < s.len(),
        s[p] == 91,
        s.subrange(p + 1, p + 1 + m.len()) == m,
        s[p + 1 + m.len()] == 93,
        nested(m),
    ensures
        matching_bracket(s, p) == Some(p + 1 + m.len()),
{
    let t = s.skip(p);
    let lm = m.len() as int;
    assert(t[0] == 91);
    assert(t[1 + lm] == 93);
    assert(lex(t, 0) == (false, false));
    lemma_byte_step(t, 0);
    assert(depth_after(t, 0) == 0);
    assert(t.subrange(1, 1 + lm) =~= m);
    lemma_nested_segment(t, 1, m);
    lemma_byte_step(t, 1 + lm);
    assert(closes_to_zero(t, 1 + lm));
    assert forall|i: int| 0 <= i < 1 + lm implies !#[trigger] closes_to_zero(t, i) by {
        if i > 0 {
            assert(depth_after(t, i + 1) >= 1);
        }
    }
    lemma_close_found(t, 0, 1 + lm);
}

/// One input derivation of the ATerm is nested.
proof fn lemma_nested_input_drv(key: Seq<u8>, names: Seq<Seq<u8>>)
    ensures
        nested(crate::derivation::input_drv_term(key, names)),
{
    let qn = names.map_values(|x: Seq<u8>| quoted(x));
    assert forall|i: int| 0 <= i < qn.len() implies plain(#[trigger] qn[i]) by {
        lemma_plain_quoted(names[i]);
    }
    lemma_plain_joined(qn);
    lemma_plain_nested(joined(qn));
    lemma_nested_bracketed(joined(qn));
    assert(quoted_array(names) == seq![91u8] + joined(qn) + seq![93u8]);
    lemma_plain_byte(40u8);
    lemma_plain_byte(44u8);
    lemma_plain_byte(41u8);
    lemma_plain_quoted(key);
    lemma_plain_concat(seq![40u8], quoted(key));
    lemma_plain_concat(seq![40u8] + quoted(key), seq![44u8]);
    let a = seq![40u8] + quoted(key) + seq![44u8];
    lemma_plain_nested(a);
    lemma_nested_concat(a, quoted_array(names));
    lemma_plain_nested(seq![41u8]);
    lemma_nested_concat(a + quoted_array(names), seq![41u8]);
}

/// What lies between the brackets of the list of input derivations is
/// nested.
proof fn lemma_nested_input_drvs(keys: Seq<Seq<u8>>, names: Seq<Seq<Seq<u8>>>)
    ensures
        nested(joined(Seq::new(keys.len(), |i: int| crate::derivation::input_drv_term(keys[i], names[i])))),
{
    let parts = Seq::new(keys.len(), |i: int| crate::derivation::input_drv_term(keys[i], names[i]));
    assert forall|i: int| 0 <= i < parts.len() implies nested(#[trigger] parts[i]) by {
        lemma_nested_input_drv(keys[i], names[i]);
    }
    lemma_nested_joined(parts);
}

/// `Derive(`, a bracketed plain run, `,`, a bracketed nested run, `,` and
/// a `[`: the second top-level list starts at the nested run's bracket, the
/// third at the last `[`.
proof fn lemma_prefix_lists_nested(s: Seq<u8>, jo: Seq<u8>, ji: Seq<u8>)
    requires
        17 + jo.len() + ji.len() <= s.len(),
        forall|i: int| 0 <= i < 7 ==> #[trigger] s[i] != 34 && !is_bracket(s[i]),
        s[7] == 91,
        s.subrange(8, 8 + jo.len() as int) == jo,
        plain(jo),
        s[8 + jo.len() as int] == 93,
        s[9 + jo.len() as int] == 44,
        s[10 + jo.len() as int] == 91,
        s.subrange(11 + jo.len() as int, 11 + jo.len() + ji.len() as int) == ji,
        nested(ji),
        s[11 + jo.len() + ji.len() as int] == 93,
        s[12 + jo.len() + ji.len() as int] == 44,
        s[13 + jo.len() + ji.len() as int] == 91,
    ensures
        nth_top_list_start(s, 2) == Some(10 + jo.len() as int),
        nth_top_list_start(s, 3) == Some(13 + jo.len() + ji.len() as int),
{
    let lj = jo.len() as int;
    let li = ji.len() as int;
    let p2 = 10 + lj;
    let p3 = 13 + lj + li;
    let dd = s.subrange(0, 7);
    assert forall|i: int| 0 <= i < dd.len() implies #[trigger] dd[i] != 34 && !is_bracket(dd[i]) by {
        assert(dd[i] == s[i]);
    }
    lemma_plain_no_specials(dd);
    assert(lex(s, 0) == (false, false));
    assert(depth_after(s, 0) == 0);
    lemma_plain_segment(s, 0, dd);
    lemma_byte_step(s, 7);
    lemma_plain_segment(s, 8, jo);
    lemma_byte_step(s, 8 + lj);
    lemma_byte_step(s, 9 + lj);
    lemma_byte_step(s, p2);
    lemma_nested_segment(s, p2 + 1, ji);
    lemma_byte_step(s, p2 + 1 + li);
    lemma_byte_step(s, p2 + 2 + li);
    lemma_byte_step(s, p3);
    assert(top_opens_before(s, 0) == 0);
    assert forall|i: int| 0 <= i < p2 implies !#[trigger] is_nth_top_open(s, 2, i) by {
        if i < 7 || (8 <= i < 8 + lj) {
            assert(!is_open(s, i));
        }
    }
    lemma_nth_found(s, 2, 0, p2);
    assert forall|i: int| 0 <= i < p3 implies !#[trigger] is_nth_top_open(s, 3, i) by {
        if i < 7 || (8 <= i < 8 + lj) {
            assert(!is_open(s, i));
        } else if p2 < i <= p2 + li {
            assert(depth_after(s, i) >= 1);
        }
    }
    lemma_nth_found(s, 3, 0, p3);
}

/// The layout of the ATerm of any derivation, up to the end of its list of
/// input sources.
#[verifier::rlimit(40)]
proof fn lemma_aterm_layout_nested(d: Derivation, jo: Seq<u8>, ji: Seq<u8>, jq: Seq<u8>)
    requires
        jo == joined(
            Seq::new(d.outputs@.len(), |i: int| output_term(str_bytes(d.outputs@[i].0), d.outputs@[i].1)),
        ),
        ji == joined(
            Seq::new(
                d.input_derivation_paths().len(),
                |i: int| crate::derivation::input_drv_term(d.input_derivation_paths()[i], d.input_derivation_outputs()[i]),
            ),
        ),
        jq == joined(d.input_source_paths().map_values(|x: Seq<u8>| quoted(x))),
    ensures
        ({
            let s = d.aterm();
            let lj = jo.len() as int;
            let li = ji.len() as int;
            let lq = jq.len() as int;
            &&& 17 + lj + li + lq < s.len()
            &&& forall|i: int| 0 <= i < 7 ==> #[trigger] s[i] != 34 && !is_bracket(s[i])
            &&& s[7] == 91
            &&& s.subrange(8, 8 + lj) == jo
            &&& s[8 + lj] == 93
            &&& s[9 + lj] == 44
            &&& s[10 + lj] == 91
            &&& s.subrange(11 + lj, 11 + lj + li) == ji
            &&& s[11 + lj + li] == 93
            &&& s[12 + lj + li] == 44
            &&& s[13 + lj + li] == 91
            &&& s.subrange(14 + lj + li, 14 + lj + li + lq) == jq
            &&& s[14 + lj + li + lq] == 93
        }),
{
    let e = seq![91u8] + ji + seq![93u8];
    assert(input_drvs_term(d.input_derivation_paths(), d.input_derivation_outputs()) == e);
    lemma_aterm_split(d, e);
    let s = d.aterm();
    let dd = derive_open();
    let o = seq![91u8] + jo + seq![93u8];
    let q = seq![91u8] + jq + seq![93u8];
    let c = seq![44u8];
    let h = dd + o + c + e + c + q;
    assert(d.outputs_term() == o);
    assert(quoted_array(d.input_source_paths()) == q);
    assert(aterm_head(d, e) == h);
    let tl = aterm_tail(d);
    assert(s == h + tl);
    let lj = jo.len() as int;
    let li = ji.len() as int;
    let lq = jq.len() as int;
    assert(h.len() == 15 + lj + li + lq);
    assert(quoted(str_bytes(d.system)).len() >= 2);
    assert(tl.len() >= 3);
    assert forall|i: int| 0 <= i < h.len() implies s[i] == #[trigger] h[i] by {}
    assert forall|i: int| 0 <= i < 7 implies #[trigger] s[i] != 34 && !is_bracket(s[i]) by {
        assert(s[i] == h[i]);
        assert(h[i] == dd[i]);
    }
    assert(s[7] == h[7]);
    assert(s[8 + lj] == h[8 + lj]);
    assert(s[9 + lj] == h[9 + lj]);
    assert(s[10 + lj] == h[10 + lj]);
    assert(s[11 + lj + li] == h[11 + lj + li]);
    assert(s[12 + lj + li] == h[12 + lj + li]);
    assert(s[13 + lj + li] == h[13 + lj + li]);
    assert(s[14 + lj + li + lq] == h[14 + lj + li + lq]);
    assert(s.subrange(8, 8 + lj) =~= jo) by {
        assert forall|i: int| 0 <= i < lj implies s.subrange(8, 8 + lj)[i] == jo[i] by {
            assert(s[8 + i] == h[8 + i]);
        }
    }
    assert(s.subrange(11 + lj, 11 + lj + li) =~= ji) by {
        assert forall|i: int| 0 <= i < li implies s.subrange(11 + lj, 11 + lj + li)[i] == ji[i] by {
            assert(s[11 + lj + i] == h[11 + lj + i]);
        }
    }
    assert(s.subrange(14 + lj + li, 14 + lj + li + lq) =~= jq) by {
        assert forall|i: int| 0 <= i < lq implies s.subrange(14 + lj + li, 14 + lj + li + lq)[i] == jq[i] by {
            assert(s[14 + lj + li + i] == h[14 + lj + li + i]);
        }
    }
}

/// The input sources read from the ATerm of any derivation are its input
/// sources, and the second list read is its list of input derivations.
#[verifier::rlimit(60)]
pub proof fn lemma_aterm_source_refs(d: Derivation)
    ensures
        source_refs(d.aterm()) == d.input_source_paths().to_set(),
        list_contents(d.aterm(), 2) == Some(
            joined(
                Seq::new(
                    d.input_derivation_paths().len(),
                    |i: int| crate::derivation::input_drv_term(d.input_derivation_paths()[i], d.input_derivation_outputs()[i]),
                ),
            ),
        ),
{
    let s = d.aterm();
    let jo = joined(
        Seq::new(d.outputs@.len(), |i: int| output_term(str_bytes(d.outputs@[i].0), d.outputs@[i].1)),
    );
    let ji = joined(
        Seq::new(
            d.input_derivation_paths().len(),
            |i: int| crate::derivation::input_drv_term(d.input_derivation_paths()[i], d.input_derivation_outputs()[i]),
        ),
    );
    let srcs = d.input_source_paths();
    let qparts = srcs.map_values(|x: Seq<u8>| quoted(x));
    let jq = joined(qparts);
    let lj = jo.len() as int;
    let li = ji.len() as int;
    lemma_aterm_layout_nested(d, jo, ji, jq);
    lemma_plain_outputs(d);
    lemma_nested_input_drvs(d.input_derivation_paths(), d.input_derivation_outputs());
    assert forall|i: int| 0 <= i < qparts.len() implies plain(#[trigger] qparts[i]) by {
        lemma_plain_quoted(srcs[i]);
    }
    lemma_plain_joined(qparts);
    lemma_plain_nested(jq);
    lemma_prefix_lists_nested(s, jo, ji);
    lemma_nested_bracketed_close(s, 10 + lj, ji);
    lemma_nested_bracketed_close(s, 13 + lj + li, jq);
    lemma_sources_in_store(d);
    lemma_source_refs_of(s, srcs);
}

/// `t` holds `/nix/store/` nowhere.
pub open spec fn no_store_dir(t: Seq<u8>) -> bool {
    forall|k: int| 0 <= k < t.len() ==> !#[trigger] has_prefix(t.skip(k), store_dir_slash())
}

/// A byte that is none of the characters of `/nix/store/`.
pub open spec fn off_store_dir(c: u8) -> bool {
    &&& c != 47
    &&& c != 110
    &&& c != 105
    &&& c != 120
    &&& c != 115
    &&& c != 116
    &&& c != 111
    &&& c != 114
    &&& c != 101
}

/// The bytes that escaping changes or that end a store path in a piece:
/// tab, newline, carriage return, `"`, `)`, `,` and `\`.
pub open spec fn is_special(c: u8) -> bool {
    c == 9 || c == 10 || c == 13 || c == 34 || c == 41 || c == 44 || c == 92
}

/// No byte of `t` is special.
pub open spec fn bare(t: Seq<u8>) -> bool {
    forall|i: int| 0 <= i < t.len() ==> !#[trigger] is_special(t[i])
}

/// The store paths found in the comma-separated pieces of `t`.
pub open spec fn piece_paths(t: Seq<u8>) -> Set<Seq<u8>> {
    Set::new(
        |p: Seq<u8>|
            exists|i: int| 0 <= i < split_commas(t).len() && store_path_in(#[trigger] split_commas(t)[i]) == Some(p),
    )
}

proof fn lemma_no_store_dir_from(t: Seq<u8>, k: int)
    requires
        no_store_dir(t),
        0 <= k,
    ensures
        store_dir_from(t, k) is None,
    decreases t.len() - k,
{
    if k < t.len() {
        assert(!has_prefix(t.skip(k), store_dir_slash()));
        lemma_no_store_dir_from(t, k + 1);
    }
}

proof fn lemma_no_store_dir_short(t: Seq<u8>)
    requires
        t.len() < 11,
    ensures
        no_store_dir(t),
{
}

proof fn lemma_no_store_dir_sub(t: Seq<u8>, a: int, b: int)
    requires
        no_store_dir(t),
        0 <= a <= b <= t.len(),
    ensures
        no_store_dir(t.subrange(a, b)),
{
    let u = t.subrange(a, b);
    assert forall|k: int| 0 <= k < u.len() implies !#[trigger] has_prefix(u.skip(k), store_dir_slash()) by {
        if has_prefix(u.skip(k), store_dir_slash()) {
            assert(u.skip(k).take(11) =~= t.skip(a + k).take(11));
            assert(has_prefix(t.skip(a + k), store_dir_slash()));
        }
    }
}

/// No character of `/nix/store/` is off it.
proof fn lemma_store_dir_chars()
    ensures
        forall|j: int| 0 <= j < 11 ==> !off_store_dir(#[trigger] store_dir_slash()[j]),
{
    let pat = store_dir_slash();
    assert forall|j: int| 0 <= j < 11 implies !off_store_dir(#[trigger] pat[j]) by {
        assert(pat[0] == 47 && pat[1] == 110 && pat[2] == 105 && pat[3] == 120 && pat[4] == 47);
        assert(pat[5] == 115 && pat[6] == 116 && pat[7] == 111 && pat[8] == 114 && pat[9] == 101);
        assert(pat[10] == 47);
    }
}

/// Two runs without `/nix/store/`, joined by a byte off it, hold none.
proof fn lemma_no_store_dir_concat(a: Seq<u8>, c: u8, b: Seq<u8>)
    requires
        no_store_dir(a),
        no_store_dir(b),
        off_store_dir(c),
    ensures
        no_store_dir(a + seq![c] + b),
{
    let t = a + seq![c] + b;
    let pat = store_dir_slash();
    let la = a.len() as int;
    lemma_store_dir_chars();
    assert forall|k: int| 0 <= k < t.len() implies !#[trigger] has_prefix(t.skip(k), pat) by {
        if has_prefix(t.skip(k), pat) {
            if k + 11 <= la {
                assert(a.skip(k).take(11) =~= t.skip(k).take(11));
                assert(has_prefix(a.skip(k), pat));
            } else if k <= la {
                assert(t[la] == c);
                assert(t.skip(k).take(11)[la - k] == t[la]);
                assert(!off_store_dir(pat[la - k]));
            } else {
                let kb = k - la - 1;
                assert(b.skip(kb).take(11) =~= t.skip(k).take(11));
                assert(has_prefix(b.skip(kb), pat));
            }
        }
    }
}

/// A quoted string holds `/nix/store/` only where its escaped text does.
proof fn lemma_no_store_dir_quoted(n: Seq<u8>)
    requires
        no_store_dir(escaped(n)),
    ensures
        no_store_dir(quoted(n)),
{
    let e = Seq::<u8>::empty();
    lemma_no_store_dir_short(e);
    lemma_no_store_dir_concat(e, 34u8, escaped(n));
    assert(e + seq![34u8] + escaped(n) =~= seq![34u8] + escaped(n));
    lemma_no_store_dir_concat(seq![34u8] + escaped(n), 34u8, e);
    assert(seq![34u8] + escaped(n) + seq![34u8] + e =~= quoted(n));
}

proof fn lemma_no_store_dir_joined(parts: Seq<Seq<u8>>)
    requires
        forall|i: int| 0 <= i < parts.len() ==> no_store_dir(#[trigger] parts[i]),
    ensures
        no_store_dir(joined(parts)),
    decreases parts.len(),
{
    if parts.len() == 0 {
        lemma_no_store_dir_short(Seq::<u8>::empty());
    } else if parts.len() == 1 {
        assert(no_store_dir(parts[0]));
    } else {
        let d = parts.drop_last();
        assert forall|i: int| 0 <= i < d.len() implies no_store_dir(#[trigger] d[i]) by {
            assert(d[i] == parts[i]);
        }
        lemma_no_store_dir_joined(d);
        assert(no_store_dir(parts[parts.len() - 1]));
        lemma_no_store_dir_concat(joined(d), 44u8, parts.last());
    }
}

/// The output names of an input derivation, closed by `)`, hold
/// `/nix/store/` only where an escaped name does.
proof fn lemma_no_store_dir_names(names: Seq<Seq<u8>>)
    requires
        forall|j: int| 0 <= j < names.len() ==> no_store_dir(escaped(#[trigger] names[j])),
    ensures
        no_store_dir(quoted_array(names) + seq![41u8]),
{
    let qn = names.map_values(|x: Seq<u8>| quoted(x));
    assert forall|i: int| 0 <= i < qn.len() implies no_store_dir(#[trigger] qn[i]) by {
        assert(no_store_dir(escaped(names[i])));
        lemma_no_store_dir_quoted(names[i]);
    }
    lemma_no_store_dir_joined(qn);
    let j = joined(qn);
    let e = Seq::<u8>::empty();
    lemma_no_store_dir_short(e);
    lemma_no_store_dir_concat(e, 91u8, j);
    let x1 = e + seq![91u8] + j;
    lemma_no_store_dir_concat(x1, 93u8, e);
    let x2 = x1 + seq![93u8] + e;
    lemma_no_store_dir_concat(x2, 41u8, e);
    assert(x2 + seq![41u8] + e =~= quoted_array(names) + seq![41u8]);
}

/// A run without special bytes is written as it is.
proof fn lemma_escaped_bare(t: Seq<u8>)
    requires
        bare(t),
    ensures
        escaped(t) == t,
    decreases t.len(),
{
    if t.len() > 0 {
        let d = t.drop_last();
        assert forall|i: int| 0 <= i < d.len() implies !#[trigger] is_special(d[i]) by {
            assert(d[i] == t[i]);
        }
        lemma_escaped_bare(d);
        assert(!is_special(t[t.len() - 1]));
        assert(t =~= d + seq![t.last()]);
    }
}

/// An absolute store path with a valid name has no special byte, and
/// starts with `/nix/store/`.
proof fn lemma_path_bare(digest: Seq<u8>, name: Seq<u8>)
    requires
        valid_name(name),
    ensures
        bare(absolute_path(digest, name)),
        has_prefix(absolute_path(digest, name), store_dir_slash()),
{
    let e = spec_encode(digest);
    let l = spec_encode_len(digest.len());
    assert forall|k: int| 0 <= k < e.len() implies !#[trigger] is_special(e[k]) by {
        let w = word_at(digest, ((l - 1 - k) * 5) / 8);
        let sh = (((l - 1 - k) * 5) % 8) as u16;
        assert(((w >> sh) & 0x1fu16) < 32) by (bit_vector);
        assert(group_at(digest, l - 1 - k) < 32);
    }
    let pat = store_dir_slash();
    let p = absolute_path(digest, name);
    let le = e.len() as int;
    assert(p.len() == 12 + le + name.len());
    assert forall|i: int| 0 <= i < p.len() implies !#[trigger] is_special(p[i]) by {
        if i < 11 {
            assert(p[i] == pat[i]);
            lemma_store_dir_chars();
            assert(!off_store_dir(pat[i]));
        } else if i < 11 + le {
            assert(p[i] == e[i - 11]);
        } else if i == 11 + le {
            assert(p[i] == 45);
        } else {
            assert(p[i] == name[i - 12 - le]);
            assert(valid_name_char(name[i - 12 - le]));
        }
    }
    assert(p.take(11) =~= pat);
}

/// `split_state` looks only at the bytes before `k`.
proof fn lemma_split_prefix(a: Seq<u8>, r: Seq<u8>, k: int)
    requires
        0 <= k <= a.len(),
    ensures
        split_state(a + r, k) == split_state(a, k),
    decreases k,
{
    if k > 0 {
        lemma_split_prefix(a, r, k - 1);
        assert((a + r)[k - 1] == a[k - 1]);
    }
}

proof fn lemma_split_after_comma(a: Seq<u8>, b: Seq<u8>, j: int)
    requires
        0 <= j <= b.len(),
    ensures
        split_state(a + seq![44u8] + b, a.len() + 1 + j) == (
        split_commas(a) + split_state(b, j).0,
        split_state(b, j).1,
        ),
    decreases j,
{
    let x = a + seq![44u8] + b;
    let la = a.len() as int;
    if j == 0 {
        assert(x =~= a + (seq![44u8] + b));
        lemma_split_prefix(a, seq![44u8] + b, la);
        assert(x[la] == 44);
        assert(split_commas(a) + Seq::<Seq<u8>>::empty() =~= split_commas(a));
    } else {
        lemma_split_after_comma(a, b, j - 1);
        assert(x[la + 1 + j - 1] == b[j - 1]);
        let d = split_state(b, j - 1).0;
        let c = split_state(b, j - 1).1;
        assert((split_commas(a) + d).push(c) =~= split_commas(a) + d.push(c));
    }
}

/// Splitting at a comma: the pieces before it, then those after it.
pub proof fn lemma_split_commas_concat(a: Seq<u8>, b: Seq<u8>)
    ensures
        split_commas(a + seq![44u8] + b) == split_commas(a) + split_commas(b),
{
    lemma_split_after_comma(a, b, b.len() as int);
    let d = split_state(b, b.len() as int).0;
    let c = split_state(b, b.len() as int).1;
    assert((split_commas(a) + d).push(c) =~= split_commas(a) + d.push(c));
}

proof fn lemma_split_no_comma(t: Seq<u8>, k: int)
    requires
        0 <= k <= t.len(),
        forall|i: int| 0 <= i < t.len() ==> #[trigger] t[i] != 44,
    ensures
        split_state(t, k) == (Seq::<Seq<u8>>::empty(), t.take(k)),
    decreases k,
{
    if k > 0 {
        lemma_split_no_comma(t, k - 1);
        assert(t.take(k - 1).push(t[k - 1]) =~= t.take(k));
    } else {
        assert(t.take(0) =~= Seq::<u8>::empty());
    }
}

proof fn lemma_split_pieces_no_store(t: Seq<u8>, k: int)
    requires
        no_store_dir(t),
        0 <= k <= t.len(),
    ensures
        forall|j: int| 0 <= j < split_state(t, k).0.len() ==> no_store_dir(#[trigger] split_state(t, k).0[j]),
        split_state(t, k).1.len() <= k,
        split_state(t, k).1 == t.subrange(k - split_state(t, k).1.len(), k),
    decreases k,
{
    if k > 0 {
        lemma_split_pieces_no_store(t, k - 1);
        let d = split_state(t, k - 1).0;
        let c = split_state(t, k - 1).1;
        lemma_no_store_dir_sub(t, k - 1 - c.len(), k - 1);
        if t[k - 1] != 44 {
            assert(c.push(t[k - 1]) =~= t.subrange(k - 1 - c.len(), k));
        } else {
            assert(t.subrange(k, k) =~= Seq::<u8>::empty());
            assert forall|j: int| 0 <= j < d.push(c).len() implies no_store_dir(#[trigger] d.push(c)[j]) by {
                if j < d.len() {
                    assert(d.push(c)[j] == d[j]);
                }
            }
        }
    } else {
        assert(t.subrange(0, 0) =~= Seq::<u8>::empty());
    }
}

/// No piece of a run without `/nix/store/` names a store path.
proof fn lemma_piece_paths_none(t: Seq<u8>)
    requires
        no_store_dir(t),
    ensures
        piece_paths(t) == Set::<Seq<u8>>::empty(),
{
    lemma_split_pieces_no_store(t, t.len() as int);
    let d = split_state(t, t.len() as int).0;
    let c = split_state(t, t.len() as int).1;
    lemma_no_store_dir_sub(t, t.len() - c.len(), t.len() as int);
    assert forall|p: Seq<u8>| !#[trigger] piece_paths(t).contains(p) by {
        assert forall|i: int| 0 <= i < split_commas(t).len() implies store_path_in(
            #[trigger] split_commas(t)[i],
        ) != Some(p) by {
            let q = split_commas(t)[i];
            if i < d.len() {
                assert(q == d[i]);
            } else {
                assert(q == c);
            }
            lemma_no_store_dir_from(q, 0);
        }
    }
    assert(piece_paths(t) =~= Set::<Seq<u8>>::empty());
}

/// The pieces of `a`, a comma and `b` name the paths of both.
proof fn lemma_piece_paths_concat(a: Seq<u8>, b: Seq<u8>)
    ensures
        piece_paths(a + seq![44u8] + b) == piece_paths(a).union(piece_paths(b)),
{
    let x = a + seq![44u8] + b;
    lemma_split_commas_concat(a, b);
    let sa = split_commas(a);
    let sb = split_commas(b);
    let sx = split_commas(x);
    assert forall|p: Seq<u8>| #[trigger] piece_paths(x).contains(p) <==> piece_paths(a).union(
        piece_paths(b),
    ).contains(p) by {
        if piece_paths(x).contains(p) {
            let i = choose|i: int| 0 <= i < sx.len() && store_path_in(#[trigger] sx[i]) == Some(p);
            if i < sa.len() {
                assert(sx[i] == sa[i]);
            } else {
                assert(sx[i] == sb[i - sa.len()]);
            }
        }
        if piece_paths(a).contains(p) {
            let i = choose|i: int| 0 <= i < sa.len() && store_path_in(#[trigger] sa[i]) == Some(p);
            assert(sx[i] == sa[i]);
        }
        if piece_paths(b).contains(p) {
            let i = choose|i: int| 0 <= i < sb.len() && store_path_in(#[trigger] sb[i]) == Some(p);
            assert(sx[sa.len() + i] == sb[i]);
        }
    }
    assert(piece_paths(x) =~= piece_paths(a).union(piece_paths(b)));
}

proof fn lemma_path_end_over(q: Seq<u8>, k: int, e: int)
    requires
        0 <= k <= e < q.len(),
        is_path_end(q[e]),
        forall|i: int| k <= i < e ==> !is_path_end(#[trigger] q[i]),
    ensures
        path_end_from(q, k) == e,
    decreases e - k,
{
    if k < e {
        lemma_path_end_over(q, k + 1, e);
    }
}

/// `(` and a quoted store path: the path stands between the quotes, and no
/// byte is a comma.
proof fn lemma_key_piece_layout(key: Seq<u8>)
    requires
        bare(key),
    ensures
        seq![40u8] + quoted(key) == seq![40u8, 34u8] + key + seq![34u8],
        forall|i: int| 0 <= i < key.len() + 3 ==> #[trigger] (seq![40u8] + quoted(key))[i] != 44,
        forall|i: int| 2 <= i < 2 + key.len() ==> !is_path_end(#[trigger] (seq![40u8] + quoted(key))[i]),
{
    lemma_escaped_bare(key);
    let q = seq![40u8] + quoted(key);
    let lk = key.len() as int;
    assert(q =~= seq![40u8, 34u8] + key + seq![34u8]);
    assert forall|i: int| 0 <= i < lk + 3 implies #[trigger] q[i] != 44 by {
        if 2 <= i < 2 + lk {
            assert(q[i] == key[i - 2]);
            assert(!is_special(key[i - 2]));
        }
    }
    assert forall|i: int| 2 <= i < 2 + lk implies !is_path_end(#[trigger] q[i]) by {
        assert(q[i] == key[i - 2]);
        assert(!is_special(key[i - 2]));
    }
}

/// The store path in `(` and a quoted store path is that path.
#[verifier::rlimit(30)]
proof fn lemma_key_piece_path(key: Seq<u8>)
    requires
        bare(key),
        has_prefix(key, store_dir_slash()),
    ensures
        store_path_in(seq![40u8] + quoted(key)) == Some(key),
{
    lemma_key_piece_layout(key);
    let q = seq![40u8] + quoted(key);
    let lk = key.len() as int;
    assert(q.skip(2).take(11) =~= key.take(11));
    assert(has_prefix(q.skip(2), store_dir_slash()));
    assert(store_dir_from(q, 2) == Some(2int));
    assert(q.skip(1).take(11)[0] == q[1]);
    assert(store_dir_from(q, 1) == Some(2int));
    assert(q.skip(0).take(11)[0] == q[0]);
    assert(store_dir_from(q, 0) == Some(2int));
    lemma_path_end_over(q, 2, 2 + lk);
    assert(q.subrange(2, 2 + lk) =~= key);
}

/// `(` and a quoted store path form one piece, which names that path.
proof fn lemma_piece_paths_key(key: Seq<u8>)
    requires
        bare(key),
        has_prefix(key, store_dir_slash()),
    ensures
        piece_paths(seq![40u8] + quoted(key)) == set![key],
{
    lemma_key_piece_layout(key);
    lemma_key_piece_path(key);
    let q = seq![40u8] + quoted(key);
    lemma_split_no_comma(q, q.len() as int);
    assert(q.take(q.len() as int) =~= q);
    assert(split_commas(q) =~= seq![q]);
    assert forall|p: Seq<u8>| #[trigger] piece_paths(q).contains(p) <==> set![key].contains(p) by {
        if p == key {
            assert(split_commas(q)[0] == q);
        }
    }
    assert(piece_paths(q) =~= set![key]);
}

/// The pieces of one input derivation's term name its path alone.
proof fn lemma_piece_paths_term(key: Seq<u8>, names: Seq<Seq<u8>>)
    requires
        bare(key),
        has_prefix(key, store_dir_slash()),
        forall|j: int| 0 <= j < names.len() ==> no_store_dir(escaped(#[trigger] names[j])),
    ensures
        piece_paths(crate::derivation::input_drv_term(key, names)) == set![key],
{
    let a = seq![40u8] + quoted(key);
    let b = quoted_array(names) + seq![41u8];
    assert(crate::derivation::input_drv_term(key, names) =~= a + seq![44u8] + b);
    lemma_piece_paths_concat(a, b);
    lemma_piece_paths_key(key);
    lemma_no_store_dir_names(names);
    lemma_piece_paths_none(b);
    assert(set![key].union(Set::<Seq<u8>>::empty()) =~= set![key]);
}

/// The pieces of the input derivation terms, joined by commas, name
/// exactly their paths.
proof fn lemma_piece_paths_terms(keys: Seq<Seq<u8>>, names: Seq<Seq<Seq<u8>>>)
    requires
        keys.len() == names.len(),
        forall|i: int| 0 <= i < keys.len() ==> bare(#[trigger] keys[i]) && has_prefix(keys[i], store_dir_slash()),
        forall|i: int, j: int|
            0 <= i < names.len() && 0 <= j < names[i].len() ==> no_store_dir(escaped(#[trigger] names[i][j])),
    ensures
        piece_paths(joined(Seq::new(keys.len(), |i: int| crate::derivation::input_drv_term(keys[i], names[i]))))
            == keys.to_set(),
    decreases keys.len(),
{
    let parts = Seq::new(keys.len(), |i: int| crate::derivation::input_drv_term(keys[i], names[i]));
    if keys.len() == 0 {
        lemma_no_store_dir_short(Seq::<u8>::empty());
        lemma_piece_paths_none(Seq::<u8>::empty());
        assert(keys.to_set() =~= Set::<Seq<u8>>::empty());
    } else {
        let n = keys.len() - 1;
        assert(bare(keys[n]) && has_prefix(keys[n], store_dir_slash()));
        assert forall|j: int| 0 <= j < names[n].len() implies no_store_dir(escaped(#[trigger] names[n][j])) by {
            assert(no_store_dir(escaped(names[n][j])));
        }
        lemma_piece_paths_term(keys[n], names[n]);
        assert(parts[n] == crate::derivation::input_drv_term(keys[n], names[n]));
        if keys.len() == 1 {
            assert(keys.to_set() =~= set![keys[0]]) by {
                assert forall|x: Seq<u8>| #[trigger] keys.to_set().contains(x) <==> set![keys[0]].contains(x) by {
                    if x == keys[0] {
                        assert(keys[0] == x);
                    }
                }
            }
        } else {
            let kd = keys.drop_last();
            let nd = names.drop_last();
            assert forall|i: int| 0 <= i < kd.len() implies bare(#[trigger] kd[i]) && has_prefix(kd[i], store_dir_slash()) by {
                assert(kd[i] == keys[i]);
                assert(bare(keys[i]) && has_prefix(keys[i], store_dir_slash()));
            }
            assert forall|i: int, j: int| 0 <= i < nd.len() && 0 <= j < nd[i].len() implies no_store_dir(
                escaped(#[trigger] nd[i][j]),
            ) by {
                assert(nd[i] == names[i]);
                assert(no_store_dir(escaped(names[i][j])));
            }
            lemma_piece_paths_terms(kd, nd);
            let pd = Seq::new(kd.len(), |i: int| crate::derivation::input_drv_term(kd[i], nd[i]));
            assert(parts.drop_last() =~= pd);
            assert(joined(parts) == joined(pd) + seq![44u8] + parts[n]);
            lemma_piece_paths_concat(joined(pd), parts[n]);
            assert forall|x: Seq<u8>| #[trigger] keys.to_set().contains(x) <==> kd.to_set().union(set![keys[n]]).contains(
                x,
            ) by {
                if keys.to_set().contains(x) {
                    let i = choose|i: int| 0 <= i < keys.len() && keys[i] == x;
                    if i < n {
                        assert(kd[i] == x);
                    }
                }
                if kd.to_set().contains(x) {
                    let i = choose|i: int| 0 <= i < kd.len() && kd[i] == x;
                    assert(keys[i] == x);
                }
                if x == keys[n] {
                    assert(keys.contains(x));
                }
            }
            assert(keys.to_set() =~= kd.to_set().union(set![keys[n]]));
        }
    }
}

/// The paths of the input derivations are valid store paths (what their
/// type keeps).
pub open spec fn input_paths_valid(d: Derivation) -> bool {
    forall|i: int| 0 <= i < d.input_derivations@.len() ==> valid_name(#[trigger] d.input_derivations@[i].0@.1)
}

/// No output name of an input derivation, as the ATerm writes it, holds
/// `/nix/store/`.
pub open spec fn output_names_clear(d: Derivation) -> bool {
    forall|i: int, j: int|
        0 <= i < d.input_derivation_outputs().len() && 0 <= j < d.input_derivation_outputs()[i].len()
            ==> no_store_dir(escaped(#[trigger] d.input_derivation_outputs()[i][j]))
}

/// The input derivations read from the ATerm of a derivation are its input
/// derivations, unless an output name it uses holds `/nix/store/`.
pub proof fn lemma_aterm_derivation_refs(d: Derivation)
    requires
        input_paths_valid(d),
        output_names_clear(d),
    ensures
        derivation_refs(d.aterm()) == d.input_derivation_paths().to_set(),
{
    lemma_aterm_source_refs(d);
    let keys = d.input_derivation_paths();
    let names = d.input_derivation_outputs();
    assert forall|i: int| 0 <= i < keys.len() implies bare(#[trigger] keys[i]) && has_prefix(keys[i], store_dir_slash()) by {
        let p = d.input_derivations@[i].0;
        assert(keys[i] == path_bytes(p));
        assert(valid_name(p@.1));
        lemma_path_bare(p@.0, p@.1);
    }
    lemma_piece_paths_terms(keys, names);
    let l = joined(Seq::new(keys.len(), |i: int| crate::derivation::input_drv_term(keys[i], names[i])));
    assert(list_contents(d.aterm(), 2) == Some(l));
    assert(derivation_refs(d.aterm()) =~= piece_paths(l));
}

/// The references read from the ATerm of a derivation are exactly its
/// references (input sources and input derivations), unless an output name
/// of an input derivation holds `/nix/store/`.
pub proof fn lemma_aterm_references(d: Derivation)
    requires
        input_paths_valid(d),
        output_names_clear(d),
    ensures
        aterm_references(d.aterm()) == d.reference_set(),
{
    lemma_aterm_source_refs(d);
    lemma_aterm_derivation_refs(d);
    assert(aterm_references(d.aterm()) =~= d.reference_set());
}

/// The `.drv` path computed from the ATerm of a derivation alone
/// (references read from the text, in increasing order) is the path
/// computed from the derivation itself (its references, in increasing
/// order), unless an output name of an input derivation holds
/// `/nix/store/`.
pub proof fn lemma_derivation_paths_agree(d: Derivation, name: Seq<u8>, refs_read: Seq<Seq<u8>>, refs: Seq<Seq<u8>>)
    requires
        input_paths_valid(d),
        output_names_clear(d),
        strictly_sorted(refs_read),
        refs_read.to_set() == aterm_references(d.aterm()),
        strictly_sorted(refs),
        refs.to_set() == d.reference_set(),
    ensures
        drv_path(d.aterm(), refs_read, name) == absolute_path(
            fingerprint_digest(references_string(text_ty(), refs, false), sha256_spec(d.aterm()), drv_name(name)),
            drv_name(name),
        ),
{
    lemma_aterm_references(d);
    lemma_sorted_unique(refs_read, refs);
}

} // verus!
