//! Sets of byte strings kept as strictly increasing vectors, in the
//! lexicographic byte order that `String` and `Vec<u8>` compare by.

use crate::refscan::{bytes_view, copy_bytes};
use vstd::prelude::*;

verus! {

/// Lexicographic "less than" on byte strings (a proper prefix is smaller).
pub open spec fn seq_lt(a: Seq<u8>, b: Seq<u8>) -> bool
    decreases a.len(),
{
    if a.len() == 0 {
        b.len() > 0
    } else if b.len() == 0 {
        false
    } else if a[0] < b[0] {
        true
    } else if a[0] > b[0] {
        false
    } else {
        seq_lt(a.drop_first(), b.drop_first())
    }
}

/// Nothing is smaller than itself.
pub proof fn lemma_lt_irreflexive(a: Seq<u8>)
    ensures
        !seq_lt(a, a),
    decreases a.len(),
{
    if a.len() > 0 {
        lemma_lt_irreflexive(a.drop_first());
    }
}

/// The order is transitive.
pub proof fn lemma_lt_transitive(a: Seq<u8>, b: Seq<u8>, c: Seq<u8>)
    requires
        seq_lt(a, b),
        seq_lt(b, c),
    ensures
        seq_lt(a, c),
    decreases a.len(),
{
    if a.len() > 0 && b.len() > 0 && c.len() > 0 && a[0] == b[0] && b[0] == c[0] {
        lemma_lt_transitive(a.drop_first(), b.drop_first(), c.drop_first());
    }
}

/// Any two byte strings are equal or ordered one way.
pub proof fn lemma_lt_total(a: Seq<u8>, b: Seq<u8>)
    ensures
        a == b || seq_lt(a, b) || seq_lt(b, a),
    decreases a.len(),
{
    if a.len() > 0 && b.len() > 0 && a[0] == b[0] {
        lemma_lt_total(a.drop_first(), b.drop_first());
        if a.drop_first() == b.drop_first() {
            assert(a =~= seq![a[0]] + a.drop_first());
            assert(b =~= seq![b[0]] + b.drop_first());
        }
    } else if a.len() == 0 && b.len() == 0 {
        assert(a =~= b);
    }
}

/// The order is asymmetric.
pub proof fn lemma_lt_asymmetric(a: Seq<u8>, b: Seq<u8>)
    requires
        seq_lt(a, b),
    ensures
        !seq_lt(b, a),
{
    if seq_lt(b, a) {
        lemma_lt_transitive(a, b, a);
        lemma_lt_irreflexive(a);
    }
}

/// Strictly increasing.
pub open spec fn strictly_sorted(v: Seq<Seq<u8>>) -> bool {
    forall|i: int, j: int| 0 <= i < j < v.len() ==> seq_lt(#[trigger] v[i], #[trigger] v[j])
}

/// Compares two byte strings.
pub fn bytes_lt(a: &[u8], b: &[u8]) -> (r: bool)
    ensures
        r == seq_lt(a@, b@),
{
    let mut i: usize = 0;
    assert(a@.skip(0) =~= a@);
    assert(b@.skip(0) =~= b@);
    while i < a.len() && i < b.len()
        invariant
            i <= a@.len(),
            i <= b@.len(),
            a@.take(i as int) == b@.take(i as int),
            seq_lt(a@, b@) == seq_lt(a@.skip(i as int), b@.skip(i as int)),
        decreases a@.len() - i,
    {
        if a[i] != b[i] {
            return a[i] < b[i];
        }
        assert(a@.skip(i as int).drop_first() =~= a@.skip(i + 1));
        assert(b@.skip(i as int).drop_first() =~= b@.skip(i + 1));
        assert(a@.take(i + 1) =~= a@.take(i as int).push(a@[i as int]));
        assert(b@.take(i + 1) =~= b@.take(i as int).push(b@[i as int]));
        i = i + 1;
    }
    i < b.len()
}

/// Adds `x` to the strictly increasing `v` unless it is there already.
pub fn insert_sorted(v: &mut Vec<Vec<u8>>, x: Vec<u8>)
    requires
        strictly_sorted(bytes_view(old(v)@)),
    ensures
        strictly_sorted(bytes_view(final(v)@)),
        bytes_view(final(v)@).to_set() == bytes_view(old(v)@).to_set().insert(x@),
{
    let ghost v0 = bytes_view(v@);
    let mut i: usize = 0;
    while i < v.len()
        invariant
            v0 == bytes_view(v@),
            strictly_sorted(v0),
            i <= v@.len(),
            forall|k: int| 0 <= k < i ==> seq_lt(#[trigger] v0[k], x@),
        ensures
            v0 == bytes_view(v@),
            i <= v@.len(),
            forall|k: int| 0 <= k < i ==> seq_lt(#[trigger] v0[k], x@),
            i < v@.len() ==> !seq_lt(v0[i as int], x@),
        decreases v@.len() - i,
    {
        assert(v0[i as int] == v@[i as int]@);
        if !bytes_lt(v[i].as_slice(), x.as_slice()) {
            break;
        }
        i = i + 1;
    }
    if i < v.len() {
        assert(v0[i as int] == v@[i as int]@);
        if crate::refscan::bytes_eq(v[i].as_slice(), x.as_slice()) {
            assert(v0.to_set().insert(x@) =~= v0.to_set()) by {
                assert(v0.to_set().contains(x@)) by {
                    assert(v0[i as int] == x@);
                }
            }
            return ;
        }
        proof {
            lemma_lt_total(v0[i as int], x@);
        }
    }
    let ghost xv = x@;
    v.insert(i, x);
    let ghost v1 = bytes_view(v@);
    assert(v1 =~= v0.insert(i as int, xv));
    assert forall|a: int, b: int| 0 <= a < b < v1.len() implies seq_lt(#[trigger] v1[a], #[trigger] v1[b]) by {
        if b < i {
        } else if b == i {
            assert(v1[a] == v0[a]);
        } else if a == i {
            assert(v1[b] == v0[b - 1]);
            if b - 1 > i {
                assert(seq_lt(v0[i as int], v0[b - 1]));
                lemma_lt_transitive(xv, v0[i as int], v0[b - 1]);
            }
        } else if a < i {
            assert(v1[a] == v0[a]);
            assert(v1[b] == v0[b - 1]);
            if a < b - 1 {
            } else {
                assert(false);
            }
        } else {
            assert(v1[a] == v0[a - 1]);
            assert(v1[b] == v0[b - 1]);
        }
    }
    assert forall|s: Seq<u8>| #[trigger] v1.to_set().contains(s) == v0.to_set().insert(xv).contains(s) by {
        if v1.to_set().contains(s) {
            let k = choose|k: int| 0 <= k < v1.len() && v1[k] == s;
            if k < i {
                assert(v0[k] == s);
            } else if k > i {
                assert(v0[k - 1] == s);
            }
        }
        if v0.to_set().contains(s) {
            let k = choose|k: int| 0 <= k < v0.len() && v0[k] == s;
            if k < i {
                assert(v1[k] == s);
            } else {
                assert(v1[k + 1] == s);
            }
        }
        if s == xv {
            assert(v1[i as int] == s);
        }
    }
    assert(v1.to_set() =~= v0.to_set().insert(xv));
}

/// A strictly increasing sequence is determined by its elements.
pub proof fn lemma_sorted_unique(a: Seq<Seq<u8>>, b: Seq<Seq<u8>>)
    requires
        strictly_sorted(a),
        strictly_sorted(b),
        a.to_set() == b.to_set(),
    ensures
        a == b,
    decreases a.len() + b.len(),
{
    if a.len() == 0 || b.len() == 0 {
        if a.len() > 0 {
            assert(a.to_set().contains(a[0]));
            assert(!b.to_set().contains(a[0]));
        }
        if b.len() > 0 {
            assert(b.to_set().contains(b[0]));
            assert(!a.to_set().contains(b[0]));
        }
        assert(a =~= b);
    } else {
        // the first elements are both the least element
        assert(a.to_set().contains(a[0]));
        assert(b.to_set().contains(b[0]));
        let ia = choose|k: int| 0 <= k < b.len() && b[k] == a[0];
        let ib = choose|k: int| 0 <= k < a.len() && a[k] == b[0];
        if ia > 0 {
            assert(seq_lt(b[0], b[ia]));
            if ib > 0 {
                assert(seq_lt(a[0], a[ib]));
                lemma_lt_asymmetric(b[0], a[0]);
            } else {
                lemma_lt_irreflexive(b[0]);
            }
        }
        assert(a[0] == b[0]);
        let ta = a.drop_first();
        let tb = b.drop_first();
        assert forall|s: Seq<u8>| #[trigger] ta.to_set().contains(s) == tb.to_set().contains(s) by {
            if ta.to_set().contains(s) {
                let k = choose|k: int| 0 <= k < ta.len() && ta[k] == s;
                assert(a[k + 1] == s);
                assert(a.to_set().contains(s));
                let m = choose|m: int| 0 <= m < b.len() && b[m] == s;
                assert(seq_lt(a[0], a[k + 1]));
                if m == 0 {
                    lemma_lt_irreflexive(s);
                }
                assert(tb[m - 1] == s);
            }
            if tb.to_set().contains(s) {
                let k = choose|k: int| 0 <= k < tb.len() && tb[k] == s;
                assert(b[k + 1] == s);
                assert(b.to_set().contains(s));
                let m = choose|m: int| 0 <= m < a.len() && a[m] == s;
                assert(seq_lt(b[0], b[k + 1]));
                if m == 0 {
                    lemma_lt_irreflexive(s);
                }
                assert(ta[m - 1] == s);
            }
        }
        assert(ta.to_set() =~= tb.to_set());
        lemma_sorted_unique(ta, tb);
        assert(a =~= seq![a[0]] + ta);
        assert(b =~= seq![b[0]] + tb);
    }
}

/// A copy of a vector of byte strings.
pub fn copy_all(v: &Vec<Vec<u8>>) -> (r: Vec<Vec<u8>>)
    ensures
        bytes_view(r@) == bytes_view(v@),
{
    let mut r: Vec<Vec<u8>> = Vec::new();
    let mut i: usize = 0;
    while i < v.len()
        invariant
            i <= v@.len(),
            bytes_view(r@) == bytes_view(v@).take(i as int),
        decreases v@.len() - i,
    {
        let c = copy_bytes(&v[i]);
        assert(c@ == bytes_view(v@)[i as int]);
        let ghost before = r@;
        r.push(c);
        assert(bytes_view(r@) =~= bytes_view(before).push(c@));
        assert(bytes_view(v@).take(i + 1) =~= bytes_view(v@).take(i as int).push(c@));
        i = i + 1;
    }
    assert(bytes_view(v@).take(i as int) =~= bytes_view(v@));
    r
}

/// Whether the byte strings are in strictly increasing order.
pub fn is_strictly_sorted(v: &Vec<Vec<u8>>) -> (r: bool)
    ensures
        r == strictly_sorted(bytes_view(v@)),
{
    let ghost bv = bytes_view(v@);
    if v.len() < 2 {
        return true;
    }
    let mut i: usize = 1;
    while i < v.len()
        invariant
            bv == bytes_view(v@),
            1 <= i <= v@.len(),
            strictly_sorted(bv.take(i as int)),
        decreases v@.len() - i,
    {
        assert(bv[i - 1] == v@[i - 1]@);
        assert(bv[i as int] == v@[i as int]@);
        if !bytes_lt(v[i - 1].as_slice(), v[i].as_slice()) {
            assert(bv.take(i + 1)[i - 1] == bv[i - 1]);
            assert(bv.take(i + 1)[i as int] == bv[i as int]);
            assert(!strictly_sorted(bv));
            return false;
        }
        let ghost t = bv.take(i + 1);
        assert forall|a: int, b: int| 0 <= a < b < t.len() implies seq_lt(#[trigger] t[a], #[trigger] t[b]) by {
            assert(t[a] == bv[a]);
            assert(t[b] == bv[b]);
            if b < i {
                assert(bv.take(i as int)[a] == bv[a]);
                assert(bv.take(i as int)[b] == bv[b]);
            } else if a < i - 1 {
                assert(bv.take(i as int)[a] == bv[a]);
                assert(bv.take(i as int)[i - 1] == bv[i - 1]);
                lemma_lt_transitive(bv[a], bv[i - 1], bv[b]);
            }
        }
        i = i + 1;
    }
    assert(bv.take(i as int) =~= bv);
    true
}

} // verus!
