//! Scanning and rewriting a stream window by window: what a whole input
//! looks like once the needle occurrences that end by some offset are
//! rewritten (and which candidates were seen by then), and why handling the
//! next window with the searcher's output on it extends that to the end of
//! the window.

use crate::refscan::{
    apply_rewrites, covered, entry_needles, lemma_rewrite_pointwise, lengths_match, match_end,
    match_fits, matches_complete, matches_valid, occurrences_apart, occurs_at, overlaps,
    recorded_positions, rewrite_positions, rewritten, scan_flags, Match, RewriteEntry,
};
use vstd::prelude::*;

verus! {

/// Byte `k` of `x` lies in an occurrence of needle `i` at `p` that ends by
/// offset `b`.
pub open spec fn covers(entries: Seq<RewriteEntry>, x: Seq<u8>, b: int, k: int, i: int, p: int) -> bool {
    &&& 0 <= i < entries.len()
    &&& occurs_at(x, entry_needles(entries)[i], p)
    &&& p <= k < p + entry_needles(entries)[i].len()
    &&& p + entry_needles(entries)[i].len() <= b
}

/// `x` with every needle occurrence that ends by offset `b` replaced.
pub open spec fn partial(entries: Seq<RewriteEntry>, x: Seq<u8>, b: int) -> Seq<u8> {
    Seq::new(
        x.len(),
        |k: int|
            if exists|i: int, p: int| #[trigger] covers(entries, x, b, k, i, p) {
                let (i, p) = choose|i: int, p: int| #[trigger] covers(entries, x, b, k, i, p);
                entries[i].replacement@[k - p]
            } else {
                x[k]
            },
    )
}

/// The offsets of the occurrences that end by `b` of needles whose entry
/// records positions.
pub open spec fn partial_positions(entries: Seq<RewriteEntry>, x: Seq<u8>, b: int) -> Set<u64> {
    Set::new(
        |q: u64|
            exists|i: int|
                0 <= i < entries.len() && entries[i].record_positions && #[trigger] occurs_at(
                    x,
                    entry_needles(entries)[i],
                    q as int,
                ) && q + entry_needles(entries)[i].len() <= b,
    )
}

/// Rewriting never chains: in `x` with the occurrences ending by any `b`
/// rewritten, cut anywhere after `b`, a needle occurs only where it occurs
/// in `x` and ends after `b`.
pub open spec fn rewrites_inert(entries: Seq<RewriteEntry>, x: Seq<u8>) -> bool {
    forall|b: int, t: int, i: int, p: int|
        0 <= b <= t <= x.len() && 0 <= i < entries.len() && #[trigger] occurs_at(
            partial(entries, x, b).take(t),
            entry_needles(entries)[i],
            p,
        ) ==> occurs_at(x, entry_needles(entries)[i], p) && p + entry_needles(entries)[i].len() > b
}

/// What streaming a rewrite over `x` relies on: replacements as long as
/// their needles, no empty needle, occurrences that keep apart, and no
/// rewrite that creates an occurrence.
pub open spec fn stream_rewritable(entries: Seq<RewriteEntry>, x: Seq<u8>) -> bool {
    &&& lengths_match(entries)
    &&& forall|i: int| 0 <= i < entries.len() ==> #[trigger] entry_needles(entries)[i].len() > 0
    &&& occurrences_apart(entry_needles(entries), x)
    &&& rewrites_inert(entries, x)
}

/// At most one occurrence covers a byte.
proof fn lemma_cover_unique(
    entries: Seq<RewriteEntry>,
    x: Seq<u8>,
    b1: int,
    b2: int,
    k: int,
    i: int,
    p: int,
    j: int,
    q: int,
)
    requires
        occurrences_apart(entry_needles(entries), x),
        covers(entries, x, b1, k, i, p),
        covers(entries, x, b2, k, j, q),
    ensures
        i == j && p == q,
{
    let n = entry_needles(entries);
    assert(occurs_at(x, n[i], p) && occurs_at(x, n[j], q));
    if i != j || p != q {
        assert(p + n[i].len() <= q || q + n[j].len() <= p);
    }
}

/// Byte `k` of the partial rewrite: the replacement's byte inside an
/// occurrence ending by `b`, the input's byte elsewhere.
proof fn lemma_partial_at(entries: Seq<RewriteEntry>, x: Seq<u8>, b: int, k: int)
    requires
        occurrences_apart(entry_needles(entries), x),
        0 <= k < x.len(),
    ensures
        forall|i: int, p: int|
            #[trigger] covers(entries, x, b, k, i, p) ==> partial(entries, x, b)[k] == entries[i].replacement@[k
                - p],
        (forall|i: int, p: int| !#[trigger] covers(entries, x, b, k, i, p)) ==> partial(entries, x, b)[k]
            == x[k],
{
    assert forall|i: int, p: int| #[trigger] covers(entries, x, b, k, i, p) implies partial(
        entries,
        x,
        b,
    )[k] == entries[i].replacement@[k - p] by {
        let (i2, p2) = choose|i2: int, p2: int| #[trigger] covers(entries, x, b, k, i2, p2);
        lemma_cover_unique(entries, x, b, b, k, i, p, i2, p2);
    }
}

/// A match in the window `t.subrange(a, e)` is an occurrence in `t.take(e)`
/// at the shifted offset, and back.
proof fn lemma_window_occurs(t: Seq<u8>, a: int, e: int, n: Seq<u8>, q: int)
    requires
        0 <= a <= e <= t.len(),
    ensures
        occurs_at(t.subrange(a, e), n, q) ==> occurs_at(t.take(e), n, a + q),
        q >= 0 && occurs_at(t.take(e), n, a + q) ==> occurs_at(t.subrange(a, e), n, q),
{
    if occurs_at(t.subrange(a, e), n, q) {
        assert(t.take(e).subrange(a + q, a + q + n.len()) =~= t.subrange(a, e).subrange(q, q + n.len()));
    }
    if q >= 0 && occurs_at(t.take(e), n, a + q) {
        assert(t.take(e).subrange(a + q, a + q + n.len()) =~= t.subrange(a, e).subrange(q, q + n.len()));
    }
}

/// Every match reported in a window of the partial rewrite is an occurrence
/// of the input that ends after `b` and by the end of the window.
proof fn lemma_window_match(
    entries: Seq<RewriteEntry>,
    x: Seq<u8>,
    b: int,
    a: int,
    e: int,
    ms: Seq<Match>,
    j: int,
)
    requires
        stream_rewritable(entries, x),
        0 <= a <= b <= e <= x.len(),
        matches_valid(entry_needles(entries), partial(entries, x, b).subrange(a, e), ms),
        0 <= j < ms.len(),
    ensures
        occurs_at(x, entry_needles(entries)[ms[j].pat_idx as int], a + ms[j].start),
        b < a + match_end(entry_needles(entries), ms[j]) <= e,
        0 <= ms[j].pat_idx < entries.len(),
{
    let n = entry_needles(entries);
    let pb = partial(entries, x, b);
    let m = ms[j];
    assert(match_fits(n, pb.subrange(a, e), m));
    let i = m.pat_idx as int;
    assert(n.len() == entries.len());
    lemma_window_occurs(pb, a, e, n[i], m.start as int);
    assert(occurs_at(pb.take(e), n[i], a + m.start));
}

/// An occurrence of the input ending after `b` and starting at or after
/// `a` occurs, unchanged, in the window `[a, e)` of the partial rewrite.
proof fn lemma_pending_in_window(
    entries: Seq<RewriteEntry>,
    x: Seq<u8>,
    b: int,
    a: int,
    e: int,
    i: int,
    p: int,
)
    requires
        stream_rewritable(entries, x),
        0 <= a <= b <= e <= x.len(),
        0 <= i < entries.len(),
        occurs_at(x, entry_needles(entries)[i], p),
        p + entry_needles(entries)[i].len() > b,
        p + entry_needles(entries)[i].len() <= e,
        p >= a,
    ensures
        occurs_at(partial(entries, x, b).subrange(a, e), entry_needles(entries)[i], p - a),
{
    let n = entry_needles(entries);
    let pb = partial(entries, x, b);
    let l = n[i].len() as int;
    assert forall|u: int| 0 <= u < l implies pb[p + u] == #[trigger] n[i][u] by {
        lemma_partial_at(entries, x, b, p + u);
        assert forall|i2: int, p2: int| !#[trigger] covers(entries, x, b, p + u, i2, p2) by {
            if covers(entries, x, b, p + u, i2, p2) {
                assert(covers(entries, x, e, p + u, i, p));
                lemma_cover_unique(entries, x, b, e, p + u, i2, p2, i, p);
            }
        }
        assert(x.subrange(p, p + l)[u] == x[p + u]);
    }
    assert(pb.take(e).subrange(p, p + l) =~= n[i]);
    lemma_window_occurs(pb, a, e, n[i], p - a);
}

/// The byte at `k` of the rewritten window, against the partial rewrite up
/// to the end of the window.
proof fn lemma_window_byte(
    entries: Seq<RewriteEntry>,
    x: Seq<u8>,
    b: int,
    a: int,
    e: int,
    ms: Seq<Match>,
    k: int,
)
    requires
        stream_rewritable(entries, x),
        entries.len() > 0,
        0 <= a <= b <= e <= x.len(),
        forall|i: int, p: int|
            0 <= i < entries.len() && #[trigger] occurs_at(x, entry_needles(entries)[i], p) && p
                + entry_needles(entries)[i].len() > b ==> p >= a,
        matches_valid(entry_needles(entries), partial(entries, x, b).subrange(a, e), ms),
        matches_complete(entry_needles(entries), partial(entries, x, b).subrange(a, e), ms),
        a <= k < e,
    ensures
        rewritten(entries, partial(entries, x, b).subrange(a, e), ms)[k - a] == partial(entries, x, e)[k],
{
    let n = entry_needles(entries);
    let pb = partial(entries, x, b);
    let w = pb.subrange(a, e);
    let kk = k - a;
    lemma_rewrite_pointwise(entries, w, ms);
    lemma_partial_at(entries, x, b, k);
    lemma_partial_at(entries, x, e, k);
    if covered(n, ms, kk) {
        let j = choose|j: int| 0 <= j < ms.len() && #[trigger] ms[j].start <= kk < match_end(n, ms[j]);
        lemma_window_match(entries, x, b, a, e, ms, j);
        let i = ms[j].pat_idx as int;
        let p = a + ms[j].start;
        assert(covers(entries, x, e, k, i, p));
        assert(apply_rewrites(entries, w, ms)[kk] == entries[i].replacement@[kk - ms[j].start]);
    } else {
        assert(apply_rewrites(entries, w, ms)[kk] == w[kk]);
        if exists|i: int, p: int| #[trigger] covers(entries, x, e, k, i, p) {
            let (i, p) = choose|i: int, p: int| #[trigger] covers(entries, x, e, k, i, p);
            if p + n[i].len() <= b {
                assert(covers(entries, x, b, k, i, p));
            } else {
                assert(p >= a);
                lemma_pending_in_window(entries, x, b, a, e, i, p);
                assert(n[i].len() > 0);
                let j = choose|j: int| 0 <= j < ms.len() && overlaps(n, n[i].len() as int, p - a, #[trigger] ms[j]);
                lemma_window_match(entries, x, b, a, e, ms, j);
                let i2 = ms[j].pat_idx as int;
                let p2 = a + ms[j].start;
                assert(occurs_at(x, n[i2], p2) && occurs_at(x, n[i], p));
                if i2 != i || p2 != p {
                    assert(p + n[i].len() <= p2 || p2 + n[i2].len() <= p);
                }
                assert(ms[j].start <= kk < match_end(n, ms[j]));
            }
        } else {
            assert forall|i: int, p: int| !#[trigger] covers(entries, x, b, k, i, p) by {
                if covers(entries, x, b, k, i, p) {
                    assert(covers(entries, x, e, k, i, p));
                }
            }
        }
    }
}

/// Rewriting the window `[a, e)` of the input with the occurrences ending
/// by `b` rewritten, with a searcher's output on the window that misses
/// nothing, gives the input with the occurrences ending by `e` rewritten,
/// and records the positions of the occurrences ending after `b` and by `e`.
/// The window must start at or before every occurrence that ends after `b`.
pub proof fn lemma_window_rewrite(
    entries: Seq<RewriteEntry>,
    x: Seq<u8>,
    b: int,
    a: int,
    e: int,
    ms: Seq<Match>,
)
    requires
        stream_rewritable(entries, x),
        0 <= a <= b <= e <= x.len(),
        e <= u64::MAX,
        forall|i: int, p: int|
            0 <= i < entries.len() && #[trigger] occurs_at(x, entry_needles(entries)[i], p) && p
                + entry_needles(entries)[i].len() > b ==> p >= a,
        matches_valid(entry_needles(entries), partial(entries, x, b).subrange(a, e), ms),
        matches_complete(entry_needles(entries), partial(entries, x, b).subrange(a, e), ms),
    ensures
        partial(entries, x, b).take(a) + rewritten(entries, partial(entries, x, b).subrange(a, e), ms)
            == partial(entries, x, e).take(e),
        partial_positions(entries, x, b) + rewrite_positions(
            entries,
            partial(entries, x, b).subrange(a, e),
            a,
            ms,
        ) == partial_positions(entries, x, e),
{
    let n = entry_needles(entries);
    let pb = partial(entries, x, b);
    let pe = partial(entries, x, e);
    let w = pb.subrange(a, e);
    if entries.len() == 0 {
        assert forall|k: int| 0 <= k < e implies pb[k] == pe[k] by {
            lemma_partial_at(entries, x, b, k);
            lemma_partial_at(entries, x, e, k);
        }
        assert(pb.take(a) + w =~= pe.take(e));
        assert(partial_positions(entries, x, e) =~= Set::<u64>::empty());
        assert(partial_positions(entries, x, b) =~= Set::<u64>::empty());
        assert(partial_positions(entries, x, b) + Set::<u64>::empty() =~= Set::<u64>::empty());
        return;
    }
    lemma_rewrite_pointwise(entries, w, ms);
    let r = rewritten(entries, w, ms);
    assert forall|k: int| 0 <= k < e implies (pb.take(a) + r)[k] == pe[k] by {
        if k < a {
            lemma_partial_at(entries, x, b, k);
            lemma_partial_at(entries, x, e, k);
            if exists|i: int, p: int| #[trigger] covers(entries, x, e, k, i, p) {
                let (i, p) = choose|i: int, p: int| #[trigger] covers(entries, x, e, k, i, p);
                if p + n[i].len() > b {
                    assert(p >= a);
                }
                assert(covers(entries, x, b, k, i, p));
            } else {
                assert forall|i: int, p: int| !#[trigger] covers(entries, x, b, k, i, p) by {
                    if covers(entries, x, b, k, i, p) {
                        assert(covers(entries, x, e, k, i, p));
                    }
                }
            }
        } else {
            lemma_window_byte(entries, x, b, a, e, ms, k);
        }
    }
    assert(pb.take(a) + r =~= pe.take(e));
    let rp = rewrite_positions(entries, w, a, ms);
    assert(rp == recorded_positions(entries, a, ms));
    assert forall|q: u64| #[trigger] (partial_positions(entries, x, b) + rp).contains(q) <==> partial_positions(
        entries,
        x,
        e,
    ).contains(q) by {
        if partial_positions(entries, x, b).contains(q) {
            let i = choose|i: int|
                0 <= i < entries.len() && entries[i].record_positions && #[trigger] occurs_at(x, n[i], q as int)
                    && q + n[i].len() <= b;
            assert(occurs_at(x, n[i], q as int));
        }
        if rp.contains(q) {
            let j = choose|j: int|
                0 <= j < ms.len() && entries[#[trigger] ms[j].pat_idx as int].record_positions && q == a
                    + ms[j].start;
            lemma_window_match(entries, x, b, a, e, ms, j);
            let i = ms[j].pat_idx as int;
            assert(occurs_at(x, n[i], q as int));
        }
        if partial_positions(entries, x, e).contains(q) {
            let i = choose|i: int|
                0 <= i < entries.len() && entries[i].record_positions && #[trigger] occurs_at(x, n[i], q as int)
                    && q + n[i].len() <= e;
            if q + n[i].len() > b {
                assert(q >= a);
                lemma_pending_in_window(entries, x, b, a, e, i, q as int);
                assert(n[i].len() > 0);
                let j = choose|j: int| 0 <= j < ms.len() && overlaps(n, n[i].len() as int, q - a, #[trigger] ms[j]);
                lemma_window_match(entries, x, b, a, e, ms, j);
                let i2 = ms[j].pat_idx as int;
                let p2 = a + ms[j].start;
                assert(occurs_at(x, n[i2], p2) && occurs_at(x, n[i], q as int));
                if i2 != i || p2 != q {
                    assert(q + n[i].len() <= p2 || p2 + n[i2].len() <= q);
                }
                assert(recorded_positions(entries, a, ms).contains(q));
            } else {
                assert(partial_positions(entries, x, b).contains(q));
            }
        }
    }
    assert(partial_positions(entries, x, b) + rp =~= partial_positions(entries, x, e));
}

/// Past `b` the partial rewrite is the input: reading on from `t >= b`
/// appends the input's bytes.
pub proof fn lemma_partial_extend(entries: Seq<RewriteEntry>, x: Seq<u8>, b: int, t: int, t2: int)
    requires
        occurrences_apart(entry_needles(entries), x),
        0 <= b <= t <= t2 <= x.len(),
    ensures
        partial(entries, x, b).take(t) + x.subrange(t, t2) == partial(entries, x, b).take(t2),
{
    assert forall|k: int| t <= k < t2 implies partial(entries, x, b)[k] == x[k] by {
        lemma_partial_at(entries, x, b, k);
    }
    assert(partial(entries, x, b).take(t) + x.subrange(t, t2) =~= partial(entries, x, b).take(t2));
}

/// With nothing rewritten yet the partial rewrite is the input itself.
pub proof fn lemma_partial_none(entries: Seq<RewriteEntry>, x: Seq<u8>)
    requires
        stream_rewritable(entries, x),
    ensures
        partial(entries, x, 0) == x,
        partial_positions(entries, x, 0) == Set::<u64>::empty(),
{
    assert forall|k: int| 0 <= k < x.len() implies partial(entries, x, 0)[k] == x[k] by {
        lemma_partial_at(entries, x, 0, k);
        assert forall|i: int, p: int| !#[trigger] covers(entries, x, 0, k, i, p) by {
            if covers(entries, x, 0, k, i, p) {
                assert(entry_needles(entries)[i].len() > 0);
            }
        }
    }
    assert(partial(entries, x, 0) =~= x);
    assert forall|q: u64| !#[trigger] partial_positions(entries, x, 0).contains(q) by {
        if partial_positions(entries, x, 0).contains(q) {
            let i = choose|i: int|
                0 <= i < entries.len() && entries[i].record_positions && #[trigger] occurs_at(
                    x,
                    entry_needles(entries)[i],
                    q as int,
                ) && q + entry_needles(entries)[i].len() <= 0;
            assert(entry_needles(entries)[i].len() > 0);
        }
    }
    assert(partial_positions(entries, x, 0) =~= Set::<u64>::empty());
}

/// Rewriting the whole input in one go, with a searcher's output that
/// misses nothing, gives the input with every occurrence rewritten.
pub proof fn lemma_one_shot(entries: Seq<RewriteEntry>, x: Seq<u8>, ms: Seq<Match>)
    requires
        stream_rewritable(entries, x),
        x.len() <= u64::MAX,
        matches_valid(entry_needles(entries), x, ms),
        matches_complete(entry_needles(entries), x, ms),
    ensures
        rewritten(entries, x, ms) == partial(entries, x, x.len() as int),
        rewrite_positions(entries, x, 0, ms) == partial_positions(entries, x, x.len() as int),
{
    lemma_partial_none(entries, x);
    assert(partial(entries, x, 0).subrange(0, x.len() as int) =~= x);
    lemma_window_rewrite(entries, x, 0, 0, x.len() as int, ms);
    assert(partial(entries, x, 0).take(0) =~= Seq::<u8>::empty());
    assert(Seq::<u8>::empty() + rewritten(entries, x, ms) =~= rewritten(entries, x, ms));
    assert(partial(entries, x, x.len() as int).take(x.len() as int) =~= partial(entries, x, x.len() as int));
    assert(Set::<u64>::empty() + rewrite_positions(entries, x, 0, ms) =~= rewrite_positions(entries, x, 0, ms));
}

/// The flags after scanning `x` up to offset `b`, starting from `flags0`:
/// a candidate is flagged if it was before, or occurs in `x` ending by `b`.
pub open spec fn seen_flags(cands: Seq<Seq<u8>>, flags0: Seq<bool>, x: Seq<u8>, b: int) -> Seq<bool> {
    Seq::new(
        flags0.len(),
        |i: int| flags0[i] || exists|p: int| #[trigger] occurs_at(x, cands[i], p) && p + cands[i].len() <= b,
    )
}

/// Scanning the window `[a, e)` of `x` with a searcher's output that
/// misses nothing, after `x` was seen up to `b`, sees `x` up to `e`, when
/// the window starts at or before every occurrence that ends after `b`.
pub proof fn lemma_window_scan(
    cands: Seq<Seq<u8>>,
    flags0: Seq<bool>,
    x: Seq<u8>,
    b: int,
    a: int,
    e: int,
    ms: Seq<Match>,
)
    requires
        forall|i: int| 0 <= i < cands.len() ==> #[trigger] cands[i].len() > 0,
        occurrences_apart(cands, x),
        flags0.len() == cands.len(),
        0 <= a <= b <= e <= x.len(),
        forall|i: int, p: int|
            0 <= i < cands.len() && #[trigger] occurs_at(x, cands[i], p) && p + cands[i].len() > b ==> p >= a,
        matches_valid(cands, x.subrange(a, e), ms),
        matches_complete(cands, x.subrange(a, e), ms),
    ensures
        scan_flags(seen_flags(cands, flags0, x, b), ms) == seen_flags(cands, flags0, x, e),
{
    let f = seen_flags(cands, flags0, x, b);
    let g = scan_flags(f, ms);
    let h = seen_flags(cands, flags0, x, e);
    let w = x.subrange(a, e);
    assert forall|i: int| 0 <= i < g.len() implies g[i] == h[i] by {
        if exists|j: int| 0 <= j < ms.len() && #[trigger] ms[j].pat_idx == i {
            let j = choose|j: int| 0 <= j < ms.len() && #[trigger] ms[j].pat_idx == i;
            assert(match_fits(cands, w, ms[j]));
            lemma_window_occurs(x, a, e, cands[i], ms[j].start as int);
            let p = a + ms[j].start;
            assert(occurs_at(x.take(e), cands[i], p));
            assert(x.take(e).subrange(p, p + cands[i].len()) =~= x.subrange(p, p + cands[i].len()));
            assert(occurs_at(x, cands[i], p));
        }
        if exists|p: int| #[trigger] occurs_at(x, cands[i], p) && p + cands[i].len() <= e {
            let p = choose|p: int| #[trigger] occurs_at(x, cands[i], p) && p + cands[i].len() <= e;
            if p + cands[i].len() > b {
                assert(p >= a);
                assert(x.take(e).subrange(p, p + cands[i].len()) =~= x.subrange(p, p + cands[i].len()));
                lemma_window_occurs(x, a, e, cands[i], p - a);
                assert(cands[i].len() > 0);
                let j = choose|j: int| 0 <= j < ms.len() && overlaps(cands, cands[i].len() as int, p - a, #[trigger] ms[j]);
                assert(match_fits(cands, w, ms[j]));
                let k = ms[j].pat_idx as int;
                let q = a + ms[j].start;
                lemma_window_occurs(x, a, e, cands[k], ms[j].start as int);
                assert(x.take(e).subrange(q, q + cands[k].len()) =~= x.subrange(q, q + cands[k].len()));
                assert(occurs_at(x, cands[k], q));
                if k != i || q != p {
                    assert(p + cands[i].len() <= q || q + cands[k].len() <= p);
                }
                assert(ms[j].pat_idx == i);
            }
        }
    }
    assert(g =~= h);
}

/// With nothing scanned yet, the flags are the starting flags.
pub proof fn lemma_seen_none(cands: Seq<Seq<u8>>, flags0: Seq<bool>, x: Seq<u8>)
    requires
        forall|i: int| 0 <= i < cands.len() ==> #[trigger] cands[i].len() > 0,
        flags0.len() == cands.len(),
    ensures
        seen_flags(cands, flags0, x, 0) == flags0,
{
    assert forall|i: int| 0 <= i < flags0.len() implies seen_flags(cands, flags0, x, 0)[i] == flags0[i] by {
        assert(cands[i].len() > 0);
    }
    assert(seen_flags(cands, flags0, x, 0) =~= flags0);
}

} // verus!
