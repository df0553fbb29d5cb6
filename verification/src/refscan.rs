//! Scanning for, and in-place rewriting of, known store path references.
//!
//! The multi-pattern searcher that locates the needles lives outside this
//! library: every operation here takes the occurrences it reported as a list
//! of [`Match`]es and is specified for every list that satisfies
//! [`matches_valid`] (each match is a real occurrence of its needle, and the
//! matches are ordered and non-overlapping).

use crate::sorted::{insert_sorted, strictly_sorted};
use std::collections::BTreeSet;
use vstd::prelude::*;

verus! {

broadcast use {vstd::std_specs::btree::group_btree_axioms, vstd::laws_cmp::group_laws_cmp};

/// One occurrence reported by a multi-pattern searcher: needle number
/// `pat_idx` starts at byte offset `start` of the haystack.
#[derive(Clone, Copy, Debug, PartialEq, Eq)]
pub struct Match {
    pub pat_idx: usize,
    pub start: usize,
}

/// `needle` occurs in `hay` at byte offset `start`.
pub open spec fn occurs_at(hay: Seq<u8>, needle: Seq<u8>, start: int) -> bool {
    &&& 0 <= start
    &&& start + needle.len() <= hay.len()
    &&& hay.subrange(start, start + needle.len()) == needle
}

/// The match names an existing needle, which really occurs where it says.
pub open spec fn match_fits(needles: Seq<Seq<u8>>, hay: Seq<u8>, m: Match) -> bool {
    &&& m.pat_idx < needles.len()
    &&& occurs_at(hay, needles[m.pat_idx as int], m.start as int)
}

/// End offset (exclusive) of a match.
pub open spec fn match_end(needles: Seq<Seq<u8>>, m: Match) -> int {
    m.start + needles[m.pat_idx as int].len()
}

/// What a searcher reports: real occurrences, left to right, none overlapping
/// another.
pub open spec fn matches_valid(needles: Seq<Seq<u8>>, hay: Seq<u8>, ms: Seq<Match>) -> bool {
    &&& forall|j: int| 0 <= j < ms.len() ==> match_fits(needles, hay, #[trigger] ms[j])
    &&& forall|j: int, k: int|
        0 <= j < k < ms.len() ==> match_end(needles, #[trigger] ms[j]) <= #[trigger] ms[k].start
}

/// Length of the longest needle (0 when there are none).
pub open spec fn max_len(s: Seq<Seq<u8>>) -> nat
    decreases s.len(),
{
    if s.len() == 0 {
        0
    } else {
        let m = max_len(s.drop_last());
        if m >= s.last().len() {
            m
        } else {
            s.last().len()
        }
    }
}

/// No needle is longer than [`max_len`].
pub proof fn lemma_max_len_bounds(s: Seq<Seq<u8>>)
    ensures
        forall|i: int| 0 <= i < s.len() ==> #[trigger] s[i].len() <= max_len(s),
        s.len() == 0 ==> max_len(s) == 0,
        s.len() > 0 ==> exists|i: int| 0 <= i < s.len() && #[trigger] s[i].len() == max_len(s),
    decreases s.len(),
{
    if s.len() > 0 {
        lemma_max_len_bounds(s.drop_last());
        assert forall|i: int| 0 <= i < s.len() implies #[trigger] s[i].len() <= max_len(s) by {
            if i < s.len() - 1 {
                assert(s[i] == s.drop_last()[i]);
            }
        }
        if max_len(s.drop_last()) >= s.last().len() && s.len() > 1 {
            let i = choose|i: int|
                0 <= i < s.drop_last().len() && #[trigger] s.drop_last()[i].len() == max_len(
                    s.drop_last(),
                );
            assert(s[i] == s.drop_last()[i]);
        }
    }
}

/// The byte contents of a list of byte vectors.
pub open spec fn bytes_view(v: Seq<Vec<u8>>) -> Seq<Seq<u8>> {
    v.map_values(|b: Vec<u8>| b@)
}

/// Longest length among `v`, computed as a left fold with `max`.
fn longest_of(v: &Vec<Vec<u8>>) -> (r: usize)
    ensures
        r == max_len(bytes_view(v@)),
{
    let mut longest: usize = 0;
    let mut i: usize = 0;
    while i < v.len()
        invariant
            i <= v.len(),
            longest == max_len(bytes_view(v@).take(i as int)),
        decreases v.len() - i,
    {
        assert(bytes_view(v@).take(i + 1).drop_last() =~= bytes_view(v@).take(i as int));
        if v[i].len() > longest {
            longest = v[i].len();
        }
        i = i + 1;
    }
    assert(bytes_view(v@).take(i as int) =~= bytes_view(v@));
    longest
}

/// Byte-wise equality of `needle` with `hay[start..start + needle.len()]`.
fn occurs_at_exec(hay: &[u8], needle: &[u8], start: usize) -> (r: bool)
    ensures
        r == occurs_at(hay@, needle@, start as int),
{
    if start > hay.len() || needle.len() > hay.len() - start {
        return false;
    }
    let mut t: usize = 0;
    while t < needle.len()
        invariant
            start + needle.len() <= hay.len(),
            t <= needle.len(),
            forall|x: int| 0 <= x < t ==> hay@[start + x] == needle@[x],
        decreases needle.len() - t,
    {
        if hay[start + t] != needle[t] {
            assert(hay@.subrange(start as int, start + needle.len())[t as int] != needle@[t as int]);
            return false;
        }
        t = t + 1;
    }
    assert(hay@.subrange(start as int, start + needle.len()) =~= needle@);
    true
}

/// Whether the list of matches is real ([`matches_valid`]): the check of
/// [`check_matches`] before it asks about completeness.
fn check_matches_valid(needles: &Vec<Vec<u8>>, hay: &[u8], ms: &[Match]) -> (r: bool)
    ensures
        r == matches_valid(bytes_view(needles@), hay@, ms@),
{
    let ghost nv = bytes_view(needles@);
    let mut i: usize = 0;
    while i < ms.len()
        invariant
            nv == bytes_view(needles@),
            i <= ms.len(),
            forall|j: int| 0 <= j < i ==> match_fits(nv, hay@, #[trigger] ms@[j]),
            forall|j: int, k: int|
                0 <= j < k < i ==> match_end(nv, #[trigger] ms@[j]) <= #[trigger] ms@[k].start,
        decreases ms.len() - i,
    {
        let m = ms[i];
        if m.pat_idx >= needles.len() {
            return false;
        }
        if !occurs_at_exec(hay, needles[m.pat_idx].as_slice(), m.start) {
            return false;
        }
        if i > 0 {
            let p = ms[i - 1];
            assert(p == ms@[i - 1]);
            assert(match_fits(nv, hay@, ms@[i - 1]));
            let nl = needles[p.pat_idx].len();
            assert(nl == nv[p.pat_idx as int].len());
            assert(p.start + nl <= hay@.len());
            let hl = hay.len();
            let pend = p.start + nl;
            if pend > m.start {
                assert(match_end(nv, ms@[i - 1]) > ms@[i as int].start);
                return false;
            }
            assert forall|j: int, k: int|
                0 <= j < k < i + 1 implies match_end(nv, #[trigger] ms@[j]) <= #[trigger] ms@[k].start by {
                if k == i && j < i - 1 {
                    assert(match_end(nv, ms@[j]) <= ms@[i - 1].start);
                }
            }
        }
        i = i + 1;
    }
    true
}

/// The occurrence of a needle of length `len` at `p` shares a byte with the
/// match `m`.
pub open spec fn overlaps(needles: Seq<Seq<u8>>, len: int, p: int, m: Match) -> bool {
    m.start < p + len && p < match_end(needles, m)
}

/// The searcher missed no occurrence: every occurrence of a non-empty needle
/// shares a byte with a reported match.
pub open spec fn matches_complete(needles: Seq<Seq<u8>>, hay: Seq<u8>, ms: Seq<Match>) -> bool {
    forall|i: int, p: int|
        0 <= i < needles.len() && needles[i].len() > 0 && #[trigger] occurs_at(hay, needles[i], p)
            ==> exists|j: int| 0 <= j < ms.len() && overlaps(needles, needles[i].len() as int, p, #[trigger] ms[j])
}

/// Decides whether a searcher's output is what the scanning and rewriting
/// operations take: real occurrences, ordered and non-overlapping
/// ([`matches_valid`]), none missed ([`matches_complete`]).
pub fn check_matches(needles: &Vec<Vec<u8>>, hay: &[u8], ms: &[Match]) -> (r: bool)
    ensures
        r == (matches_valid(bytes_view(needles@), hay@, ms@) && matches_complete(bytes_view(needles@), hay@, ms@)),
{
    if !check_matches_valid(needles, hay, ms) {
        return false;
    }
    let ghost nv = bytes_view(needles@);
    let mut p: usize = 0;
    while p < hay.len()
        invariant
            p <= hay@.len(),
            nv == bytes_view(needles@),
            matches_valid(nv, hay@, ms@),
            forall|i: int, q: int|
                0 <= i < nv.len() && 0 <= q < p && nv[i].len() > 0 && #[trigger] occurs_at(hay@, nv[i], q)
                    ==> exists|j: int| 0 <= j < ms@.len() && overlaps(nv, nv[i].len() as int, q, #[trigger] ms@[j]),
        decreases hay@.len() - p,
    {
        let mut i: usize = 0;
        while i < needles.len()
            invariant
                nv == bytes_view(needles@),
                matches_valid(nv, hay@, ms@),
                p <= hay@.len(),
                i <= nv.len(),
                forall|k: int, q: int|
                    0 <= k < nv.len() && 0 <= q < p && nv[k].len() > 0 && #[trigger] occurs_at(hay@, nv[k], q)
                        ==> exists|j: int| 0 <= j < ms@.len() && overlaps(nv, nv[k].len() as int, q, #[trigger] ms@[j]),
                forall|k: int|
                    0 <= k < i && nv[k].len() > 0 && #[trigger] occurs_at(hay@, nv[k], p as int)
                        ==> exists|j: int| 0 <= j < ms@.len() && overlaps(nv, nv[k].len() as int, p as int, #[trigger] ms@[j]),
            decreases nv.len() - i,
        {
            assert(nv[i as int] == needles@[i as int]@);
            let len = needles[i].len();
            if len > 0 && occurs_at_exec(hay, needles[i].as_slice(), p) {
                let mut found = false;
                let mut j: usize = 0;
                let hl: usize = hay.len();
                assert(hay@.len() == hl);
                while j < ms.len()
                    invariant
                        nv == bytes_view(needles@),
                        matches_valid(nv, hay@, ms@),
                        i < nv.len(),
                        len == nv[i as int].len(),
                        p + len <= hay@.len(),
                        hay@.len() <= usize::MAX,
                        j <= ms@.len(),
                        found ==> exists|x: int| 0 <= x < ms@.len() && overlaps(nv, len as int, p as int, #[trigger] ms@[x]),
                        !found ==> forall|x: int| 0 <= x < j ==> !overlaps(nv, len as int, p as int, #[trigger] ms@[x]),
                    decreases ms@.len() - j,
                {
                    let m = ms[j];
                    assert(match_fits(nv, hay@, ms@[j as int]));
                    assert(nv[m.pat_idx as int] == needles@[m.pat_idx as int]@);
                    assert(m.start + nv[m.pat_idx as int].len() <= hay@.len());
                    let end = m.start + needles[m.pat_idx].len();
                    if m.start < p + len && p < end {
                        found = true;
                        assert(overlaps(nv, len as int, p as int, ms@[j as int]));
                    }
                    j = j + 1;
                }
                if !found {
                    assert(occurs_at(hay@, nv[i as int], p as int));
                    return false;
                }
            }
            i = i + 1;
        }
        p = p + 1;
    }
    proof {
        assert forall|i: int, q: int|
            0 <= i < nv.len() && nv[i].len() > 0 && #[trigger] occurs_at(hay@, nv[i], q)
                implies exists|j: int| 0 <= j < ms@.len() && overlaps(nv, nv[i].len() as int, q, #[trigger] ms@[j]) by {
            assert(q < p);
        }
    }
    true
}

/// The first non-empty needle, from number `k` on, that occurs at `i`.
pub open spec fn first_hit(needles: Seq<Seq<u8>>, hay: Seq<u8>, i: int, k: int) -> Option<int>
    decreases needles.len() - k,
{
    if k < 0 || k >= needles.len() {
        None
    } else if needles[k].len() > 0 && occurs_at(hay, needles[k], i) {
        Some(k)
    } else {
        first_hit(needles, hay, i, k + 1)
    }
}

/// A hit is a non-empty needle that occurs there.
pub proof fn lemma_first_hit(needles: Seq<Seq<u8>>, hay: Seq<u8>, i: int, k: int)
    requires
        0 <= k,
    ensures
        first_hit(needles, hay, i, k) matches Some(x) ==> k <= x < needles.len() && needles[x].len() > 0
            && occurs_at(hay, needles[x], i),
        first_hit(needles, hay, i, k) is None ==> forall|x: int|
            k <= x < needles.len() && needles[x].len() > 0 ==> !#[trigger] occurs_at(hay, needles[x], i),
    decreases needles.len() - k,
{
    if 0 <= k < needles.len() && !(needles[k].len() > 0 && occurs_at(hay, needles[k], i)) {
        lemma_first_hit(needles, hay, i, k + 1);
    }
}

/// The matches [`find_matches`] reports from offset `i` on: at each offset
/// the first needle that occurs there, going on after it, or else on at the
/// next offset.
pub open spec fn greedy_matches(needles: Seq<Seq<u8>>, hay: Seq<u8>, i: int) -> Seq<Match>
    decreases hay.len() - i,
{
    if i < 0 || i >= hay.len() {
        Seq::empty()
    } else {
        match first_hit(needles, hay, i, 0) {
            Some(k) => {
                proof {
                    lemma_first_hit(needles, hay, i, 0);
                }
                seq![Match { pat_idx: k as usize, start: i as usize }] + greedy_matches(
                    needles,
                    hay,
                    i + needles[k].len(),
                )
            },
            None => greedy_matches(needles, hay, i + 1),
        }
    }
}

/// A searcher: the leftmost occurrences, left to right, each the first
/// listed non-empty needle that occurs where the search stands, the search
/// going on after it. What it reports is real and misses nothing.
pub fn find_matches(needles: &Vec<Vec<u8>>, hay: &[u8]) -> (r: Vec<Match>)
    ensures
        r@ == greedy_matches(bytes_view(needles@), hay@, 0),
        matches_valid(bytes_view(needles@), hay@, r@),
        matches_complete(bytes_view(needles@), hay@, r@),
{
    let ghost nv = bytes_view(needles@);
    let mut ms: Vec<Match> = Vec::new();
    let mut i: usize = 0;
    while i < hay.len()
        invariant
            nv == bytes_view(needles@),
            i <= hay@.len(),
            forall|j: int| 0 <= j < ms@.len() ==> match_fits(nv, hay@, #[trigger] ms@[j]),
            forall|j: int, k: int|
                0 <= j < k < ms@.len() ==> match_end(nv, #[trigger] ms@[j]) <= #[trigger] ms@[k].start,
            forall|j: int| 0 <= j < ms@.len() ==> match_end(nv, #[trigger] ms@[j]) <= i,
            forall|k: int, q: int|
                0 <= k < nv.len() && 0 <= q < i && nv[k].len() > 0 && #[trigger] occurs_at(hay@, nv[k], q)
                    ==> exists|j: int| 0 <= j < ms@.len() && overlaps(nv, nv[k].len() as int, q, #[trigger] ms@[j]),
            ms@ + greedy_matches(nv, hay@, i as int) == greedy_matches(nv, hay@, 0),
        decreases hay@.len() - i,
    {
        let mut k: usize = 0;
        let mut hit: Option<usize> = None;
        while k < needles.len()
            invariant_except_break
                hit is None,
            invariant
                nv == bytes_view(needles@),
                i < hay@.len(),
                k <= nv.len(),
                hit matches Some(x) ==> x < nv.len() && nv[x as int].len() > 0 && occurs_at(hay@, nv[x as int], i as int),
                hit is None ==> forall|x: int| 0 <= x < k && nv[x].len() > 0 ==> !#[trigger] occurs_at(hay@, nv[x], i as int),
                hit matches Some(x) ==> first_hit(nv, hay@, i as int, 0) == Some(x as int),
                hit is None ==> first_hit(nv, hay@, i as int, 0) == first_hit(nv, hay@, i as int, k as int),
            ensures
                hit matches Some(x) ==> first_hit(nv, hay@, i as int, 0) == Some(x as int),
                hit is None ==> first_hit(nv, hay@, i as int, 0) is None,
                hit matches Some(x) ==> x < nv.len() && nv[x as int].len() > 0 && occurs_at(hay@, nv[x as int], i as int),
                hit is None ==> forall|x: int| 0 <= x < nv.len() && nv[x].len() > 0 ==> !#[trigger] occurs_at(hay@, nv[x], i as int),
            decreases nv.len() - k,
        {
            assert(nv[k as int] == needles@[k as int]@);
            if needles[k].len() > 0 && occurs_at_exec(hay, needles[k].as_slice(), i) {
                assert(first_hit(nv, hay@, i as int, k as int) == Some(k as int));
                hit = Some(k);
                break;
            }
            k = k + 1;
        }
        match hit {
            Some(x) => {
                assert(nv[x as int] == needles@[x as int]@);
                let len = needles[x].len();
                let m = Match { pat_idx: x, start: i };
                let ghost before = ms@;
                ms.push(m);
                proof {
                    assert(ms@[before.len() as int] == m);
                    assert(match_fits(nv, hay@, m));
                    assert forall|j: int| 0 <= j < ms@.len() implies match_fits(nv, hay@, #[trigger] ms@[j]) by {
                        if j < before.len() {
                            assert(ms@[j] == before[j]);
                        }
                    }
                    assert forall|j: int, k2: int|
                        0 <= j < k2 < ms@.len() implies match_end(nv, #[trigger] ms@[j]) <= #[trigger] ms@[k2].start by {
                        assert(ms@[j] == before[j]);
                        if k2 < before.len() {
                            assert(ms@[k2] == before[k2]);
                        }
                    }
                    assert forall|k2: int, q: int|
                        0 <= k2 < nv.len() && 0 <= q < i + len && nv[k2].len() > 0 && #[trigger] occurs_at(hay@, nv[k2], q)
                            implies exists|j: int| 0 <= j < ms@.len() && overlaps(nv, nv[k2].len() as int, q, #[trigger] ms@[j]) by {
                        if q < i {
                            let j = choose|j: int| 0 <= j < before.len() && overlaps(nv, nv[k2].len() as int, q, #[trigger] before[j]);
                            assert(ms@[j] == before[j]);
                        } else {
                            assert(overlaps(nv, nv[k2].len() as int, q, ms@[before.len() as int]));
                        }
                    }
                    assert forall|j: int| 0 <= j < ms@.len() implies match_end(nv, #[trigger] ms@[j]) <= i + len by {
                        if j < before.len() {
                            assert(ms@[j] == before[j]);
                        }
                    }
                }
                proof {
                    assert(greedy_matches(nv, hay@, i as int) == seq![m] + greedy_matches(
                        nv,
                        hay@,
                        i + len,
                    ));
                    assert(ms@ + greedy_matches(nv, hay@, i + len) =~= before + (seq![m] + greedy_matches(
                        nv,
                        hay@,
                        i + len,
                    )));
                }
                i = i + len;
            },
            None => {
                assert(greedy_matches(nv, hay@, i as int) == greedy_matches(nv, hay@, i + 1));
                i = i + 1;
            },
        }
    }
    assert(greedy_matches(nv, hay@, i as int) =~= Seq::<Match>::empty());
    assert(ms@ + Seq::<Match>::empty() =~= ms@);
    proof {
        assert forall|k: int, q: int|
            0 <= k < nv.len() && nv[k].len() > 0 && #[trigger] occurs_at(hay@, nv[k], q)
                implies exists|j: int| 0 <= j < ms@.len() && overlaps(nv, nv[k].len() as int, q, #[trigger] ms@[j]) by {
            assert(q < i);
        }
    }
    ms
}

// ---------------------------------------------------------------------------
// Reference scanning
// ---------------------------------------------------------------------------

/// The candidates a scanner looks for, with the length of the longest one.
pub struct ReferencePattern {
    candidates: Vec<Vec<u8>>,
    longest_candidate: usize,
}

impl View for ReferencePattern {
    type V = Seq<Seq<u8>>;

    closed spec fn view(&self) -> Seq<Seq<u8>> {
        bytes_view(self.candidates@)
    }
}

impl ReferencePattern {
    #[verifier::type_invariant]
    spec fn inv(self) -> bool {
        self.longest_candidate == max_len(bytes_view(self.candidates@))
    }

    /// Builds a pattern that scans for the given candidates.
    pub fn new(candidates: Vec<Vec<u8>>) -> (r: Self)
        ensures
            r@ == bytes_view(candidates@),
    {
        let longest_candidate = longest_of(&candidates);
        ReferencePattern { candidates, longest_candidate }
    }

    /// The candidates, in the order they were given.
    pub fn candidates(&self) -> (r: &Vec<Vec<u8>>)
        ensures
            bytes_view(r@) == self@,
    {
        &self.candidates
    }

    /// Length of the longest candidate (0 without candidates).
    pub fn longest_candidate(&self) -> (r: usize)
        ensures
            r == max_len(self@),
    {
        proof {
            use_type_invariant(self);
        }
        self.longest_candidate
    }
}

/// The flags after one scan: every candidate that was reported gets
/// flagged.
pub open spec fn scan_flags(flags: Seq<bool>, ms: Seq<Match>) -> Seq<bool> {
    Seq::new(
        flags.len(),
        |i: int| flags[i] || exists|j: int| 0 <= j < ms.len() && #[trigger] ms[j].pat_idx == i,
    )
}

/// Scanning never clears a flag.
pub proof fn lemma_scan_flags_keep(flags: Seq<bool>, ms: Seq<Match>, i: int)
    requires
        0 <= i < flags.len(),
        flags[i],
    ensures
        scan_flags(flags, ms)[i],
{
}

/// A candidate that a scan flags, and that was not flagged before, occurs in
/// the scanned haystack, when the searcher reported real occurrences.
pub proof fn lemma_scan_flags_sound(
    cands: Seq<Seq<u8>>,
    flags: Seq<bool>,
    hay: Seq<u8>,
    ms: Seq<Match>,
    i: int,
)
    requires
        matches_valid(cands, hay, ms),
        0 <= i < flags.len(),
        !flags[i],
        scan_flags(flags, ms)[i],
    ensures
        i < cands.len(),
        exists|s: int| occurs_at(hay, cands[i], s),
{
    let j = choose|j: int| 0 <= j < ms.len() && #[trigger] ms[j].pat_idx == i;
    assert(match_fits(cands, hay, ms[j]));
    assert(occurs_at(hay, cands[i], ms[j].start as int));
}

/// Occurrences of the candidates in `hay` keep apart: any two of them
/// (of different candidates, or at different places) share no byte.
pub open spec fn occurrences_apart(cands: Seq<Seq<u8>>, hay: Seq<u8>) -> bool {
    forall|i: int, p: int, j: int, q: int|
        0 <= i < cands.len() && 0 <= j < cands.len() && #[trigger] occurs_at(hay, cands[i], p)
            && #[trigger] occurs_at(hay, cands[j], q) && (i != j || p != q) ==> p + cands[i].len() <= q || q
            + cands[j].len() <= p
}

/// With a report that misses nothing, a scan flags every candidate that
/// occurs in the haystack, when no candidate is empty and occurrences of
/// candidates keep apart.
pub proof fn lemma_scan_flags_complete(
    cands: Seq<Seq<u8>>,
    flags: Seq<bool>,
    hay: Seq<u8>,
    ms: Seq<Match>,
    i: int,
    p: int,
)
    requires
        matches_valid(cands, hay, ms),
        matches_complete(cands, hay, ms),
        forall|k: int| 0 <= k < cands.len() ==> #[trigger] cands[k].len() > 0,
        occurrences_apart(cands, hay),
        flags.len() == cands.len(),
        0 <= i < cands.len(),
        occurs_at(hay, cands[i], p),
    ensures
        scan_flags(flags, ms)[i],
{
    assert(cands[i].len() > 0);
    let j = choose|j: int| 0 <= j < ms.len() && overlaps(cands, cands[i].len() as int, p, #[trigger] ms[j]);
    let m = ms[j];
    assert(match_fits(cands, hay, m));
    let k = m.pat_idx as int;
    let q = m.start as int;
    assert(occurs_at(hay, cands[k], q));
    assert(cands[k].len() > 0);
    if k != i || q != p {
        assert(p + cands[i].len() <= q || q + cands[k].len() <= p);
    }
    assert(ms[j].pat_idx == i);
}

/// A scanner primed with a pattern, remembering which candidates were seen.
pub struct ReferenceScanner {
    pattern: ReferencePattern,
    matches: Vec<bool>,
}

impl ReferenceScanner {
    /// One flag per candidate.
    pub closed spec fn wf(self) -> bool {
        self.matches@.len() == self.pattern@.len()
    }

    /// The candidates scanned for.
    pub closed spec fn candidates_view(self) -> Seq<Seq<u8>> {
        self.pattern@
    }

    /// For each candidate, whether it has been seen.
    pub closed spec fn flags(self) -> Seq<bool> {
        self.matches@
    }

    /// A well-formed scanner has one flag per candidate.
    pub proof fn lemma_flag_count(self)
        requires
            self.wf(),
        ensures
            self.flags().len() == self.candidates_view().len(),
    {
    }

    /// A scanner for `pattern` that has seen nothing yet.
    pub fn new(pattern: ReferencePattern) -> (r: Self)
        ensures
            r.wf(),
            r.candidates_view() == pattern@,
            r.flags() == Seq::new(pattern@.len(), |i: int| false),
    {
        let n = pattern.candidates().len();
        let mut matches: Vec<bool> = Vec::new();
        let mut i: usize = 0;
        while i < n
            invariant
                i <= n,
                matches@ == Seq::new(i as nat, |k: int| false),
            decreases n - i,
        {
            matches.push(false);
            i = i + 1;
            assert(matches@ =~= Seq::new(i as nat, |k: int| false));
        }
        ReferenceScanner { pattern, matches }
    }

    /// Records the candidates that `found` (the searcher's output on
    /// `haystack`) reports.
    pub fn scan(&mut self, haystack: &[u8], found: &[Match])
        requires
            old(self).wf(),
            matches_valid(old(self).candidates_view(), haystack@, found@),
            matches_complete(old(self).candidates_view(), haystack@, found@),
        ensures
            final(self).wf(),
            final(self).candidates_view() == old(self).candidates_view(),
            final(self).flags() == scan_flags(old(self).flags(), found@),
    {
        let ghost old_flags = self.matches@;
        let ghost n = old_flags.len();
        let mut j: usize = 0;
        while j < found.len()
            invariant
                self.matches@.len() == n,
                self.pattern@.len() == n,
                self.pattern@ == old(self).pattern@,
                old_flags == old(self).matches@,
                j <= found.len(),
                matches_valid(self.pattern@, haystack@, found@),
                forall|i: int|
                    0 <= i < n ==> #[trigger] self.matches@[i] == (old_flags[i] || exists|k: int|
                        0 <= k < j && #[trigger] found@[k].pat_idx == i),
            decreases found.len() - j,
        {
            let m = found[j];
            assert(match_fits(self.pattern@, haystack@, found@[j as int]));
            self.matches.set(m.pat_idx, true);
            assert forall|i: int| 0 <= i < n implies #[trigger] self.matches@[i] == (old_flags[i]
                || exists|k: int| 0 <= k < j + 1 && #[trigger] found@[k].pat_idx == i) by {
                if i == m.pat_idx {
                    assert(found@[j as int].pat_idx == i);
                } else {
                    if exists|k: int| 0 <= k < j + 1 && #[trigger] found@[k].pat_idx == i {
                        let k = choose|k: int| 0 <= k < j + 1 && #[trigger] found@[k].pat_idx == i;
                        assert(k != j);
                    }
                }
            }
            j = j + 1;
        }
        assert(self.matches@ =~= scan_flags(old_flags, found@));
    }

    /// The pattern this scanner looks for.
    pub fn pattern(&self) -> (r: &ReferencePattern)
        ensures
            r@ == self.candidates_view(),
    {
        &self.pattern
    }

    /// Which candidates have been seen so far.
    pub fn matches(&self) -> (r: Vec<bool>)
        ensures
            r@ == self.flags(),
    {
        let mut r: Vec<bool> = Vec::new();
        let mut i: usize = 0;
        while i < self.matches.len()
            invariant
                i <= self.matches@.len(),
                r@ == self.matches@.take(i as int),
            decreases self.matches@.len() - i,
        {
            r.push(self.matches[i]);
            i = i + 1;
            assert(r@ =~= self.matches@.take(i as int));
        }
        assert(r@ =~= self.matches@);
        r
    }

    /// The candidates that have been seen, in candidate order.
    pub fn candidate_matches(&self) -> (r: Vec<Vec<u8>>)
        requires
            self.wf(),
        ensures
            bytes_view(r@) == seen_candidates(self.candidates_view(), self.flags()),
    {
        let cands = self.pattern.candidates();
        let mut r: Vec<Vec<u8>> = Vec::new();
        let mut i: usize = 0;
        while i < self.matches.len()
            invariant
                self.matches@.len() == cands@.len(),
                bytes_view(cands@) == self.pattern@,
                i <= self.matches@.len(),
                bytes_view(r@) == seen_candidates(
                    self.pattern@.take(i as int),
                    self.matches@.take(i as int),
                ),
            decreases self.matches@.len() - i,
        {
            assert(self.pattern@.take(i + 1).drop_last() =~= self.pattern@.take(i as int));
            assert(self.matches@.take(i + 1).drop_last() =~= self.matches@.take(i as int));
            if self.matches[i] {
                let c = copy_bytes(&cands[i]);
                r.push(c);
            }
            i = i + 1;
            assert(bytes_view(r@) =~= seen_candidates(
                self.pattern@.take(i as int),
                self.matches@.take(i as int),
            ));
        }
        assert(self.pattern@.take(i as int) =~= self.pattern@);
        assert(self.matches@.take(i as int) =~= self.matches@);
        r
    }

    /// The distinct candidates that have been seen, in increasing order.
    pub fn finalise(self) -> (r: Vec<Vec<u8>>)
        requires
            self.wf(),
        ensures
            strictly_sorted(bytes_view(r@)),
            bytes_view(r@).to_set() == seen_candidates(self.candidates_view(), self.flags()).to_set(),
    {
        let seen = self.candidate_matches();
        let mut r: Vec<Vec<u8>> = Vec::new();
        let mut i: usize = 0;
        assert(bytes_view(r@).to_set() =~= Set::empty());
        assert(bytes_view(seen@).take(0).to_set() =~= Set::empty());
        while i < seen.len()
            invariant
                i <= seen@.len(),
                strictly_sorted(bytes_view(r@)),
                bytes_view(r@).to_set() == bytes_view(seen@).take(i as int).to_set(),
            decreases seen@.len() - i,
        {
            let c = copy_bytes(&seen[i]);
            insert_sorted(&mut r, c);
            assert(bytes_view(seen@).take(i + 1) =~= bytes_view(seen@).take(i as int).push(c@));
            proof {
                lemma_push_to_set(bytes_view(seen@).take(i as int), c@);
            }
            i = i + 1;
        }
        assert(bytes_view(seen@).take(i as int) =~= bytes_view(seen@));
        r
    }
}

/// The candidates whose flag is set, in candidate order.
pub open spec fn seen_candidates(cands: Seq<Seq<u8>>, flags: Seq<bool>) -> Seq<Seq<u8>>
    decreases cands.len(),
{
    if cands.len() == 0 || flags.len() == 0 {
        Seq::empty()
    } else if flags.last() {
        seen_candidates(cands.drop_last(), flags.drop_last()).push(cands.last())
    } else {
        seen_candidates(cands.drop_last(), flags.drop_last())
    }
}

/// A byte-by-byte copy of `v`.
pub fn copy_bytes(v: &Vec<u8>) -> (r: Vec<u8>)
    ensures
        r@ == v@,
{
    let mut r: Vec<u8> = Vec::with_capacity(v.len());
    let mut i: usize = 0;
    while i < v.len()
        invariant
            i <= v@.len(),
            r@ == v@.take(i as int),
        decreases v@.len() - i,
    {
        r.push(v[i]);
        i = i + 1;
        assert(r@ =~= v@.take(i as int));
    }
    assert(r@ =~= v@);
    r
}

/// Byte-wise equality of two byte strings.
pub fn bytes_eq(a: &[u8], b: &[u8]) -> (r: bool)
    ensures
        r == (a@ == b@),
{
    if a.len() != b.len() {
        return false;
    }
    let mut i: usize = 0;
    while i < a.len()
        invariant
            a@.len() == b@.len(),
            i <= a@.len(),
            forall|k: int| 0 <= k < i ==> a@[k] == b@[k],
        decreases a@.len() - i,
    {
        if a[i] != b[i] {
            return false;
        }
        i = i + 1;
    }
    assert(a@ =~= b@);
    true
}

/// Appending an element adds it to the set of elements.
pub proof fn lemma_push_to_set<A>(s: Seq<A>, x: A)
    ensures
        s.push(x).to_set() == s.to_set().insert(x),
{
    assert forall|a: A| s.push(x).to_set().contains(a) == s.to_set().insert(x).contains(a) by {
        if s.push(x).contains(a) && a != x {
            let k = choose|k: int| 0 <= k < s.push(x).len() && s.push(x)[k] == a;
            assert(s[k] == a);
        }
        if s.contains(a) {
            let k = choose|k: int| 0 <= k < s.len() && s[k] == a;
            assert(s.push(x)[k] == a);
        }
        if a == x {
            assert(s.push(x)[s.len() as int] == a);
        }
    }
    assert(s.push(x).to_set() =~= s.to_set().insert(x));
}

// ---------------------------------------------------------------------------
// In-place rewriting
// ---------------------------------------------------------------------------

/// A needle to look for, the bytes to write in its place, and whether the
/// absolute offset of each occurrence is recorded.
#[derive(Clone, Debug)]
pub struct RewriteEntry {
    pub needle: Vec<u8>,
    pub replacement: Vec<u8>,
    pub record_positions: bool,
}

/// The needles of a list of entries.
pub open spec fn entry_needles(entries: Seq<RewriteEntry>) -> Seq<Seq<u8>> {
    entries.map_values(|e: RewriteEntry| e.needle@)
}

/// Every replacement is as long as its needle.
pub open spec fn lengths_match(entries: Seq<RewriteEntry>) -> bool {
    forall|i: int| 0 <= i < entries.len() ==> #[trigger] entries[i].replacement@.len() == entries[i].needle@.len()
}

/// Rewrite entries with the length of the longest needle.
pub struct RewritePattern {
    entries: Vec<RewriteEntry>,
    longest_candidate: usize,
}

impl View for RewritePattern {
    type V = Seq<RewriteEntry>;

    closed spec fn view(&self) -> Seq<RewriteEntry> {
        self.entries@
    }
}

impl RewritePattern {
    #[verifier::type_invariant]
    spec fn inv(self) -> bool {
        &&& self.longest_candidate == max_len(entry_needles(self.entries@))
        &&& lengths_match(self.entries@)
    }

    /// Builds a pattern from entries whose replacements are as long as their
    /// needles, so that rewriting never moves later bytes.
    pub fn new(entries: Vec<RewriteEntry>) -> (r: Self)
        requires
            lengths_match(entries@),
        ensures
            r@ == entries@,
    {
        let mut longest: usize = 0;
        let mut i: usize = 0;
        while i < entries.len()
            invariant
                i <= entries.len(),
                longest == max_len(entry_needles(entries@).take(i as int)),
            decreases entries.len() - i,
        {
            assert(entry_needles(entries@).take(i + 1).drop_last() =~= entry_needles(entries@).take(
                i as int,
            ));
            if entries[i].needle.len() > longest {
                longest = entries[i].needle.len();
            }
            i = i + 1;
        }
        assert(entry_needles(entries@).take(i as int) =~= entry_needles(entries@));
        RewritePattern { entries, longest_candidate: longest }
    }

    /// The entries, in the order they were given.
    pub fn entries(&self) -> (r: &Vec<RewriteEntry>)
        ensures
            r@ == self@,
            lengths_match(self@),
    {
        proof {
            use_type_invariant(self);
        }
        &self.entries
    }

    /// Length of the longest needle (0 without entries).
    pub fn longest_candidate(&self) -> (r: usize)
        ensures
            r == max_len(entry_needles(self@)),
    {
        proof {
            use_type_invariant(self);
        }
        self.longest_candidate
    }
}

/// `hay` with `repl` written over it from offset `start` on.
pub open spec fn splice(hay: Seq<u8>, start: int, repl: Seq<u8>) -> Seq<u8> {
    hay.take(start) + repl + hay.skip(start + repl.len())
}

/// The haystack after writing the replacement of every match, in order.
pub open spec fn apply_rewrites(entries: Seq<RewriteEntry>, hay: Seq<u8>, ms: Seq<Match>) -> Seq<u8>
    decreases ms.len(),
{
    if ms.len() == 0 {
        hay
    } else {
        splice(
            apply_rewrites(entries, hay, ms.drop_last()),
            ms.last().start as int,
            entries[ms.last().pat_idx as int].replacement@,
        )
    }
}

/// The absolute offsets of the matches whose entry records positions.
pub open spec fn recorded_positions(entries: Seq<RewriteEntry>, base: int, ms: Seq<Match>) -> Set<u64> {
    Set::new(
        |p: u64|
            exists|j: int|
                0 <= j < ms.len() && entries[#[trigger] ms[j].pat_idx as int].record_positions && p
                    == base + ms[j].start,
    )
}

/// Whether a rewrite pass does anything: there must be needles.
pub open spec fn rewrite_runs(entries: Seq<RewriteEntry>) -> bool {
    entries.len() > 0
}

/// The haystack after a rewrite pass.
pub open spec fn rewritten(entries: Seq<RewriteEntry>, hay: Seq<u8>, ms: Seq<Match>) -> Seq<u8> {
    if rewrite_runs(entries) {
        apply_rewrites(entries, hay, ms)
    } else {
        hay
    }
}

/// The positions a rewrite pass records.
pub open spec fn rewrite_positions(entries: Seq<RewriteEntry>, hay: Seq<u8>, base: int, ms: Seq<Match>) -> Set<u64> {
    if rewrite_runs(entries) {
        recorded_positions(entries, base, ms)
    } else {
        Set::empty()
    }
}

/// A pattern without entries rewrites nothing and records no position.
pub proof fn lemma_empty_pattern_rewrites_nothing(hay: Seq<u8>, base: int, ms: Seq<Match>)
    ensures
        rewritten(Seq::empty(), hay, ms) == hay,
        rewrite_positions(Seq::empty(), hay, base, ms) == Set::<u64>::empty(),
{
}

/// With a report that misses nothing, a rewrite overwrites every
/// occurrence of a needle with its replacement, and records its offset when
/// its entry records positions, when no needle is empty and occurrences of
/// needles keep apart.
pub proof fn lemma_rewrite_complete(entries: Seq<RewriteEntry>, hay: Seq<u8>, base: int, ms: Seq<Match>, i: int, p: int)
    requires
        lengths_match(entries),
        matches_valid(entry_needles(entries), hay, ms),
        matches_complete(entry_needles(entries), hay, ms),
        forall|k: int| 0 <= k < entries.len() ==> #[trigger] entry_needles(entries)[k].len() > 0,
        occurrences_apart(entry_needles(entries), hay),
        0 <= i < entries.len(),
        occurs_at(hay, entry_needles(entries)[i], p),
    ensures
        rewritten(entries, hay, ms).subrange(p, p + entries[i].needle@.len()) == entries[i].replacement@,
        entries[i].record_positions && base + p <= u64::MAX && 0 <= base ==> rewrite_positions(
            entries,
            hay,
            base,
            ms,
        ).contains((base + p) as u64),
{
    let needles = entry_needles(entries);
    assert(needles[i].len() > 0);
    assert(needles[i] == entries[i].needle@);
    let j = choose|j: int| 0 <= j < ms.len() && overlaps(needles, needles[i].len() as int, p, #[trigger] ms[j]);
    let m = ms[j];
    assert(match_fits(needles, hay, m));
    let k = m.pat_idx as int;
    let q = m.start as int;
    assert(occurs_at(hay, needles[k], q));
    assert(needles[k].len() > 0);
    if k != i || q != p {
        assert(p + needles[i].len() <= q || q + needles[k].len() <= p);
    }
    assert(k == i && q == p);
    lemma_rewrite_pointwise(entries, hay, ms);
    let r = rewritten(entries, hay, ms);
    let len = entries[i].needle@.len() as int;
    assert(entries[i].replacement@.len() == len);
    assert forall|x: int| 0 <= x < len implies #[trigger] r.subrange(p, p + len)[x] == entries[i].replacement@[x] by {
        assert(ms[j].start <= p + x < match_end(needles, ms[j]));
        assert(r[p + x] == entries[ms[j].pat_idx as int].replacement@[p + x - ms[j].start]);
    }
    assert(r.subrange(p, p + len) =~= entries[i].replacement@);
    if entries[i].record_positions && base + p <= u64::MAX && 0 <= base {
        assert(entries[ms[j].pat_idx as int].record_positions);
        assert(recorded_positions(entries, base, ms).contains((base + p) as u64));
    }
}

/// Rewriting again bytes in which no needle occurs any more (as after a
/// pass whose replacements create no needle) changes nothing and records
/// no position: the searcher can report no match there.
pub proof fn lemma_rewrite_without_occurrences(entries: Seq<RewriteEntry>, hay: Seq<u8>, base: int, ms: Seq<Match>)
    requires
        matches_valid(entry_needles(entries), hay, ms),
        forall|i: int, p: int| 0 <= i < entries.len() ==> !#[trigger] occurs_at(hay, entry_needles(entries)[i], p),
    ensures
        ms.len() == 0,
        rewritten(entries, hay, ms) == hay,
        rewrite_positions(entries, hay, base, ms) == Set::<u64>::empty(),
{
    if ms.len() > 0 {
        assert(match_fits(entry_needles(entries), hay, ms[0]));
        assert(entry_needles(entries).len() == entries.len());
        assert(!occurs_at(hay, entry_needles(entries)[ms[0].pat_idx as int], ms[0].start as int));
    }
    assert(recorded_positions(entries, base, ms) =~= Set::<u64>::empty());
}

/// Writes `repl` over `hay` from `start` on.
fn write_at(hay: &mut Vec<u8>, start: usize, repl: &Vec<u8>)
    requires
        start + repl@.len() <= old(hay)@.len(),
    ensures
        final(hay)@ == splice(old(hay)@, start as int, repl@),
{
    let ghost h0 = hay@;
    let hl = hay.len();
    let mut t: usize = 0;
    while t < repl.len()
        invariant
            hl == h0.len(),
            start + repl@.len() <= h0.len(),
            t <= repl@.len(),
            hay@.len() == h0.len(),
            hay@ == h0.take(start as int) + repl@.take(t as int) + h0.skip(start + t),
        decreases repl@.len() - t,
    {
        let ghost before = hay@;
        hay.set(start + t, repl[t]);
        assert(hay@ =~= h0.take(start as int) + repl@.take(t + 1) + h0.skip(start + t + 1));
        t = t + 1;
    }
    assert(repl@.take(t as int) =~= repl@);
}

/// Writing within the haystack keeps its length.
proof fn lemma_apply_len(entries: Seq<RewriteEntry>, hay: Seq<u8>, ms: Seq<Match>)
    requires
        lengths_match(entries),
        matches_valid(entry_needles(entries), hay, ms),
    ensures
        apply_rewrites(entries, hay, ms).len() == hay.len(),
    decreases ms.len(),
{
    if ms.len() > 0 {
        lemma_valid_drop_last(entries, hay, ms);
        lemma_apply_len(entries, hay, ms.drop_last());
        let m = ms.last();
        assert(match_fits(entry_needles(entries), hay, ms[ms.len() - 1]));
        assert(entry_needles(entries)[m.pat_idx as int] == entries[m.pat_idx as int].needle@);
    }
}

/// A prefix of a valid match list is valid.
proof fn lemma_valid_drop_last(entries: Seq<RewriteEntry>, hay: Seq<u8>, ms: Seq<Match>)
    requires
        ms.len() > 0,
        matches_valid(entry_needles(entries), hay, ms),
    ensures
        matches_valid(entry_needles(entries), hay, ms.drop_last()),
{
    let d = ms.drop_last();
    assert forall|j: int| 0 <= j < d.len() implies match_fits(entry_needles(entries), hay, #[trigger] d[j]) by {
        assert(d[j] == ms[j]);
    }
    assert forall|j: int, k: int| 0 <= j < k < d.len() implies match_end(entry_needles(entries), #[trigger] d[j]) <= #[trigger] d[k].start by {
        assert(d[j] == ms[j] && d[k] == ms[k]);
    }
}

/// Scans the matches and overwrites each one with its replacement,
/// collecting the positions of recording entries.
pub(crate) fn rewrite_buffer_in_place(
    pattern: &RewritePattern,
    haystack: &mut Vec<u8>,
    absolute_base_offset: u64,
    found: &[Match],
    positions: &mut BTreeSet<u64>,
)
    requires
        matches_valid(entry_needles(pattern@), old(haystack)@, found@),
        absolute_base_offset + old(haystack)@.len() <= u64::MAX,
    ensures
        final(haystack)@ == rewritten(pattern@, old(haystack)@, found@),
        final(positions)@ == old(positions)@ + rewrite_positions(
            pattern@,
            old(haystack)@,
            absolute_base_offset as int,
            found@,
        ),
{
    let entries = pattern.entries();
    if entries.len() == 0 {
        assert(old(positions)@ + Set::<u64>::empty() =~= old(positions)@);
        return ;
    }
    let ghost h0 = haystack@;
    let ghost p0 = positions@;
    let ghost nv = entry_needles(entries@);
    let mut j: usize = 0;
    while j < found.len()
        invariant
            entries@ == pattern@,
            lengths_match(entries@),
            nv == entry_needles(entries@),
            matches_valid(nv, h0, found@),
            h0.len() == old(haystack)@.len(),
            absolute_base_offset + h0.len() <= u64::MAX,
            j <= found.len(),
            haystack@ == apply_rewrites(entries@, h0, found@.take(j as int)),
            positions@ == p0 + recorded_positions(
                entries@,
                absolute_base_offset as int,
                found@.take(j as int),
            ),
        decreases found.len() - j,
    {
        let m = found[j];
        assert(found@.take(j + 1).drop_last() =~= found@.take(j as int));
        assert(match_fits(nv, h0, found@[j as int]));
        proof {
            lemma_valid_prefix(entries@, h0, found@, j as int);
            lemma_apply_len(entries@, h0, found@.take(j as int));
        }
        let entry = &entries[m.pat_idx];
        assert(nv[m.pat_idx as int] == entry.needle@);
        write_at(haystack, m.start, &entry.replacement);
        if entry.record_positions {
            positions.insert(absolute_base_offset + m.start as u64);
        }
        assert(positions@ =~= p0 + recorded_positions(
            entries@,
            absolute_base_offset as int,
            found@.take(j + 1),
        )) by {
            let t1 = found@.take(j + 1);
            assert forall|p: u64| #[trigger] recorded_positions(entries@, absolute_base_offset as int, t1).contains(p) <==> (recorded_positions(entries@, absolute_base_offset as int, found@.take(j as int)).contains(p) || (entry.record_positions && p == absolute_base_offset + m.start)) by {
                if recorded_positions(entries@, absolute_base_offset as int, t1).contains(p) {
                    let k = choose|k: int| 0 <= k < t1.len() && entries@[#[trigger] t1[k].pat_idx as int].record_positions && p == absolute_base_offset + t1[k].start;
                    if k < j {
                        assert(found@.take(j as int)[k] == t1[k]);
                    }
                }
                if recorded_positions(entries@, absolute_base_offset as int, found@.take(j as int)).contains(p) {
                    let k = choose|k: int| 0 <= k < found@.take(j as int).len() && entries@[#[trigger] found@.take(j as int)[k].pat_idx as int].record_positions && p == absolute_base_offset + found@.take(j as int)[k].start;
                    assert(t1[k] == found@.take(j as int)[k]);
                }
                if entry.record_positions && p == absolute_base_offset + m.start {
                    assert(t1[j as int] == m);
                }
            }
        }
        j = j + 1;
    }
    assert(found@.take(j as int) =~= found@);
}

/// A prefix of a valid match list is valid.
proof fn lemma_valid_prefix(entries: Seq<RewriteEntry>, hay: Seq<u8>, ms: Seq<Match>, n: int)
    requires
        0 <= n <= ms.len(),
        matches_valid(entry_needles(entries), hay, ms),
    ensures
        matches_valid(entry_needles(entries), hay, ms.take(n)),
{
    let d = ms.take(n);
    assert forall|j: int| 0 <= j < d.len() implies match_fits(entry_needles(entries), hay, #[trigger] d[j]) by {
        assert(d[j] == ms[j]);
    }
    assert forall|j: int, k: int| 0 <= j < k < d.len() implies match_end(entry_needles(entries), #[trigger] d[j]) <= #[trigger] d[k].start by {
        assert(d[j] == ms[j] && d[k] == ms[k]);
    }
}

/// Overwrites every match in `haystack` with its replacement and returns the
/// absolute offsets (`absolute_base_offset` plus the offset in the haystack)
/// of the matches whose entry records positions. A pattern without entries
/// leaves the haystack alone.
pub fn rewrite_in_place(
    pattern: &RewritePattern,
    haystack: &mut Vec<u8>,
    absolute_base_offset: u64,
    found: &[Match],
) -> (r: BTreeSet<u64>)
    requires
        matches_valid(entry_needles(pattern@), old(haystack)@, found@),
        matches_complete(entry_needles(pattern@), old(haystack)@, found@),
        absolute_base_offset + old(haystack)@.len() <= u64::MAX,
    ensures
        final(haystack)@ == rewritten(pattern@, old(haystack)@, found@),
        r@ == rewrite_positions(pattern@, old(haystack)@, absolute_base_offset as int, found@),
{
    let mut positions = BTreeSet::new();
    rewrite_buffer_in_place(pattern, haystack, absolute_base_offset, found, &mut positions);
    assert(Set::<u64>::empty() + rewrite_positions(pattern@, old(haystack)@, absolute_base_offset as int, found@) =~= rewrite_positions(pattern@, old(haystack)@, absolute_base_offset as int, found@));
    positions
}

/// A rewrite pass keeps the length of the haystack.
pub proof fn lemma_rewritten_len(entries: Seq<RewriteEntry>, hay: Seq<u8>, ms: Seq<Match>)
    requires
        lengths_match(entries),
        matches_valid(entry_needles(entries), hay, ms),
    ensures
        rewritten(entries, hay, ms).len() == hay.len(),
{
    lemma_apply_len(entries, hay, ms);
}

/// Byte `k` lies inside the occurrence reported by some match.
pub open spec fn covered(needles: Seq<Seq<u8>>, ms: Seq<Match>, k: int) -> bool {
    exists|j: int| 0 <= j < ms.len() && #[trigger] ms[j].start <= k < match_end(needles, ms[j])
}

/// What rewriting does to each byte: inside a reported occurrence the byte
/// comes from that entry's replacement, anywhere else it is unchanged, and
/// the length stays the same.
pub proof fn lemma_rewrite_pointwise(entries: Seq<RewriteEntry>, hay: Seq<u8>, ms: Seq<Match>)
    requires
        lengths_match(entries),
        matches_valid(entry_needles(entries), hay, ms),
    ensures
        apply_rewrites(entries, hay, ms).len() == hay.len(),
        forall|j: int, k: int|
            0 <= j < ms.len() && ms[j].start <= k < match_end(entry_needles(entries), ms[j]) ==> #[trigger] apply_rewrites(entries, hay, ms)[k]
                == entries[#[trigger] ms[j].pat_idx as int].replacement@[k - ms[j].start],
        forall|k: int|
            0 <= k < hay.len() && !covered(entry_needles(entries), ms, k) ==> #[trigger] apply_rewrites(entries, hay, ms)[k] == hay[k],
    decreases ms.len(),
{
    let nv = entry_needles(entries);
    lemma_apply_len(entries, hay, ms);
    if ms.len() > 0 {
        let d = ms.drop_last();
        let m = ms.last();
        let prev = apply_rewrites(entries, hay, d);
        lemma_valid_drop_last(entries, hay, ms);
        lemma_rewrite_pointwise(entries, hay, d);
        let a = apply_rewrites(entries, hay, ms);
        assert(match_fits(nv, hay, ms[ms.len() - 1]));
        assert(nv[m.pat_idx as int] == entries[m.pat_idx as int].needle@);
        let r = entries[m.pat_idx as int].replacement@;
        assert(a == splice(prev, m.start as int, r));
        assert forall|j: int, k: int|
            0 <= j < ms.len() && ms[j].start <= k < match_end(nv, ms[j]) implies #[trigger] a[k]
                == entries[#[trigger] ms[j].pat_idx as int].replacement@[k - ms[j].start] by {
            if j == ms.len() - 1 {
                assert(a[k] == r[k - m.start]);
            } else {
                assert(d[j] == ms[j]);
                assert(match_end(nv, ms[j]) <= ms[ms.len() - 1].start);
                assert(a[k] == prev[k]);
            }
        }
        assert forall|k: int| 0 <= k < hay.len() && !covered(nv, ms, k) implies #[trigger] a[k] == hay[k] by {
            assert(!(ms[ms.len() - 1].start <= k < match_end(nv, ms[ms.len() - 1])));
            assert(a[k] == prev[k]);
            if covered(nv, d, k) {
                let j = choose|j: int| 0 <= j < d.len() && #[trigger] d[j].start <= k < match_end(nv, d[j]);
                assert(d[j] == ms[j]);
            }
        }
    }
}

/// Every recorded position holds the replacement of a recording entry: the
/// bytes from the position (relative to the base offset) on are that
/// entry's replacement.
pub proof fn lemma_recorded_positions_hold_replacements(
    entries: Seq<RewriteEntry>,
    hay: Seq<u8>,
    base: int,
    ms: Seq<Match>,
    p: u64,
)
    requires
        lengths_match(entries),
        matches_valid(entry_needles(entries), hay, ms),
        rewrite_positions(entries, hay, base, ms).contains(p),
    ensures
        exists|i: int|
            0 <= i < entries.len() && (#[trigger] entries[i]).record_positions && rewritten(
                entries,
                hay,
                ms,
            ).subrange(p - base, p - base + entries[i].replacement@.len())
                == entries[i].replacement@,
{
    let nv = entry_needles(entries);
    lemma_rewrite_pointwise(entries, hay, ms);
    let j = choose|j: int|
        0 <= j < ms.len() && entries[#[trigger] ms[j].pat_idx as int].record_positions && p == base
            + ms[j].start;
    let i = ms[j].pat_idx as int;
    assert(match_fits(nv, hay, ms[j]));
    assert(nv[i] == entries[i].needle@);
    let a = apply_rewrites(entries, hay, ms);
    assert(a.subrange(p - base, p - base + entries[i].replacement@.len()) =~= entries[i].replacement@) by {
        assert forall|k: int| 0 <= k < entries[i].replacement@.len() implies a.subrange(p - base, p - base + entries[i].replacement@.len())[k] == entries[i].replacement@[k] by {
            let kk = ms[j].start + k;
            assert(ms[j].start <= kk < match_end(nv, ms[j]));
            assert(a[kk] == entries[ms[j].pat_idx as int].replacement@[kk - ms[j].start]);
        }
    }
}

} // verus!
