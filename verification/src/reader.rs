//! The decisions of the streaming readers that scan for, or rewrite,
//! references while bytes flow from an underlying reader to a consumer.
//!
//! A driver owns the I/O: it asks [`ReferenceReaderState::begin_fill`] (or
//! the rewriting counterpart) what to do, reads at most the spare capacity
//! it is told, hands the bytes back with `after_read`, runs the searcher on
//! the buffer once no more reading is needed, and lets `finish_fill` scan or
//! rewrite before emitting the range it returns.

use crate::refscan::{
    entry_needles, lemma_max_len_bounds, matches_complete, matches_valid, max_len, occurs_at, rewrite_positions,
    rewritten, Match, ReferenceScanner, RewriteEntry, RewritePattern, scan_flags,
};
use crate::refscan::occurrences_apart;
use crate::stream::{
    lemma_one_shot, lemma_partial_extend, lemma_partial_none, lemma_seen_none, lemma_window_rewrite,
    lemma_window_scan, partial, partial_positions, seen_flags, stream_rewritable,
};
use std::collections::BTreeSet;
use vstd::prelude::*;

verus! {

broadcast use {vstd::std_specs::btree::group_btree_axioms, vstd::laws_cmp::group_laws_cmp};

/// Default capacity of the internal buffer.
pub const DEFAULT_BUF_SIZE: usize = 8192;

/// What a fill asks of its driver.
#[derive(Clone, Copy, Debug, PartialEq, Eq)]
pub enum FillStep {
    /// `buffer[start..end]` can be handed to the consumer as it is.
    Ready { start: usize, end: usize },
    /// Read at most `spare` more bytes and pass them to `after_read`.
    NeedRead { spare: usize },
}

/// Bytes that must overlap between consecutive scans so that a needle split
/// across two reads is still seen whole: one less than the longest needle.
pub open spec fn overlap_for(longest: nat) -> nat {
    if longest == 0 {
        0
    } else {
        (longest - 1) as nat
    }
}

fn overlap_of(longest: usize) -> (r: usize)
    ensures
        r == overlap_for(longest as nat),
{
    if longest == 0 {
        0
    } else {
        longest - 1
    }
}

/// `n + 1`, saturating at the largest `usize`.
pub open spec fn sat_inc(n: nat) -> nat {
    if n >= usize::MAX {
        usize::MAX as nat
    } else {
        n + 1
    }
}

/// Bytes from 0 up to which a rewriting buffer may be handed out: all of it
/// at end of input or without needles, otherwise all but the last `overlap`.
pub open spec fn emit_limit(buffer_len: nat, eof: bool, overlap: nat) -> nat {
    if eof || overlap == 0 {
        buffer_len
    } else if buffer_len >= overlap {
        (buffer_len - overlap) as nat
    } else {
        0
    }
}

fn emit_limit_exec(buffer_len: usize, eof: bool, overlap: usize) -> (r: usize)
    ensures
        r == emit_limit(buffer_len as nat, eof, overlap as nat),
{
    if eof || overlap == 0 {
        buffer_len
    } else if buffer_len >= overlap {
        buffer_len - overlap
    } else {
        0
    }
}

/// How many bytes a consumer asking for `remaining` gets from `available`.
pub fn read_amount(remaining: usize, available: usize) -> (r: usize)
    ensures
        r == if remaining <= available {
            remaining
        } else {
            available
        },
{
    if remaining <= available {
        remaining
    } else {
        available
    }
}

/// Appends `data` to `buffer`.
fn append_bytes(buffer: &mut Vec<u8>, data: &[u8])
    ensures
        final(buffer)@ == old(buffer)@ + data@,
{
    let mut i: usize = 0;
    while i < data.len()
        invariant
            i <= data@.len(),
            buffer@ == old(buffer)@ + data@.take(i as int),
        decreases data@.len() - i,
    {
        buffer.push(data[i]);
        i = i + 1;
        assert(buffer@ =~= old(buffer)@ + data@.take(i as int));
    }
    assert(data@.take(i as int) =~= data@);
}

/// Drops the first `n` bytes of `buffer`, moving the rest to the front.
fn drop_front(buffer: &mut Vec<u8>, n: usize)
    requires
        n <= old(buffer)@.len(),
    ensures
        final(buffer)@ == old(buffer)@.skip(n as int),
{
    let ghost b0 = buffer@;
    let len = buffer.len();
    let kept = len - n;
    let mut i: usize = 0;
    while i < kept
        invariant
            len == b0.len(),
            kept == len - n,
            buffer@.len() == len,
            i <= kept,
            forall|k: int| 0 <= k < i ==> buffer@[k] == b0[n + k],
            forall|k: int| i <= k < len ==> buffer@[k] == b0[k],
        decreases kept - i,
    {
        let b = buffer[n + i];
        buffer.set(i, b);
        i = i + 1;
    }
    buffer.truncate(kept);
    assert(buffer@ =~= b0.skip(n as int));
}

// ---------------------------------------------------------------------------
// Scanning reader
// ---------------------------------------------------------------------------

/// The buffer of a reader that scans everything passing through it.
pub struct ReferenceReaderState {
    buffer: Vec<u8>,
    consumed: usize,
    capacity: usize,
    overlap: usize,
    longest: usize,
}

impl ReferenceReaderState {
    /// The internal consistency of the buffer.
    pub closed spec fn wf(self) -> bool {
        &&& self.consumed <= self.buffer@.len()
        &&& self.buffer@.len() <= self.capacity
        &&& self.overlap == overlap_for(self.longest as nat)
        &&& self.longest <= self.capacity
    }

    /// The buffered bytes.
    pub closed spec fn buffer_view(self) -> Seq<u8> {
        self.buffer@
    }

    /// How many buffered bytes were handed out.
    pub closed spec fn consumed_view(self) -> nat {
        self.consumed as nat
    }

    /// The capacity of the buffer.
    pub closed spec fn capacity_view(self) -> nat {
        self.capacity as nat
    }

    /// The longest candidate of the scanner this reader feeds.
    pub closed spec fn longest_view(self) -> nat {
        self.longest as nat
    }

    /// The bytes read so far are the bytes handed out so far followed by
    /// those still to hand out, and the handed-out part of the buffer is the
    /// end of what was handed out.
    pub open spec fn passes_through(self, read: Seq<u8>, delivered: Seq<u8>) -> bool {
        &&& delivered + self.buffer_view().skip(self.consumed_view() as int) == read
        &&& self.consumed_view() <= delivered.len()
        &&& delivered.skip(delivered.len() - self.consumed_view()) == self.buffer_view().take(
            self.consumed_view() as int,
        )
    }

    /// The reader runs over the input `x` feeding a scanner with the
    /// candidates `cands`, which has seen `x` up to offset `b`: what it read
    /// is the start of `x`, handed out as `delivered` and then what it still
    /// holds; its buffer starts no later than `b`, and at or before every
    /// occurrence of a candidate that ends after `b`. No candidate is empty
    /// and occurrences of candidates keep apart.
    pub open spec fn scans(self, cands: Seq<Seq<u8>>, x: Seq<u8>, delivered: Seq<u8>, b: int) -> bool {
        let t = delivered.len() + self.buffer_view().len() - self.consumed_view();
        let a = delivered.len() - self.consumed_view();
        &&& self.wf()
        &&& self.longest_view() == max_len(cands)
        &&& forall|i: int| 0 <= i < cands.len() ==> #[trigger] cands[i].len() > 0
        &&& occurrences_apart(cands, x)
        &&& 0 <= a <= b <= t <= x.len()
        &&& self.passes_through(x.take(t), delivered)
        &&& forall|i: int, p: int|
            0 <= i < cands.len() && #[trigger] occurs_at(x, cands[i], p) && p + cands[i].len() > b ==> p >= a
    }

    /// A reader for a scanner whose longest candidate is `longest`; the
    /// capacity is raised to `longest` so that one read can hold a candidate.
    pub fn with_capacity(capacity: usize, longest: usize) -> (r: Self)
        ensures
            r.wf(),
            r.buffer_view() == Seq::<u8>::empty(),
            r.consumed_view() == 0,
            r.longest_view() == longest,
            r.capacity_view() == if capacity >= longest {
                capacity as nat
            } else {
                longest as nat
            },
            r.passes_through(Seq::empty(), Seq::empty()),
            forall|cands: Seq<Seq<u8>>, x: Seq<u8>|
                (forall|i: int| 0 <= i < cands.len() ==> #[trigger] cands[i].len() > 0) && occurrences_apart(
                    cands,
                    x,
                ) && longest == max_len(cands) ==> #[trigger] r.scans(cands, x, Seq::empty(), 0),
    {
        let cap = if capacity >= longest {
            capacity
        } else {
            longest
        };
        let r = ReferenceReaderState {
            buffer: Vec::new(),
            consumed: 0,
            capacity: cap,
            overlap: overlap_of(longest),
            longest,
        };
        assert(r.buffer_view().skip(0) =~= Seq::<u8>::empty());
        assert(Seq::<u8>::empty().skip(0) =~= r.buffer_view().take(0));
        assert forall|cands: Seq<Seq<u8>>, x: Seq<u8>|
            (forall|i: int| 0 <= i < cands.len() ==> #[trigger] cands[i].len() > 0) && occurrences_apart(
                cands,
                x,
            ) && longest == max_len(cands) implies #[trigger] r.scans(cands, x, Seq::empty(), 0) by {
            assert(x.take(0) =~= Seq::<u8>::empty());
        }
        r
    }

    /// A reader with the default capacity.
    pub fn new(longest: usize) -> (r: Self)
        ensures
            r.wf(),
            r.buffer_view() == Seq::<u8>::empty(),
            r.consumed_view() == 0,
            r.longest_view() == longest,
            r.passes_through(Seq::empty(), Seq::empty()),
    {
        Self::with_capacity(DEFAULT_BUF_SIZE, longest)
    }

    /// The buffered bytes.
    pub fn buffer(&self) -> (r: &Vec<u8>)
        ensures
            r@ == self.buffer_view(),
    {
        &self.buffer
    }

    /// Room left in the buffer for the next read.
    pub fn spare_capacity(&self) -> (r: usize)
        requires
            self.wf(),
        ensures
            r == self.capacity_view() - self.buffer_view().len(),
    {
        self.capacity - self.buffer.len()
    }

    /// Starts a fill: hands out what is still buffered, or else keeps the
    /// last `longest - 1` bytes (so that a candidate cut by the read
    /// boundary is scanned whole next time) and asks for a read into the
    /// spare capacity, which is never zero.
    pub fn begin_fill(&mut self) -> (step: FillStep)
        requires
            old(self).wf(),
        ensures
            final(self).wf(),
            final(self).longest_view() == old(self).longest_view(),
            final(self).capacity_view() == old(self).capacity_view(),
            old(self).consumed_view() < old(self).buffer_view().len() ==> {
                &&& step == (FillStep::Ready {
                    start: old(self).consumed_view() as usize,
                    end: old(self).buffer_view().len() as usize,
                })
                &&& *final(self) == *old(self)
            },
            old(self).consumed_view() >= old(self).buffer_view().len() ==> {
                let o = overlap_for(old(self).longest_view());
                let b = old(self).buffer_view();
                &&& old(self).consumed_view() > o ==> final(self).buffer_view() == b.skip(
                    b.len() - o,
                ) && final(self).consumed_view() == o
                &&& old(self).consumed_view() <= o ==> final(self).buffer_view() == b
                    && final(self).consumed_view() == old(self).consumed_view()
                &&& step == (FillStep::NeedRead {
                    spare: (final(self).capacity_view() - final(self).buffer_view().len()) as usize,
                })
                &&& final(self).capacity_view() > 0 ==> final(self).buffer_view().len()
                    < final(self).capacity_view()
            },
            forall|read: Seq<u8>, delivered: Seq<u8>|
                #[trigger] old(self).passes_through(read, delivered) ==> final(self).passes_through(
                    read,
                    delivered,
                ),
            forall|cands: Seq<Seq<u8>>, x: Seq<u8>, delivered: Seq<u8>, b: int|
                #[trigger] old(self).scans(cands, x, delivered, b) && b == delivered.len()
                    + old(self).buffer_view().len() - old(self).consumed_view() ==> final(self).scans(
                    cands,
                    x,
                    delivered,
                    b,
                ),
    {
        if self.consumed < self.buffer.len() {
            return FillStep::Ready { start: self.consumed, end: self.buffer.len() };
        }
        if self.consumed > self.overlap {
            let ghost b = self.buffer@;
            let start = self.buffer.len() - self.overlap;
            drop_front(&mut self.buffer, start);
            self.consumed = self.overlap;
            proof {
                assert forall|read: Seq<u8>, delivered: Seq<u8>|
                    #[trigger] old(self).passes_through(read, delivered) implies self.passes_through(
                    read,
                    delivered,
                ) by {
                    let c = b.len();
                    let o = self.overlap as int;
                    assert(b.skip(c as int) =~= Seq::<u8>::empty());
                    assert(self.buffer@.skip(o) =~= Seq::<u8>::empty());
                    assert(delivered + Seq::<u8>::empty() =~= delivered);
                    assert(delivered.skip(delivered.len() - o) =~= delivered.skip(delivered.len() - c).skip(c - o));
                    assert(b.take(c as int) =~= b);
                    assert(self.buffer@.take(o) =~= b.skip(c - o));
                }
            }
        }
        proof {
            assert forall|cands: Seq<Seq<u8>>, x: Seq<u8>, delivered: Seq<u8>, b: int|
                #[trigger] old(self).scans(cands, x, delivered, b) && b == delivered.len()
                    + old(self).buffer_view().len() - old(self).consumed_view() implies self.scans(
                cands,
                x,
                delivered,
                b,
            ) by {
                lemma_max_len_bounds(cands);
                let t = delivered.len() + old(self).buffer_view().len() - old(self).consumed_view();
                assert(old(self).passes_through(x.take(t), delivered));
                assert forall|i: int, p: int|
                    0 <= i < cands.len() && #[trigger] occurs_at(x, cands[i], p) && p + cands[i].len() > b implies p
                    >= delivered.len() - self.consumed_view() by {
                    assert(cands[i].len() <= max_len(cands));
                }
            }
        }
        FillStep::NeedRead { spare: self.capacity - self.buffer.len() }
    }

    /// Takes the bytes of one read; tells whether to read again (only while
    /// the underlying reader gave bytes and the buffer holds no more than the
    /// overlap).
    pub fn after_read(&mut self, data: &[u8]) -> (more: bool)
        requires
            old(self).wf(),
            old(self).buffer_view().len() + data@.len() <= old(self).capacity_view(),
        ensures
            final(self).wf(),
            final(self).longest_view() == old(self).longest_view(),
            final(self).capacity_view() == old(self).capacity_view(),
            final(self).consumed_view() == old(self).consumed_view(),
            final(self).buffer_view() == old(self).buffer_view() + data@,
            more == (data@.len() != 0 && final(self).buffer_view().len() <= overlap_for(
                old(self).longest_view(),
            )),
            more ==> final(self).buffer_view().len() < final(self).capacity_view(),
            forall|read: Seq<u8>, delivered: Seq<u8>|
                #[trigger] old(self).passes_through(read, delivered) ==> final(self).passes_through(
                    read + data@,
                    delivered,
                ),
            forall|cands: Seq<Seq<u8>>, x: Seq<u8>, delivered: Seq<u8>, b: int|
                #[trigger] old(self).scans(cands, x, delivered, b) && delivered.len() + old(self).buffer_view().len()
                    - old(self).consumed_view() + data@.len() <= x.len() && data@ == x.subrange(
                    delivered.len() + old(self).buffer_view().len() - old(self).consumed_view(),
                    delivered.len() + old(self).buffer_view().len() - old(self).consumed_view() + data@.len(),
                ) ==> final(self).scans(cands, x, delivered, b),
    {
        let ghost b = self.buffer@;
        append_bytes(&mut self.buffer, data);
        proof {
            assert forall|read: Seq<u8>, delivered: Seq<u8>|
                #[trigger] old(self).passes_through(read, delivered) implies self.passes_through(
                read + data@,
                delivered,
            ) by {
                let c = self.consumed as int;
                assert(self.buffer@.skip(c) =~= b.skip(c) + data@);
                assert(self.buffer@.take(c) =~= b.take(c));
                assert(delivered + (b.skip(c) + data@) =~= (delivered + b.skip(c)) + data@);
            }
        }
        proof {
            assert forall|cands: Seq<Seq<u8>>, x: Seq<u8>, delivered: Seq<u8>, b: int|
                #[trigger] old(self).scans(cands, x, delivered, b) && delivered.len() + old(self).buffer_view().len()
                    - old(self).consumed_view() + data@.len() <= x.len() && data@ == x.subrange(
                    delivered.len() + old(self).buffer_view().len() - old(self).consumed_view(),
                    delivered.len() + old(self).buffer_view().len() - old(self).consumed_view() + data@.len(),
                ) implies self.scans(cands, x, delivered, b) by {
                let t = delivered.len() + old(self).buffer_view().len() - old(self).consumed_view();
                assert(old(self).passes_through(x.take(t), delivered));
                assert(x.take(t) + data@ =~= x.take(t + data@.len()));
            }
        }
        !(data.len() == 0 || self.buffer.len() > self.overlap)
    }

    /// Ends a fill: scans the whole buffer with the searcher's output and
    /// returns the range to hand out.
    pub fn finish_fill(&self, scanner: &mut ReferenceScanner, found: &[Match]) -> (r: (
        usize,
        usize,
    ))
        requires
            self.wf(),
            old(scanner).wf(),
            max_len(old(scanner).candidates_view()) == self.longest_view(),
            matches_valid(old(scanner).candidates_view(), self.buffer_view(), found@),
            matches_complete(old(scanner).candidates_view(), self.buffer_view(), found@),
        ensures
            final(scanner).wf(),
            final(scanner).candidates_view() == old(scanner).candidates_view(),
            final(scanner).flags() == scan_flags(old(scanner).flags(), found@),
            r == (self.consumed_view() as usize, self.buffer_view().len() as usize),
            forall|x: Seq<u8>, flags0: Seq<bool>, delivered: Seq<u8>, b: int|
                #[trigger] self.scans(old(scanner).candidates_view(), x, delivered, b) && old(scanner).flags()
                    == #[trigger] seen_flags(old(scanner).candidates_view(), flags0, x, b) && (self.buffer_view().len()
                    >= overlap_for(self.longest_view()) || delivered.len() + self.buffer_view().len()
                    - self.consumed_view() == x.len() || delivered.len() == self.consumed_view()) ==> {
                    let t = delivered.len() + self.buffer_view().len() - self.consumed_view();
                    &&& final(scanner).flags() == seen_flags(old(scanner).candidates_view(), flags0, x, t)
                    &&& self.scans(old(scanner).candidates_view(), x, delivered, t)
                },
    {
        proof {
            old(scanner).lemma_flag_count();
        }
        scanner.scan(self.buffer.as_slice(), found);
        proof {
            let c = old(scanner).candidates_view();
            assert forall|x: Seq<u8>, flags0: Seq<bool>, delivered: Seq<u8>, b: int|
                #[trigger] self.scans(c, x, delivered, b) && old(scanner).flags() == #[trigger] seen_flags(c, flags0, x, b)
                    && (self.buffer_view().len() >= overlap_for(self.longest_view()) || delivered.len()
                    + self.buffer_view().len() - self.consumed_view() == x.len() || delivered.len()
                    == self.consumed_view()) implies {
                let t = delivered.len() + self.buffer_view().len() - self.consumed_view();
                &&& scanner.flags() == seen_flags(c, flags0, x, t)
                &&& self.scans(c, x, delivered, t)
            } by {
                let t = delivered.len() + self.buffer_view().len() - self.consumed_view();
                let a = delivered.len() - self.consumed_view();
                let bv = self.buffer_view();
                let cv = self.consumed_view() as int;
                assert(self.passes_through(x.take(t), delivered));
                assert(bv =~= x.subrange(a, t)) by {
                    assert forall|k: int| 0 <= k < bv.len() implies bv[k] == x.subrange(a, t)[k] by {
                        if k < cv {
                            assert(delivered.skip(delivered.len() - cv)[k] == bv.take(cv)[k]);
                            assert((delivered + bv.skip(cv))[a + k] == x.take(t)[a + k]);
                        } else {
                            assert((delivered + bv.skip(cv))[delivered.len() + k - cv] == x.take(t)[a + k]);
                        }
                    }
                }
                lemma_window_scan(c, flags0, x, b, a, t, found@);
                lemma_max_len_bounds(c);
                assert forall|i: int, p: int|
                    0 <= i < c.len() && #[trigger] occurs_at(x, c[i], p) && p + c[i].len() > t implies p >= a by {
                    assert(c[i].len() <= max_len(c));
                }
            }
        }
        (self.consumed, self.buffer.len())
    }

    /// Marks `amt` buffered bytes as handed out.
    pub fn consume(&mut self, amt: usize)
        requires
            old(self).wf(),
            old(self).consumed_view() + amt <= old(self).buffer_view().len(),
        ensures
            final(self).wf(),
            final(self).buffer_view() == old(self).buffer_view(),
            final(self).longest_view() == old(self).longest_view(),
            final(self).capacity_view() == old(self).capacity_view(),
            final(self).consumed_view() == old(self).consumed_view() + amt,
            forall|read: Seq<u8>, delivered: Seq<u8>|
                #[trigger] old(self).passes_through(read, delivered) ==> final(self).passes_through(
                    read,
                    delivered + old(self).buffer_view().subrange(
                        old(self).consumed_view() as int,
                        old(self).consumed_view() + amt,
                    ),
                ),
            forall|cands: Seq<Seq<u8>>, x: Seq<u8>, delivered: Seq<u8>, b: int|
                #[trigger] old(self).scans(cands, x, delivered, b) ==> final(self).scans(
                    cands,
                    x,
                    delivered + old(self).buffer_view().subrange(
                        old(self).consumed_view() as int,
                        old(self).consumed_view() + amt,
                    ),
                    b,
                ),
    {
        let ghost b = self.buffer@;
        let ghost c = self.consumed as int;
        self.consumed = self.consumed + amt;
        proof {
            assert forall|read: Seq<u8>, delivered: Seq<u8>|
                #[trigger] old(self).passes_through(read, delivered) implies self.passes_through(
                read,
                delivered + b.subrange(c, c + amt),
            ) by {
                let piece = b.subrange(c, c + amt);
                let d2 = delivered + piece;
                assert(b.skip(c) =~= piece + b.skip(c + amt));
                assert(d2 + b.skip(c + amt) =~= delivered + b.skip(c));
                assert(b.take(c + amt) =~= b.take(c) + piece);
                assert(d2.skip(d2.len() - (c + amt)) =~= delivered.skip(delivered.len() - c) + piece);
            }
        }
        proof {
            assert forall|cands: Seq<Seq<u8>>, x: Seq<u8>, delivered: Seq<u8>, bd: int|
                #[trigger] old(self).scans(cands, x, delivered, bd) implies self.scans(
                cands,
                x,
                delivered + b.subrange(c, c + amt),
                bd,
            ) by {
                let t = delivered.len() + b.len() - c;
                assert(old(self).passes_through(x.take(t), delivered));
            }
        }
    }
}

// ---------------------------------------------------------------------------
// Rewriting reader
// ---------------------------------------------------------------------------

/// The buffer of a reader that rewrites references while they pass through
/// and records the absolute offsets of self-references.
pub struct RewritingReaderState {
    buffer: Vec<u8>,
    consumed: usize,
    buffer_abs_start: u64,
    eof: bool,
    positions: BTreeSet<u64>,
    capacity: usize,
    overlap: usize,
    longest: usize,
}

impl RewritingReaderState {
    /// The internal consistency of the buffer.
    pub closed spec fn wf(self) -> bool {
        &&& self.consumed <= self.buffer@.len()
        &&& self.buffer@.len() <= self.capacity
        &&& self.overlap == overlap_for(self.longest as nat)
        &&& self.overlap < self.capacity
        &&& self.buffer_abs_start + self.buffer@.len() <= u64::MAX
    }

    /// The buffered bytes.
    pub closed spec fn buffer_view(self) -> Seq<u8> {
        self.buffer@
    }

    /// How many buffered bytes were handed out.
    pub closed spec fn consumed_view(self) -> nat {
        self.consumed as nat
    }

    /// Offset of the first buffered byte within the whole stream.
    pub closed spec fn abs_start(self) -> nat {
        self.buffer_abs_start as nat
    }

    /// Whether the underlying reader is exhausted.
    pub closed spec fn eof_view(self) -> bool {
        self.eof
    }

    /// The positions recorded so far.
    pub closed spec fn positions_view(self) -> Set<u64> {
        self.positions@
    }

    /// The capacity of the buffer.
    pub closed spec fn capacity_view(self) -> nat {
        self.capacity as nat
    }

    /// The longest needle of the pattern this reader applies.
    pub closed spec fn longest_view(self) -> nat {
        self.longest as nat
    }

    /// Bytes read from the underlying reader so far.
    pub open spec fn total_read(self) -> nat {
        self.abs_start() + self.buffer_view().len()
    }

    /// Bytes handed to the consumer so far.
    pub open spec fn total_delivered(self) -> nat {
        self.abs_start() + self.consumed_view()
    }

    /// `processed`, the stream as far as it was read with the rewrites made
    /// so far, is the bytes handed out (`delivered`) followed by those still
    /// to hand out; the handed-out part of the buffer is the end of
    /// `delivered`, which is as long as the count of bytes handed out.
    pub open spec fn passes_through(self, processed: Seq<u8>, delivered: Seq<u8>) -> bool {
        &&& delivered + self.buffer_view().skip(self.consumed_view() as int) == processed
        &&& delivered.len() == self.total_delivered()
        &&& self.consumed_view() <= delivered.len()
        &&& delivered.skip(delivered.len() - self.consumed_view()) == self.buffer_view().take(
            self.consumed_view() as int,
        )
    }

    /// The reader runs over the input `x` with the rewrite entries
    /// `entries`, having rewritten the occurrences that end by offset `b`:
    /// what it read is the start of `x`; what it handed out (`delivered`)
    /// followed by what it still holds is `x`, up to what was read, with
    /// those occurrences rewritten; no occurrence still to rewrite starts
    /// in what was handed out, which before the end of input stays the
    /// overlap behind what was read; the positions are those of the
    /// rewritten occurrences; at the end of input all of `x` was read.
    pub open spec fn streams(self, entries: Seq<RewriteEntry>, x: Seq<u8>, delivered: Seq<u8>, b: int) -> bool {
        &&& self.wf()
        &&& stream_rewritable(entries, x)
        &&& self.longest_view() == max_len(entry_needles(entries))
        &&& x.len() <= u64::MAX
        &&& 0 <= b <= self.total_read() <= x.len()
        &&& self.total_delivered() <= b
        &&& self.passes_through(partial(entries, x, b).take(self.total_read() as int), delivered)
        &&& forall|i: int, p: int|
            0 <= i < entries.len() && #[trigger] occurs_at(x, entry_needles(entries)[i], p) && p
                + entry_needles(entries)[i].len() > b ==> p >= self.total_delivered()
        &&& self.positions_view() == partial_positions(entries, x, b)
        &&& self.eof_view() ==> self.total_read() == x.len()
        &&& !self.eof_view() ==> (self.total_delivered() == 0 || self.total_delivered() + overlap_for(
            self.longest_view(),
        ) <= self.total_read())
    }

    /// A reader for a pattern whose longest needle is `longest`; the capacity
    /// is raised to `longest + 1` so that one byte can be handed out per
    /// fill.
    pub fn with_capacity(capacity: usize, longest: usize) -> (r: Self)
        ensures
            r.wf(),
            r.buffer_view() == Seq::<u8>::empty(),
            r.consumed_view() == 0,
            r.abs_start() == 0,
            !r.eof_view(),
            r.positions_view() == Set::<u64>::empty(),
            r.longest_view() == longest,
            r.capacity_view() == if capacity >= sat_inc(longest as nat) {
                capacity as nat
            } else {
                sat_inc(longest as nat)
            },
            r.passes_through(Seq::empty(), Seq::empty()),
            forall|entries: Seq<RewriteEntry>, x: Seq<u8>|
                stream_rewritable(entries, x) && x.len() <= u64::MAX && longest == max_len(entry_needles(entries))
                    ==> #[trigger] r.streams(entries, x, Seq::empty(), 0),
    {
        let min_cap = if longest == usize::MAX {
            usize::MAX
        } else {
            longest + 1
        };
        let cap = if capacity >= min_cap {
            capacity
        } else {
            min_cap
        };
        let r = RewritingReaderState {
            buffer: Vec::new(),
            consumed: 0,
            buffer_abs_start: 0,
            eof: false,
            positions: BTreeSet::new(),
            capacity: cap,
            overlap: overlap_of(longest),
            longest,
        };
        assert(r.buffer_view().skip(0) =~= Seq::<u8>::empty());
        assert(Seq::<u8>::empty().skip(0) =~= r.buffer_view().take(0));
        assert forall|entries: Seq<RewriteEntry>, x: Seq<u8>|
            stream_rewritable(entries, x) && x.len() <= u64::MAX && longest == max_len(entry_needles(entries))
                implies #[trigger] r.streams(entries, x, Seq::empty(), 0) by {
            lemma_partial_none(entries, x);
            assert(partial(entries, x, 0).take(0) =~= Seq::<u8>::empty());
        }
        r
    }

    /// A reader with the default capacity.
    pub fn new(longest: usize) -> (r: Self)
        ensures
            r.wf(),
            r.buffer_view() == Seq::<u8>::empty(),
            r.consumed_view() == 0,
            r.abs_start() == 0,
            !r.eof_view(),
            r.positions_view() == Set::<u64>::empty(),
            r.longest_view() == longest,
            r.passes_through(Seq::empty(), Seq::empty()),
    {
        Self::with_capacity(DEFAULT_BUF_SIZE, longest)
    }

    /// The buffered bytes.
    pub fn buffer(&self) -> (r: &Vec<u8>)
        ensures
            r@ == self.buffer_view(),
    {
        &self.buffer
    }

    /// The positions recorded so far.
    pub fn positions(&self) -> (r: &BTreeSet<u64>)
        ensures
            r@ == self.positions_view(),
    {
        &self.positions
    }

    /// Takes the recorded positions out, leaving none behind.
    pub fn take_positions(&mut self) -> (r: BTreeSet<u64>)
        requires
            old(self).wf(),
        ensures
            final(self).wf(),
            r@ == old(self).positions_view(),
            final(self).positions_view() == Set::<u64>::empty(),
            final(self).buffer_view() == old(self).buffer_view(),
            final(self).consumed_view() == old(self).consumed_view(),
            final(self).abs_start() == old(self).abs_start(),
            final(self).eof_view() == old(self).eof_view(),
            final(self).longest_view() == old(self).longest_view(),
            final(self).capacity_view() == old(self).capacity_view(),
    {
        let mut taken = BTreeSet::new();
        std::mem::swap(&mut taken, &mut self.positions);
        taken
    }

    /// Room left in the buffer for the next read.
    pub fn spare_capacity(&self) -> (r: usize)
        requires
            self.wf(),
        ensures
            r == self.capacity_view() - self.buffer_view().len(),
    {
        self.capacity - self.buffer.len()
    }

    /// Starts a fill. Bytes up to the emit limit that were not handed out
    /// yet are handed out; at end of input nothing more comes; otherwise the
    /// held-back tail moves to the front of the buffer (the stream offset of
    /// the buffer advancing by what was handed out) and a read into the
    /// spare capacity, which is never zero, is asked for.
    pub fn begin_fill(&mut self) -> (step: FillStep)
        requires
            old(self).wf(),
        ensures
            final(self).wf(),
            final(self).total_read() == old(self).total_read(),
            final(self).total_delivered() == old(self).total_delivered(),
            final(self).positions_view() == old(self).positions_view(),
            final(self).eof_view() == old(self).eof_view(),
            final(self).longest_view() == old(self).longest_view(),
            final(self).capacity_view() == old(self).capacity_view(),
            ({
                let limit = emit_limit(
                    old(self).buffer_view().len(),
                    old(self).eof_view(),
                    overlap_for(old(self).longest_view()),
                );
                let c = old(self).consumed_view();
                let b = old(self).buffer_view();
                if c < limit {
                    &&& step == (FillStep::Ready { start: c as usize, end: limit as usize })
                    &&& *final(self) == *old(self)
                } else if old(self).eof_view() {
                    &&& step == (FillStep::Ready { start: c as usize, end: c as usize })
                    &&& *final(self) == *old(self)
                } else {
                    &&& final(self).buffer_view() == b.skip(c as int)
                    &&& final(self).consumed_view() == 0
                    &&& final(self).abs_start() == old(self).abs_start() + c
                    &&& step == (FillStep::NeedRead {
                        spare: (final(self).capacity_view() - final(self).buffer_view().len()) as usize,
                    })
                    &&& final(self).buffer_view().len() < final(self).capacity_view()
                }
            }),
            forall|processed: Seq<u8>, delivered: Seq<u8>|
                #[trigger] old(self).passes_through(processed, delivered) ==> final(self).passes_through(
                    processed,
                    delivered,
                ),
            forall|entries: Seq<RewriteEntry>, x: Seq<u8>, delivered: Seq<u8>, b: int|
                #[trigger] old(self).streams(entries, x, delivered, b) ==> final(self).streams(
                    entries,
                    x,
                    delivered,
                    b,
                ),
    {
        let limit = emit_limit_exec(self.buffer.len(), self.eof, self.overlap);
        if self.consumed < limit {
            return FillStep::Ready { start: self.consumed, end: limit };
        }
        if self.eof {
            return FillStep::Ready { start: self.consumed, end: self.consumed };
        }
        if self.consumed > 0 {
            let ghost b = self.buffer@;
            let ghost c = self.consumed as int;
            self.buffer_abs_start = self.buffer_abs_start + self.consumed as u64;
            drop_front(&mut self.buffer, self.consumed);
            self.consumed = 0;
            proof {
                assert forall|processed: Seq<u8>, delivered: Seq<u8>|
                    #[trigger] old(self).passes_through(processed, delivered) implies self.passes_through(
                    processed,
                    delivered,
                ) by {
                    assert(self.buffer@.skip(0) =~= b.skip(c));
                    assert(delivered.skip(delivered.len() as int) =~= self.buffer@.take(0));
                }
            }
        }
        FillStep::NeedRead { spare: self.capacity - self.buffer.len() }
    }

    /// Takes the bytes of one read. An empty read marks the end of input;
    /// reading goes on while bytes come and the buffer holds no more than
    /// the overlap.
    pub fn after_read(&mut self, data: &[u8]) -> (more: bool)
        requires
            old(self).wf(),
            !old(self).eof_view(),
            old(self).buffer_view().len() + data@.len() <= old(self).capacity_view(),
            old(self).total_read() + data@.len() <= u64::MAX,
        ensures
            final(self).wf(),
            final(self).buffer_view() == old(self).buffer_view() + data@,
            final(self).consumed_view() == old(self).consumed_view(),
            final(self).abs_start() == old(self).abs_start(),
            final(self).eof_view() == (data@.len() == 0),
            final(self).positions_view() == old(self).positions_view(),
            final(self).longest_view() == old(self).longest_view(),
            final(self).capacity_view() == old(self).capacity_view(),
            more == (data@.len() != 0 && final(self).buffer_view().len() <= overlap_for(
                old(self).longest_view(),
            )),
            more ==> final(self).buffer_view().len() < final(self).capacity_view(),
            forall|processed: Seq<u8>, delivered: Seq<u8>|
                #[trigger] old(self).passes_through(processed, delivered) ==> final(self).passes_through(
                    processed + data@,
                    delivered,
                ),
            forall|entries: Seq<RewriteEntry>, x: Seq<u8>, delivered: Seq<u8>, b: int|
                #[trigger] old(self).streams(entries, x, delivered, b) && old(self).total_read() + data@.len()
                    <= x.len() && data@ == x.subrange(
                    old(self).total_read() as int,
                    (old(self).total_read() + data@.len()) as int,
                ) && (data@.len() == 0 ==> old(self).total_read() == x.len()) ==> final(self).streams(
                    entries,
                    x,
                    delivered,
                    b,
                ),
    {
        let ghost b = self.buffer@;
        append_bytes(&mut self.buffer, data);
        proof {
            assert forall|processed: Seq<u8>, delivered: Seq<u8>|
                #[trigger] old(self).passes_through(processed, delivered) implies self.passes_through(
                processed + data@,
                delivered,
            ) by {
                let c = self.consumed as int;
                assert(self.buffer@.skip(c) =~= b.skip(c) + data@);
                assert(self.buffer@.take(c) =~= b.take(c));
                assert(delivered + (b.skip(c) + data@) =~= (delivered + b.skip(c)) + data@);
            }
        }
        let ghost t0 = old(self).total_read();
        let more = if data.len() == 0 {
            self.eof = true;
            false
        } else {
            self.buffer.len() <= self.overlap
        };
        proof {
            assert forall|entries: Seq<RewriteEntry>, x: Seq<u8>, delivered: Seq<u8>, b: int|
                #[trigger] old(self).streams(entries, x, delivered, b) && t0 + data@.len() <= x.len() && data@
                    == x.subrange(t0 as int, (t0 + data@.len()) as int) && (data@.len() == 0 ==> t0 == x.len()) implies self.streams(
                entries,
                x,
                delivered,
                b,
            ) by {
                lemma_partial_extend(entries, x, b, t0 as int, (t0 + data@.len()) as int);
                assert(old(self).passes_through(partial(entries, x, b).take(t0 as int), delivered));
            }
        }
        more
    }

    /// Ends a fill: rewrites the buffer in place with the searcher's output
    /// (offsets counted from the start of the stream) and returns the range
    /// to hand out, which holds back the last `longest - 1` bytes until the
    /// end of input.
    pub fn finish_fill(&mut self, pattern: &RewritePattern, found: &[Match]) -> (r: (usize, usize))
        requires
            old(self).wf(),
            max_len(entry_needles(pattern@)) == old(self).longest_view(),
            matches_valid(entry_needles(pattern@), old(self).buffer_view(), found@),
            matches_complete(entry_needles(pattern@), old(self).buffer_view(), found@),
        ensures
            final(self).wf(),
            final(self).buffer_view() == rewritten(pattern@, old(self).buffer_view(), found@),
            final(self).positions_view() == old(self).positions_view() + rewrite_positions(
                pattern@,
                old(self).buffer_view(),
                old(self).abs_start() as int,
                found@,
            ),
            final(self).consumed_view() == old(self).consumed_view(),
            final(self).abs_start() == old(self).abs_start(),
            final(self).eof_view() == old(self).eof_view(),
            final(self).longest_view() == old(self).longest_view(),
            final(self).capacity_view() == old(self).capacity_view(),
            r == (
                old(self).consumed_view() as usize,
                emit_limit(
                    old(self).buffer_view().len(),
                    old(self).eof_view(),
                    overlap_for(old(self).longest_view()),
                ) as usize,
            ),
            !old(self).eof_view() ==> r.1 + overlap_for(
                old(self).longest_view(),
            ) <= old(self).buffer_view().len() || r.1 == 0,
            forall|processed: Seq<u8>, delivered: Seq<u8>|
                #[trigger] old(self).passes_through(processed, delivered) && old(self).consumed_view() == 0
                    ==> final(self).passes_through(
                    delivered + rewritten(pattern@, old(self).buffer_view(), found@),
                    delivered,
                ),
            forall|entries: Seq<RewriteEntry>, x: Seq<u8>, delivered: Seq<u8>, b: int|
                #[trigger] old(self).streams(entries, x, delivered, b) && old(self).consumed_view() == 0
                    && pattern@ == entries ==> final(self).streams(
                    entries,
                    x,
                    delivered,
                    old(self).total_read() as int,
                ),
    {
        let ghost b0 = self.buffer@;
        let _ = pattern.entries();
        crate::refscan::rewrite_buffer_in_place(
            pattern,
            &mut self.buffer,
            self.buffer_abs_start,
            found,
            &mut self.positions,
        );
        proof {
            crate::refscan::lemma_rewritten_len(pattern@, b0, found@);
            assert forall|processed: Seq<u8>, delivered: Seq<u8>|
                #[trigger] old(self).passes_through(processed, delivered) && old(self).consumed_view() == 0 implies self.passes_through(
                delivered + self.buffer@,
                delivered,
            ) by {
                assert(self.buffer@.skip(0) =~= self.buffer@);
                assert(delivered.skip(delivered.len() as int) =~= self.buffer@.take(0));
            }
        }
        proof {
            assert forall|entries: Seq<RewriteEntry>, x: Seq<u8>, delivered: Seq<u8>, b: int|
                #[trigger] old(self).streams(entries, x, delivered, b) && old(self).consumed_view() == 0
                    && pattern@ == entries implies self.streams(
                entries,
                x,
                delivered,
                old(self).total_read() as int,
            ) by {
                let t = old(self).total_read() as int;
                let a = old(self).abs_start() as int;
                let pb = partial(entries, x, b);
                let n = entry_needles(entries);
                assert(old(self).passes_through(pb.take(t), delivered));
                assert(delivered + b0.skip(0) == pb.take(t));
                assert(delivered.len() == a);
                assert(b0 =~= pb.subrange(a, t)) by {
                    assert forall|k: int| 0 <= k < b0.len() implies b0[k] == pb.subrange(a, t)[k] by {
                        assert((delivered + b0.skip(0))[a + k] == pb.take(t)[a + k]);
                    }
                }
                assert(delivered =~= pb.take(a)) by {
                    assert forall|k: int| 0 <= k < a implies delivered[k] == pb[k] by {
                        assert((delivered + b0.skip(0))[k] == pb.take(t)[k]);
                    }
                }
                lemma_window_rewrite(entries, x, b, a, t, found@);
                assert(self.passes_through(delivered + self.buffer@, delivered));
                assert(delivered + self.buffer@ == partial(entries, x, t).take(t));
                lemma_max_len_bounds(n);
                assert forall|i: int, p: int|
                    0 <= i < entries.len() && #[trigger] occurs_at(x, n[i], p) && p + n[i].len() > t implies p
                    >= self.total_delivered() by {
                    assert(n[i].len() <= max_len(n));
                    assert(n[i].len() > 0);
                }
            }
        }
        let limit = emit_limit_exec(self.buffer.len(), self.eof, self.overlap);
        (self.consumed, limit)
    }

    /// Marks `amt` buffered bytes as handed out.
    pub fn consume(&mut self, amt: usize)
        requires
            old(self).wf(),
            old(self).consumed_view() + amt <= old(self).buffer_view().len(),
        ensures
            final(self).wf(),
            final(self).buffer_view() == old(self).buffer_view(),
            final(self).consumed_view() == old(self).consumed_view() + amt,
            final(self).abs_start() == old(self).abs_start(),
            final(self).eof_view() == old(self).eof_view(),
            final(self).positions_view() == old(self).positions_view(),
            final(self).longest_view() == old(self).longest_view(),
            final(self).capacity_view() == old(self).capacity_view(),
            forall|processed: Seq<u8>, delivered: Seq<u8>|
                #[trigger] old(self).passes_through(processed, delivered) ==> final(self).passes_through(
                    processed,
                    delivered + old(self).buffer_view().subrange(
                        old(self).consumed_view() as int,
                        old(self).consumed_view() + amt,
                    ),
                ),
            forall|entries: Seq<RewriteEntry>, x: Seq<u8>, delivered: Seq<u8>, b: int|
                #[trigger] old(self).streams(entries, x, delivered, b) && b == old(self).total_read()
                    && old(self).consumed_view() + amt <= emit_limit(
                    old(self).buffer_view().len(),
                    old(self).eof_view(),
                    overlap_for(old(self).longest_view()),
                ) ==> final(self).streams(
                    entries,
                    x,
                    delivered + old(self).buffer_view().subrange(
                        old(self).consumed_view() as int,
                        old(self).consumed_view() + amt,
                    ),
                    b,
                ),
    {
        let ghost b = self.buffer@;
        let ghost c = self.consumed as int;
        self.consumed = self.consumed + amt;
        proof {
            assert forall|processed: Seq<u8>, delivered: Seq<u8>|
                #[trigger] old(self).passes_through(processed, delivered) implies self.passes_through(
                processed,
                delivered + b.subrange(c, c + amt),
            ) by {
                let piece = b.subrange(c, c + amt);
                let d2 = delivered + piece;
                assert(b.skip(c) =~= piece + b.skip(c + amt));
                assert(d2 + b.skip(c + amt) =~= delivered + b.skip(c));
                assert(b.take(c + amt) =~= b.take(c) + piece);
                assert(d2.skip(d2.len() - (c + amt)) =~= delivered.skip(delivered.len() - c) + piece);
            }
        }
        proof {
            assert forall|entries: Seq<RewriteEntry>, x: Seq<u8>, delivered: Seq<u8>, bd: int|
                #[trigger] old(self).streams(entries, x, delivered, bd) && bd == old(self).total_read()
                    && old(self).consumed_view() + amt <= emit_limit(
                    old(self).buffer_view().len(),
                    old(self).eof_view(),
                    overlap_for(old(self).longest_view()),
                ) implies self.streams(entries, x, delivered + b.subrange(c, c + amt), bd) by {
                let n = entry_needles(entries);
                lemma_max_len_bounds(n);
                assert(old(self).passes_through(partial(entries, x, bd).take(bd), delivered));
                assert forall|i: int, p: int|
                    0 <= i < entries.len() && #[trigger] occurs_at(x, n[i], p) && p + n[i].len() > bd implies p
                    >= self.total_delivered() by {
                    assert(n[i].len() <= max_len(n));
                    assert(n[i].len() > 0);
                }
            }
        }
    }
}

/// A fill of the rewriting reader that starts with bytes still to hand out
/// (its start below the emit limit) hands out at least one byte read and
/// not yet handed out; one that starts at the end of input with none (it
/// reports the empty range) has handed out every byte read.
pub proof fn lemma_rewriting_begin_range(s: RewritingReaderState)
    requires
        s.wf(),
    ensures
        ({
            let limit = emit_limit(s.buffer_view().len(), s.eof_view(), overlap_for(s.longest_view()));
            &&& s.consumed_view() < limit ==> s.total_delivered() + (limit - s.consumed_view()) <= s.total_read()
            &&& s.consumed_view() >= limit && s.eof_view() ==> s.total_delivered() == s.total_read()
        }),
{
}

/// The range a fill of the rewriting reader hands out after reading (from
/// nothing handed out of the buffer, the last read having ended the input
/// or left more than the overlap buffered) is empty exactly when the input
/// has ended and every byte read was handed out; before the end of input
/// what is handed out stays the overlap (`longest - 1` bytes) behind what
/// was read.
pub proof fn lemma_rewriting_fill_range(s: RewritingReaderState)
    requires
        s.wf(),
        s.consumed_view() == 0,
        s.eof_view() || s.buffer_view().len() > overlap_for(s.longest_view()),
    ensures
        ({
            let o = overlap_for(s.longest_view());
            let limit = emit_limit(s.buffer_view().len(), s.eof_view(), o);
            &&& (limit == 0) == (s.eof_view() && s.total_delivered() == s.total_read())
            &&& limit <= s.buffer_view().len()
            &&& !s.eof_view() ==> s.total_delivered() + limit + o <= s.total_read()
        }),
{
}

/// Streaming a rewrite is rewriting in one go. A reader that ran over the
/// input `x` (read in any chunks, each fill rewritten with a searcher's
/// output that misses nothing, only what a fill handed out consumed), and
/// that has read all of it, rewritten at the end of input and handed out
/// everything, handed out `x` rewritten with any searcher's output on all
/// of `x` that misses nothing, and recorded that rewrite's positions:
/// provided replacements are as long as their needles, no needle is empty,
/// occurrences keep apart and no rewrite creates an occurrence (what
/// [`RewritingReaderState::streams`] asks of `entries` and `x`).
pub proof fn lemma_stream_rewrite_is_one_shot(
    s: RewritingReaderState,
    entries: Seq<RewriteEntry>,
    x: Seq<u8>,
    delivered: Seq<u8>,
    ms: Seq<Match>,
)
    requires
        s.streams(entries, x, delivered, s.total_read() as int),
        s.eof_view(),
        s.consumed_view() == s.buffer_view().len(),
        matches_valid(entry_needles(entries), x, ms),
        matches_complete(entry_needles(entries), x, ms),
    ensures
        delivered == rewritten(entries, x, ms),
        delivered.len() == x.len(),
        s.positions_view() == rewrite_positions(entries, x, 0, ms),
{
    let t = s.total_read() as int;
    assert(s.buffer_view().skip(s.consumed_view() as int) =~= Seq::<u8>::empty());
    assert(delivered + Seq::<u8>::empty() =~= delivered);
    assert(partial(entries, x, t).take(t) =~= partial(entries, x, t));
    lemma_one_shot(entries, x, ms);
}

/// Scanning a stream finds exactly the candidates that occur in it. A
/// reader that ran over the input `x` (read in any chunks, each fill
/// scanned with a searcher's output that misses nothing) feeding a scanner
/// whose flags started as `flags0`, and that has seen and handed out all of
/// `x`, handed out `x` itself; the scanner's flags (then `seen_flags` of
/// all of `x`) are those set at the start or of candidates occurring in
/// `x`: provided no candidate is empty and occurrences of candidates keep
/// apart (what [`ReferenceReaderState::scans`] asks of `cands` and `x`).
pub proof fn lemma_stream_scan_flags(
    s: ReferenceReaderState,
    cands: Seq<Seq<u8>>,
    x: Seq<u8>,
    delivered: Seq<u8>,
    flags0: Seq<bool>,
    flags: Seq<bool>,
)
    requires
        s.scans(cands, x, delivered, x.len() as int),
        s.consumed_view() == s.buffer_view().len(),
        flags == seen_flags(cands, flags0, x, x.len() as int),
    ensures
        delivered == x,
        flags.len() == flags0.len(),
        forall|i: int|
            0 <= i < flags.len() ==> (flags[i] <==> (flags0[i] || exists|p: int| #[trigger] occurs_at(
                x,
                cands[i],
                p,
            ))),
{
    assert(s.buffer_view().skip(s.consumed_view() as int) =~= Seq::<u8>::empty());
    assert(delivered + Seq::<u8>::empty() =~= delivered);
    assert(x.take(x.len() as int) =~= x);
}

} // verus!
