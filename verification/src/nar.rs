//! The NAR (Nix ARchive) serialisation of a file system tree.
//!
//! Every token is a string on the wire: its length as a little-endian u64,
//! its bytes, and zero padding up to a multiple of 8. An archive is
//! `nix-archive-1` followed by the root node:
//!
//! - regular file: `( type regular [executable ""] contents <bytes> )`
//! - symlink: `( type symlink target <target> )`
//! - directory: `( type directory` then, per entry in name order,
//!   `entry ( name <name> node <node> )`, then `)`.

use crate::sorted::{bytes_lt, seq_lt};
use crate::text::push_all;
use vstd::prelude::*;

verus! {

/// A node of a file system tree.
pub enum NarNode {
    Regular { executable: bool, contents: Vec<u8> },
    Symlink { target: Vec<u8> },
    Directory { entries: Vec<NarEntry> },
}

/// A named child of a directory.
pub struct NarEntry {
    pub name: Vec<u8>,
    pub node: NarNode,
}

/// Executable if any execute bit is set in the permission bits.
pub open spec fn spec_is_executable(mode: u32) -> bool {
    mode & 0o111u32 != 0
}

/// Whether a file with these permission bits is archived as executable.
pub fn is_executable(mode: u32) -> (r: bool)
    ensures
        r == spec_is_executable(mode),
{
    mode & 0o111u32 != 0
}

/// `n` as 8 little-endian bytes.
pub open spec fn le_bytes(n: nat, k: nat) -> Seq<u8>
    decreases k,
{
    if k == 0 {
        Seq::empty()
    } else {
        seq![(n % 256) as u8] + le_bytes(n / 256, (k - 1) as nat)
    }
}

/// Zero bytes that pad `n` up to a multiple of 8.
pub open spec fn padding(n: nat) -> nat {
    ((8 - n % 8) % 8) as nat
}

/// A string on the wire.
pub open spec fn wire(s: Seq<u8>) -> Seq<u8> {
    le_bytes(s.len(), 8) + s + Seq::new(padding(s.len()), |i: int| 0u8)
}

/// `.`
pub open spec fn dot() -> Seq<u8> {
    seq![46u8]
}

/// `..`
pub open spec fn dotdot() -> Seq<u8> {
    seq![46u8, 46]
}

/// `.` and `..` never appear in an archive.
pub open spec fn hidden(name: Seq<u8>) -> bool {
    name == dot() || name == dotdot()
}

/// Inserts index `i` into `sorted` after every entry whose name is not
/// greater (a stable insertion).
pub open spec fn insert_idx(es: Seq<NarEntry>, sorted: Seq<int>, i: int) -> Seq<int>
    decreases sorted.len(),
{
    if sorted.len() == 0 {
        seq![i]
    } else if seq_lt(es[i].name@, es[sorted.last()].name@) {
        insert_idx(es, sorted.drop_last(), i).push(sorted.last())
    } else {
        sorted.push(i)
    }
}

/// The indices of the first `k` entries that are archived, in name order
/// (entries with equal names keep their order).
pub open spec fn order_upto(es: Seq<NarEntry>, k: int) -> Seq<int>
    decreases k,
{
    if k <= 0 {
        Seq::empty()
    } else if hidden(es[k - 1].name@) {
        order_upto(es, k - 1)
    } else {
        insert_idx(es, order_upto(es, k - 1), k - 1)
    }
}

/// The indices of the entries that are archived, in name order.
pub open spec fn entry_order(es: Seq<NarEntry>) -> Seq<int> {
    order_upto(es, es.len() as int)
}

/// `(`, `)`, `type`, ... as wire strings.
pub open spec fn tok(b: Seq<u8>) -> Seq<u8> {
    wire(b)
}

pub open spec fn s_open() -> Seq<u8> {
    seq![40u8]
}

pub open spec fn s_close() -> Seq<u8> {
    seq![41u8]
}

pub open spec fn s_type() -> Seq<u8> {
    seq![116u8, 121, 112, 101]
}

pub open spec fn s_regular() -> Seq<u8> {
    seq![114u8, 101, 103, 117, 108, 97, 114]
}

pub open spec fn s_executable() -> Seq<u8> {
    seq![101u8, 120, 101, 99, 117, 116, 97, 98, 108, 101]
}

pub open spec fn s_contents() -> Seq<u8> {
    seq![99u8, 111, 110, 116, 101, 110, 116, 115]
}

pub open spec fn s_symlink() -> Seq<u8> {
    seq![115u8, 121, 109, 108, 105, 110, 107]
}

pub open spec fn s_target() -> Seq<u8> {
    seq![116u8, 97, 114, 103, 101, 116]
}

pub open spec fn s_directory() -> Seq<u8> {
    seq![100u8, 105, 114, 101, 99, 116, 111, 114, 121]
}

pub open spec fn s_entry() -> Seq<u8> {
    seq![101u8, 110, 116, 114, 121]
}

pub open spec fn s_name() -> Seq<u8> {
    seq![110u8, 97, 109, 101]
}

pub open spec fn s_node() -> Seq<u8> {
    seq![110u8, 111, 100, 101]
}

pub open spec fn s_magic() -> Seq<u8> {
    seq![110u8, 105, 120, 45, 97, 114, 99, 104, 105, 118, 101, 45, 49]
}

/// The serialisation of a node.
pub open spec fn node_bytes(n: NarNode) -> Seq<u8>
    decreases n, 0nat,
{
    match n {
        NarNode::Regular { executable, contents } => tok(s_open()) + tok(s_type()) + tok(s_regular())
            + (if executable {
            tok(s_executable()) + tok(Seq::empty())
        } else {
            Seq::empty()
        }) + tok(s_contents()) + wire(contents@) + tok(s_close()),
        NarNode::Symlink { target } => tok(s_open()) + tok(s_type()) + tok(s_symlink()) + tok(
            s_target(),
        ) + wire(target@) + tok(s_close()),
        NarNode::Directory { entries } => tok(s_open()) + tok(s_type()) + tok(s_directory())
            + entries_bytes(entries@, entry_order(entries@), entry_order(entries@).len()) + tok(
            s_close(),
        ),
    }
}

/// The serialisation of one directory entry.
pub open spec fn entry_piece(e: NarEntry) -> Seq<u8>
    decreases e, 0nat,
{
    tok(s_entry()) + tok(s_open()) + tok(s_name()) + wire(e.name@) + tok(s_node()) + node_bytes(e.node)
        + tok(s_close())
}

/// The serialisation of the entries at `ord[0..k)`.
pub open spec fn entries_bytes(es: Seq<NarEntry>, ord: Seq<int>, k: nat) -> Seq<u8>
    decreases es, k,
{
    if k == 0 || k > ord.len() {
        Seq::empty()
    } else {
        let j = ord[k - 1];
        entries_bytes(es, ord, (k - 1) as nat) + if 0 <= j < es.len() {
            entry_piece(es[j])
        } else {
            Seq::empty()
        }
    }
}

/// The archive of a tree.
pub open spec fn nar_bytes(root: NarNode) -> Seq<u8> {
    tok(s_magic()) + node_bytes(root)
}

/// Writes `n` as 8 little-endian bytes.
fn write_u64(out: &mut Vec<u8>, n: u64)
    ensures
        final(out)@ == old(out)@ + le_bytes(n as nat, 8),
{
    let mut x: u64 = n;
    let mut i: usize = 0;
    while i < 8
        invariant
            i <= 8,
            out@ + le_bytes(x as nat, (8 - i) as nat) == old(out)@ + le_bytes(n as nat, 8),
        decreases 8 - i,
    {
        let ghost before = out@;
        out.push((x % 256) as u8);
        proof {
            assert(le_bytes(x as nat, (8 - i) as nat) == seq![(x % 256) as u8] + le_bytes(
                (x / 256) as nat,
                (8 - i - 1) as nat,
            ));
            assert(out@ + le_bytes((x / 256) as nat, (8 - i - 1) as nat) =~= before + le_bytes(
                x as nat,
                (8 - i) as nat,
            ));
        }
        x = x / 256;
        i = i + 1;
    }
    assert(le_bytes(x as nat, 0) =~= Seq::<u8>::empty());
    assert(out@ =~= out@ + le_bytes(x as nat, 0));
}

/// Writes `s` as a wire string.
fn write_wire(out: &mut Vec<u8>, s: &[u8])
    ensures
        final(out)@ == old(out)@ + wire(s@),
{
    write_u64(out, s.len() as u64);
    push_all(out, s);
    let pad = (8 - s.len() % 8) % 8;
    let mut i: usize = 0;
    let ghost mid = out@;
    while i < pad
        invariant
            pad == padding(s@.len()),
            i <= pad,
            out@ == mid + Seq::new(i as nat, |k: int| 0u8),
        decreases pad - i,
    {
        out.push(0u8);
        i = i + 1;
        assert(out@ =~= mid + Seq::new(i as nat, |k: int| 0u8));
    }
    assert(out@ =~= old(out)@ + wire(s@));
}

fn is_hidden(name: &[u8]) -> (r: bool)
    ensures
        r == hidden(name@),
{
    let one: [u8; 1] = [46u8];
    let two: [u8; 2] = [46u8, 46];
    assert(one@ =~= dot());
    assert(two@ =~= dotdot());
    let d = crate::refscan::bytes_eq(name, one.as_slice());
    let dd = crate::refscan::bytes_eq(name, two.as_slice());
    d || dd
}

/// The archived entries of a directory, in name order.
pub fn sorted_entry_indices(entries: &Vec<NarEntry>) -> (r: Vec<usize>)
    ensures
        r@.len() == entry_order(entries@).len(),
        forall|i: int| 0 <= i < r@.len() ==> r@[i] as int == #[trigger] entry_order(entries@)[i],
{
    let ghost es = entries@;
    let mut order: Vec<usize> = Vec::new();
    let mut k: usize = 0;
    while k < entries.len()
        invariant
            es == entries@,
            k <= es.len(),
            order@.map_values(|x: usize| x as int) == order_upto(es, k as int),
            forall|i: int| 0 <= i < order@.len() ==> #[trigger] order@[i] < k,
        decreases es.len() - k,
    {
        if !is_hidden(entries[k].name.as_slice()) {
            // find where k goes: after every entry whose name is not greater
            let ghost sorted = order_upto(es, k as int);
            let mut p: usize = order.len();
            assert(sorted.take(p as int) =~= sorted);
            assert(insert_idx(es, sorted, k as int) =~= insert_idx(es, sorted.take(p as int), k as int) + sorted.skip(p as int));
            while p > 0
                invariant
                    p <= order@.len(),
                    k < es.len(),
                    es == entries@,
                    order@.map_values(|x: usize| x as int) == sorted,
                    forall|i: int| 0 <= i < order@.len() ==> #[trigger] order@[i] < k,
                    insert_idx(es, sorted, k as int) == insert_idx(es, sorted.take(p as int), k as int)
                        + sorted.skip(p as int),
                ensures
                    p <= order@.len(),
                    insert_idx(es, sorted, k as int) == insert_idx(es, sorted.take(p as int), k as int)
                        + sorted.skip(p as int),
                    p > 0 ==> !seq_lt(es[k as int].name@, es[order@[p - 1] as int].name@),
                decreases p,
            {
                let last = order[p - 1];
                if !bytes_lt(entries[k].name.as_slice(), entries[last].name.as_slice()) {
                    break;
                }
                proof {
                    assert(sorted.take(p as int).last() == last as int);
                    assert(sorted.take(p as int).drop_last() =~= sorted.take(p - 1));
                    assert(insert_idx(es, sorted.take(p as int), k as int) == insert_idx(es, sorted.take(p - 1), k as int).push(last as int));
                    assert(insert_idx(es, sorted.take(p - 1), k as int).push(last as int) + sorted.skip(p as int) =~= insert_idx(es, sorted.take(p - 1), k as int) + sorted.skip(p - 1));
                }
                p = p - 1;
            }
            proof {
                if p == 0 {
                    assert(sorted.take(0) =~= Seq::<int>::empty());
                    assert(insert_idx(es, sorted.take(0), k as int) == seq![k as int]);
                } else {
                    assert(sorted.take(p as int).last() == order@[p - 1] as int);
                    assert(insert_idx(es, sorted.take(p as int), k as int) == sorted.take(p as int).push(k as int));
                }
            }
            let ghost before = order@;
            order.insert(p, k);
            assert(order@.map_values(|x: usize| x as int) =~= sorted.take(p as int).push(k as int) + sorted.skip(p as int));
            assert(order@.map_values(|x: usize| x as int) =~= order_upto(es, k + 1));
        } else {
            assert(order_upto(es, k + 1) == order_upto(es, k as int));
        }
        k = k + 1;
    }
    order
}

fn write_regular(out: &mut Vec<u8>, executable: bool, contents: &Vec<u8>)
    ensures
        final(out)@ == old(out)@ + node_bytes(NarNode::Regular { executable, contents: *contents }),
{
    write_wire(out, &[40u8]);
    write_wire(out, &[116u8, 121, 112, 101]);
    write_wire(out, &[114u8, 101, 103, 117, 108, 97, 114]);
    let ghost mid = out@;
    if executable {
        write_wire(out, &[101u8, 120, 101, 99, 117, 116, 97, 98, 108, 101]);
        write_wire(out, &[]);
    }
    write_wire(out, &[99u8, 111, 110, 116, 101, 110, 116, 115]);
    write_wire(out, contents.as_slice());
    write_wire(out, &[41u8]);
    proof {
        assert(seq![40u8] =~= s_open());
        assert(seq![41u8] =~= s_close());
        assert(seq![116u8, 121, 112, 101] =~= s_type());
        assert(seq![114u8, 101, 103, 117, 108, 97, 114] =~= s_regular());
        assert(seq![101u8, 120, 101, 99, 117, 116, 97, 98, 108, 101] =~= s_executable());
        assert(seq![99u8, 111, 110, 116, 101, 110, 116, 115] =~= s_contents());
    }
    assert(out@ =~= old(out)@ + node_bytes(NarNode::Regular { executable, contents: *contents }));
}

fn write_symlink(out: &mut Vec<u8>, target: &Vec<u8>)
    ensures
        final(out)@ == old(out)@ + node_bytes(NarNode::Symlink { target: *target }),
{
    write_wire(out, &[40u8]);
    write_wire(out, &[116u8, 121, 112, 101]);
    write_wire(out, &[115u8, 121, 109, 108, 105, 110, 107]);
    write_wire(out, &[116u8, 97, 114, 103, 101, 116]);
    write_wire(out, target.as_slice());
    write_wire(out, &[41u8]);
    proof {
        assert(seq![40u8] =~= s_open());
        assert(seq![41u8] =~= s_close());
        assert(seq![116u8, 121, 112, 101] =~= s_type());
        assert(seq![115u8, 121, 109, 108, 105, 110, 107] =~= s_symlink());
        assert(seq![116u8, 97, 114, 103, 101, 116] =~= s_target());
    }
    assert(out@ =~= old(out)@ + node_bytes(NarNode::Symlink { target: *target }));
}

/// `entry ( name <name> node`
fn write_entry_head(out: &mut Vec<u8>, name: &Vec<u8>)
    ensures
        final(out)@ == old(out)@ + tok(s_entry()) + tok(s_open()) + tok(s_name()) + wire(name@) + tok(s_node()),
{
    write_wire(out, &[101u8, 110, 116, 114, 121]);
    write_wire(out, &[40u8]);
    write_wire(out, &[110u8, 97, 109, 101]);
    write_wire(out, name.as_slice());
    write_wire(out, &[110u8, 111, 100, 101]);
    proof {
        assert(seq![40u8] =~= s_open());
        assert(seq![101u8, 110, 116, 114, 121] =~= s_entry());
        assert(seq![110u8, 97, 109, 101] =~= s_name());
        assert(seq![110u8, 111, 100, 101] =~= s_node());
    }
    assert(out@ =~= old(out)@ + tok(s_entry()) + tok(s_open()) + tok(s_name()) + wire(name@) + tok(s_node()));
}

/// Writes the serialisation of `n`.
pub fn write_node(out: &mut Vec<u8>, n: &NarNode)
    ensures
        final(out)@ == old(out)@ + node_bytes(*n),
    decreases n, 0nat,
{
    match n {
        NarNode::Regular { executable, contents } => {
            write_regular(out, *executable, contents);
        },
        NarNode::Symlink { target } => {
            write_symlink(out, target);
        },
        NarNode::Directory { entries } => {
            let ghost start = out@;
            write_wire(out, &[40u8]);
            write_wire(out, &[116u8, 121, 112, 101]);
            write_wire(out, &[100u8, 105, 114, 101, 99, 116, 111, 114, 121]);
            proof {
                assert(seq![40u8] =~= s_open());
                assert(seq![41u8] =~= s_close());
                assert(seq![116u8, 121, 112, 101] =~= s_type());
                assert(seq![100u8, 105, 114, 101, 99, 116, 111, 114, 121] =~= s_directory());
            }
            let ghost head = out@;
            proof {
                assert(decreases_to!(*n => n->entries));
                assert(decreases_to!(n->entries => n->entries@));
            }
            write_entries(out, entries);
            write_wire(out, &[41u8]);
            assert(out@ =~= old(out)@ + node_bytes(*n));
        },
    }
}

/// One more entry of the order appends that entry's serialisation.
proof fn lemma_entries_step(es: Seq<NarEntry>, ord: Seq<int>, i: nat)
    requires
        i < ord.len(),
        0 <= ord[i as int] < es.len(),
    ensures
        entries_bytes(es, ord, i + 1) == entries_bytes(es, ord, i) + entry_piece(es[ord[i as int]]),
{
}

/// Writes one directory entry.
fn write_entry(out: &mut Vec<u8>, e: &NarEntry)
    ensures
        final(out)@ == old(out)@ + entry_piece(*e),
    decreases *e, 0nat,
{
    write_entry_head(out, &e.name);
    write_node(out, &e.node);
    write_wire(out, &[41u8]);
    proof {
        assert(seq![41u8] =~= s_close());
    }
    assert(out@ =~= old(out)@ + entry_piece(*e));
}

/// Writes the entries of a directory in name order.
fn write_entries(out: &mut Vec<u8>, entries: &Vec<NarEntry>)
    ensures
        final(out)@ == old(out)@ + entries_bytes(entries@, entry_order(entries@), entry_order(entries@).len()),
    decreases entries@, 1nat,
{
    let ghost head = out@;
    let order = sorted_entry_indices(entries);
    let ghost ord = entry_order(entries@);
    proof {
        lemma_order_in_bounds(entries@, entries@.len() as int);
    }
    let mut i: usize = 0;
    while i < order.len()
        invariant
            ord == entry_order(entries@),
            forall|x: int| 0 <= x < ord.len() ==> 0 <= #[trigger] ord[x] < entries@.len(),
            order@.len() == ord.len(),
            forall|x: int| 0 <= x < order@.len() ==> order@[x] as int == #[trigger] ord[x],
            i <= order@.len(),
            out@ == head + entries_bytes(entries@, ord, i as nat),
        decreases order@.len() - i,
    {
        let j = order[i];
        assert(ord[i as int] == j as int);
        let ghost before = out@;
        proof {
            assert(decreases_to!(entries@ => entries@[j as int]));
            lemma_entries_step(entries@, ord, i as nat);
        }
        write_entry(out, &entries[j]);
        i = i + 1;
        assert(out@ =~= head + entries_bytes(entries@, ord, i as nat));
    }
}

/// Every index in the order names an entry.
pub proof fn lemma_order_in_bounds(es: Seq<NarEntry>, k: int)
    requires
        k <= es.len(),
    ensures
        forall|x: int| 0 <= x < order_upto(es, k).len() ==> 0 <= #[trigger] order_upto(es, k)[x] < k,
    decreases k,
{
    if k > 0 {
        lemma_order_in_bounds(es, k - 1);
        if !hidden(es[k - 1].name@) {
            lemma_insert_idx_members(es, order_upto(es, k - 1), k - 1);
        }
    }
}

/// Insertion adds `i` and keeps the other indices.
pub proof fn lemma_insert_idx_members(es: Seq<NarEntry>, sorted: Seq<int>, i: int)
    ensures
        insert_idx(es, sorted, i).len() == sorted.len() + 1,
        forall|x: int|
            0 <= x < insert_idx(es, sorted, i).len() ==> #[trigger] insert_idx(es, sorted, i)[x] == i
                || sorted.contains(insert_idx(es, sorted, i)[x]),
    decreases sorted.len(),
{
    if sorted.len() > 0 && seq_lt(es[i].name@, es[sorted.last()].name@) {
        lemma_insert_idx_members(es, sorted.drop_last(), i);
        let r = insert_idx(es, sorted, i);
        let r0 = insert_idx(es, sorted.drop_last(), i);
        assert forall|x: int| 0 <= x < r.len() implies #[trigger] r[x] == i || sorted.contains(r[x]) by {
            if x < r0.len() {
                assert(r[x] == r0[x]);
                if r0[x] != i {
                    let y = choose|y: int| 0 <= y < sorted.drop_last().len() && sorted.drop_last()[y] == r0[x];
                    assert(sorted[y] == r0[x]);
                }
            } else {
                assert(r[x] == sorted.last());
                assert(sorted[sorted.len() - 1] == r[x]);
            }
        }
    } else if sorted.len() > 0 {
        let r = insert_idx(es, sorted, i);
        assert forall|x: int| 0 <= x < r.len() implies #[trigger] r[x] == i || sorted.contains(r[x]) by {
            if x < sorted.len() {
                assert(r[x] == sorted[x]);
            }
        }
    }
}

/// Names at the listed indices never decrease.
pub open spec fn names_nondecreasing(es: Seq<NarEntry>, ord: Seq<int>) -> bool {
    forall|a: int, b: int| 0 <= a < b < ord.len() ==> !seq_lt(es[#[trigger] ord[b]].name@, es[#[trigger] ord[a]].name@)
}

/// Insertion keeps the names in order, lists `i` and the given indices, and
/// repeats none of them.
proof fn lemma_insert_idx_sorted(es: Seq<NarEntry>, sorted: Seq<int>, i: int)
    requires
        names_nondecreasing(es, sorted),
        sorted.no_duplicates(),
        !sorted.contains(i),
    ensures
        names_nondecreasing(es, insert_idx(es, sorted, i)),
        insert_idx(es, sorted, i).no_duplicates(),
        forall|x: int| #[trigger] insert_idx(es, sorted, i).contains(x) <==> x == i || sorted.contains(x),
    decreases sorted.len(),
{
    let r = insert_idx(es, sorted, i);
    if sorted.len() == 0 {
        assert(r =~= seq![i]);
        assert forall|x: int| #[trigger] r.contains(x) <==> x == i || sorted.contains(x) by {
            if r.contains(x) {
                assert(r[0] == i);
            }
            if x == i {
                assert(r[0] == x);
            }
        }
    } else if seq_lt(es[i].name@, es[sorted.last()].name@) {
        let d = sorted.drop_last();
        let l = sorted.last();
        assert forall|a: int, b: int| 0 <= a < b < d.len() implies !seq_lt(es[#[trigger] d[b]].name@, es[#[trigger] d[a]].name@) by {
            assert(d[a] == sorted[a] && d[b] == sorted[b]);
        }
        assert(d.no_duplicates()) by {
            assert forall|a: int, b: int| 0 <= a < d.len() && 0 <= b < d.len() && a != b implies d[a] != d[b] by {
                assert(d[a] == sorted[a] && d[b] == sorted[b]);
            }
        }
        assert(!d.contains(i)) by {
            if d.contains(i) {
                let y = choose|y: int| 0 <= y < d.len() && d[y] == i;
                assert(sorted[y] == i);
            }
        }
        lemma_insert_idx_sorted(es, d, i);
        let r0 = insert_idx(es, d, i);
        assert(r == r0.push(l));
        assert forall|x: int| #[trigger] r.contains(x) <==> x == i || sorted.contains(x) by {
            if r.contains(x) {
                let y = choose|y: int| 0 <= y < r.len() && r[y] == x;
                if y < r0.len() {
                    assert(r0[y] == x);
                    assert(r0.contains(x));
                    if x != i {
                        let z = choose|z: int| 0 <= z < d.len() && d[z] == x;
                        assert(sorted[z] == x);
                    }
                } else {
                    assert(sorted[sorted.len() - 1] == x);
                }
            }
            if x == i || sorted.contains(x) {
                if x == i {
                    assert(r0.contains(i));
                    let y = choose|y: int| 0 <= y < r0.len() && r0[y] == i;
                    assert(r[y] == x);
                } else {
                    let z = choose|z: int| 0 <= z < sorted.len() && sorted[z] == x;
                    if z == sorted.len() - 1 {
                        assert(r[r.len() - 1] == x);
                    } else {
                        assert(d[z] == x);
                        assert(r0.contains(x));
                        let y = choose|y: int| 0 <= y < r0.len() && r0[y] == x;
                        assert(r[y] == x);
                    }
                }
            }
        }
        // the last index is at least as large by name as every other one
        assert forall|y: int| 0 <= y < r0.len() implies !seq_lt(es[l].name@, es[#[trigger] r0[y]].name@) by {
            assert(r0.contains(r0[y]));
            if r0[y] == i {
                crate::sorted::lemma_lt_asymmetric(es[i].name@, es[l].name@);
            } else {
                let z = choose|z: int| 0 <= z < d.len() && d[z] == r0[y];
                assert(sorted[z] == r0[y]);
                assert(sorted[sorted.len() - 1] == l);
            }
        }
        assert forall|a: int, b: int| 0 <= a < b < r.len() implies !seq_lt(es[#[trigger] r[b]].name@, es[#[trigger] r[a]].name@) by {
            if b < r0.len() {
                assert(r[a] == r0[a] && r[b] == r0[b]);
            } else {
                assert(r[a] == r0[a]);
                assert(r[b] == l);
            }
        }
        assert forall|a: int, b: int| 0 <= a < r.len() && 0 <= b < r.len() && a != b implies r[a] != r[b] by {
            if a < r0.len() && b < r0.len() {
                assert(r[a] == r0[a] && r[b] == r0[b]);
            } else if a < r0.len() {
                assert(r[b] == l);
                assert(r[a] == r0[a]);
                assert(r0.contains(r0[a]));
                if r0[a] == l {
                    if l == i {
                        assert(sorted[sorted.len() - 1] == i);
                    } else {
                        let z = choose|z: int| 0 <= z < d.len() && d[z] == l;
                        assert(sorted[z] == l);
                        assert(sorted[sorted.len() - 1] == l);
                    }
                }
            } else if b < r0.len() {
                assert(r[a] == l);
                assert(r[b] == r0[b]);
                assert(r0.contains(r0[b]));
                if r0[b] == l {
                    if l == i {
                        assert(sorted[sorted.len() - 1] == i);
                    } else {
                        let z = choose|z: int| 0 <= z < d.len() && d[z] == l;
                        assert(sorted[z] == l);
                        assert(sorted[sorted.len() - 1] == l);
                    }
                }
            }
        }
    } else {
        let l = sorted.last();
        assert(r == sorted.push(i));
        assert forall|y: int| 0 <= y < sorted.len() implies !seq_lt(es[i].name@, es[#[trigger] sorted[y]].name@) by {
            if y < sorted.len() - 1 {
                assert(!seq_lt(es[l].name@, es[sorted[y]].name@));
                crate::sorted::lemma_lt_total(es[l].name@, es[sorted[y]].name@);
                if seq_lt(es[i].name@, es[sorted[y]].name@) {
                    if es[sorted[y]].name@ != es[l].name@ {
                        crate::sorted::lemma_lt_transitive(es[i].name@, es[sorted[y]].name@, es[l].name@);
                    }
                }
            }
        }
        assert forall|a: int, b: int| 0 <= a < b < r.len() implies !seq_lt(es[#[trigger] r[b]].name@, es[#[trigger] r[a]].name@) by {
            assert(r[a] == sorted[a]);
            if b < sorted.len() {
                assert(r[b] == sorted[b]);
            }
        }
        assert forall|x: int| #[trigger] r.contains(x) <==> x == i || sorted.contains(x) by {
            if r.contains(x) {
                let y = choose|y: int| 0 <= y < r.len() && r[y] == x;
                if y < sorted.len() {
                    assert(sorted[y] == x);
                }
            }
            if x == i {
                assert(r[r.len() - 1] == x);
            } else if sorted.contains(x) {
                let z = choose|z: int| 0 <= z < sorted.len() && sorted[z] == x;
                assert(r[z] == x);
            }
        }
        assert forall|a: int, b: int| 0 <= a < r.len() && 0 <= b < r.len() && a != b implies r[a] != r[b] by {
            if a < sorted.len() && b < sorted.len() {
                assert(r[a] == sorted[a] && r[b] == sorted[b]);
            } else if a < sorted.len() {
                assert(r[a] == sorted[a]);
                assert(sorted.contains(sorted[a]));
            } else if b < sorted.len() {
                assert(r[b] == sorted[b]);
                assert(sorted.contains(sorted[b]));
            }
        }
    }
}

proof fn lemma_order_upto_sorted(es: Seq<NarEntry>, k: int)
    requires
        0 <= k <= es.len(),
    ensures
        names_nondecreasing(es, order_upto(es, k)),
        order_upto(es, k).no_duplicates(),
        forall|x: int| #[trigger] order_upto(es, k).contains(x) <==> 0 <= x < k && !hidden(es[x].name@),
    decreases k,
{
    if k > 0 {
        lemma_order_upto_sorted(es, k - 1);
        let prev = order_upto(es, k - 1);
        if !hidden(es[k - 1].name@) {
            assert(!prev.contains(k - 1));
            lemma_insert_idx_sorted(es, prev, k - 1);
        }
    } else {
        assert forall|x: int| #[trigger] order_upto(es, k).contains(x) <==> 0 <= x < k && !hidden(es[x].name@) by {
            assert(order_upto(es, k) =~= Seq::<int>::empty());
        }
    }
}

/// A directory's entries are archived in order of their names (equal names
/// in the order given), each entry other than `.` and `..` exactly once.
pub proof fn lemma_entries_archived_in_name_order(es: Seq<NarEntry>)
    ensures
        names_nondecreasing(es, entry_order(es)),
        entry_order(es).no_duplicates(),
        forall|x: int| #[trigger] entry_order(es).contains(x) <==> 0 <= x < es.len() && !hidden(es[x].name@),
{
    lemma_order_upto_sorted(es, es.len() as int);
}

/// The archive of a tree.
pub fn nar(root: &NarNode) -> (r: Vec<u8>)
    ensures
        r@ == nar_bytes(*root),
{
    let mut out: Vec<u8> = Vec::new();
    write_wire(&mut out, &[110u8, 105, 120, 45, 97, 114, 99, 104, 105, 118, 101, 45, 49]);
    assert(seq![110u8, 105, 120, 45, 97, 114, 99, 104, 105, 118, 101, 45, 49] =~= s_magic());
    write_node(&mut out, root);
    assert(out@ =~= nar_bytes(*root));
    out
}

} // verus!
