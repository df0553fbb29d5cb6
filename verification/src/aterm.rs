//! Finding the references of a derivation in its ATerm text without parsing
//! it fully, and the `.drv` store path that follows from them.
//!
//! `Derive([outputs],[input derivations],[input sources],system,...)`: of
//! the lists at the top level of the term (not nested in another list), the
//! second holds the input derivations, the third the input sources.
//! Brackets inside string literals do not count.
//!
//! The scanners work on the UTF-8 bytes: every character they look at
//! (`"`, `\`, `[`, `]`, `,`, `)`) is ASCII, and in UTF-8 no byte of a
//! multi-byte character is ASCII.

use crate::refscan::bytes_view;
use crate::sorted::{insert_sorted, strictly_sorted};
use crate::store_path::{
    build_text_path, ca_path_ok, references_string, text_ty, StorePath,
};
use crate::text::{has_prefix, starts_with};
use vstd::prelude::*;

verus! {

/// Lexer state after a byte: (inside a string literal, after a backslash
/// inside it).
pub open spec fn lex_step(st: (bool, bool), c: u8) -> (bool, bool) {
    if st.0 {
        if st.1 {
            (true, false)
        } else if c == 92 {
            (true, true)
        } else if c == 34 {
            (false, false)
        } else {
            (true, false)
        }
    } else if c == 34 {
        (true, false)
    } else {
        (false, false)
    }
}

/// Lexer state before byte `k`.
pub open spec fn lex(s: Seq<u8>, k: int) -> (bool, bool)
    decreases k,
{
    if k <= 0 {
        (false, false)
    } else {
        lex_step(lex(s, k - 1), s[k - 1])
    }
}

/// Byte `i` is a `[` outside string literals.
pub open spec fn is_open(s: Seq<u8>, i: int) -> bool {
    !lex(s, i).0 && s[i] == 91
}

/// Byte `i` is a `]` outside string literals.
pub open spec fn is_close(s: Seq<u8>, i: int) -> bool {
    !lex(s, i).0 && s[i] == 93
}

/// Byte `i` opens a top-level list: a `[` outside string literals and
/// outside any other list.
pub open spec fn is_top_open(s: Seq<u8>, i: int) -> bool {
    is_open(s, i) && depth_after(s, i) == 0
}

/// Number of top-level lists opened before byte `k`.
pub open spec fn top_opens_before(s: Seq<u8>, k: int) -> nat
    decreases k,
{
    if k <= 0 {
        0
    } else {
        top_opens_before(s, k - 1) + if is_top_open(s, k - 1) {
            1nat
        } else {
            0nat
        }
    }
}

/// Byte `i` opens the `n`-th top-level list (counting from 1).
pub open spec fn is_nth_top_open(s: Seq<u8>, n: nat, i: int) -> bool {
    is_top_open(s, i) && top_opens_before(s, i) + 1 == n
}

/// The first `i >= k` at which the `n`-th top-level list opens.
pub open spec fn nth_top_open_from(s: Seq<u8>, n: nat, k: int) -> Option<int>
    decreases s.len() - k,
{
    if k < 0 || k >= s.len() {
        None
    } else if is_nth_top_open(s, n, k) {
        Some(k)
    } else {
        nth_top_open_from(s, n, k + 1)
    }
}

/// Where the `n`-th top-level list (counting from 1) opens, if there are
/// that many.
pub open spec fn nth_top_list_start(s: Seq<u8>, n: nat) -> Option<int> {
    nth_top_open_from(s, n, 0)
}

/// Number of lists (at any depth) opened before byte `k`.
pub open spec fn opens_before(s: Seq<u8>, k: int) -> nat
    decreases k,
{
    if k <= 0 {
        0
    } else {
        opens_before(s, k - 1) + if is_open(s, k - 1) {
            1nat
        } else {
            0nat
        }
    }
}

/// Byte `i` opens the `n`-th list (counting from 1, at any depth).
pub open spec fn is_nth_open(s: Seq<u8>, n: nat, i: int) -> bool {
    is_open(s, i) && opens_before(s, i) + 1 == n
}

/// The first `i >= k` at which the `n`-th list opens.
pub open spec fn nth_open_from(s: Seq<u8>, n: nat, k: int) -> Option<int>
    decreases s.len() - k,
{
    if k < 0 || k >= s.len() {
        None
    } else if is_nth_open(s, n, k) {
        Some(k)
    } else {
        nth_open_from(s, n, k + 1)
    }
}

/// Where the `n`-th list (counting from 1) opens: the `n`-th `[` outside
/// string literals, if there are that many.
pub open spec fn nth_list_start(s: Seq<u8>, n: nat) -> Option<int> {
    nth_open_from(s, n, 0)
}

/// Finds the start of the `n`-th list: every `[` outside string literals
/// counts, nested or not.
pub fn find_nth_list_start(s: &[u8], n: usize) -> (r: Option<usize>)
    ensures
        r matches Some(i) ==> nth_list_start(s@, n as nat) == Some(i as int),
        r is None ==> nth_list_start(s@, n as nat) is None,
{
    let mut count: usize = 0;
    let mut in_string = false;
    let mut escape = false;
    let mut i: usize = 0;
    while i < s.len()
        invariant
            i <= s@.len(),
            count == opens_before(s@, i as int),
            count <= i,
            (in_string, escape) == lex(s@, i as int),
            nth_open_from(s@, n as nat, 0) == nth_open_from(s@, n as nat, i as int),
        decreases s@.len() - i,
    {
        let c = s[i];
        assert((!in_string && c == 91) == is_open(s@, i as int));
        if in_string {
            if escape {
                escape = false;
            } else if c == 92 {
                escape = true;
            } else if c == 34 {
                in_string = false;
            }
        } else {
            if c == 34 {
                in_string = true;
            } else if c == 91 {
                count = count + 1;
                if count == n {
                    return Some(i);
                }
            }
        }
        i = i + 1;
    }
    None
}

/// Finds the start of the `n`-th top-level list.
fn find_nth_top_list_start(s: &[u8], n: usize) -> (r: Option<usize>)
    requires
        s@.len() < 0x7fff_ffff_ffff_ffff,
    ensures
        r matches Some(i) ==> nth_top_list_start(s@, n as nat) == Some(i as int),
        r is None ==> nth_top_list_start(s@, n as nat) is None,
{
    let mut count: usize = 0;
    let mut depth: i64 = 0;
    let mut in_string = false;
    let mut escape = false;
    let mut i: usize = 0;
    while i < s.len()
        invariant
            i <= s@.len(),
            s@.len() < 0x7fff_ffff_ffff_ffff,
            count == top_opens_before(s@, i as int),
            count <= i,
            depth == depth_after(s@, i as int),
            (in_string, escape) == lex(s@, i as int),
            nth_top_open_from(s@, n as nat, 0) == nth_top_open_from(s@, n as nat, i as int),
        decreases s@.len() - i,
    {
        proof {
            lemma_depth_bound(s@, i as int);
        }
        let c = s[i];
        let top = !in_string && c == 91 && depth == 0;
        assert(top == is_top_open(s@, i as int));
        if in_string {
            if escape {
                escape = false;
            } else if c == 92 {
                escape = true;
            } else if c == 34 {
                in_string = false;
            }
        } else {
            if c == 34 {
                in_string = true;
            } else if c == 91 {
                if depth == 0 {
                    count = count + 1;
                    if count == n {
                        return Some(i);
                    }
                }
                depth = depth + 1;
            } else if c == 93 {
                depth = depth - 1;
            }
        }
        i = i + 1;
    }
    None
}

/// Depth change of byte `k` of `t`.
pub open spec fn depth_delta(t: Seq<u8>, k: int) -> int {
    if is_open(t, k) {
        1
    } else if is_close(t, k) {
        -1
    } else {
        0
    }
}

/// Bracket depth after the first `k` bytes of `t`.
pub open spec fn depth_after(t: Seq<u8>, k: int) -> int
    decreases k,
{
    if k <= 0 {
        0
    } else {
        depth_after(t, k - 1) + depth_delta(t, k - 1)
    }
}

/// Byte `k` of `t` closes back to depth 0.
pub open spec fn closes_to_zero(t: Seq<u8>, k: int) -> bool {
    is_close(t, k) && depth_after(t, k + 1) == 0
}

/// The first `k' >= k` at which `t` closes back to depth 0.
pub open spec fn first_close_from(t: Seq<u8>, k: int) -> Option<int>
    decreases t.len() - k,
{
    if k < 0 || k >= t.len() {
        None
    } else if closes_to_zero(t, k) {
        Some(k)
    } else {
        first_close_from(t, k + 1)
    }
}

/// The `]` that matches the bracket at `pos`, lexing afresh from `pos`.
pub open spec fn matching_bracket(s: Seq<u8>, pos: int) -> Option<int> {
    match first_close_from(s.skip(pos), 0) {
        Some(k) => Some(pos + k),
        None => None,
    }
}

proof fn lemma_depth_bound(t: Seq<u8>, k: int)
    requires
        0 <= k,
    ensures
        -k <= depth_after(t, k) <= k,
    decreases k,
{
    if k > 0 {
        lemma_depth_bound(t, k - 1);
    }
}

/// Finds the bracket that closes the one at `opening_pos`.
fn find_matching_bracket(s: &[u8], opening_pos: usize) -> (r: Option<usize>)
    requires
        opening_pos <= s@.len(),
        s@.len() < 0x7fff_ffff_ffff_ffff,
    ensures
        r matches Some(j) ==> matching_bracket(s@, opening_pos as int) == Some(j as int),
        r is None ==> matching_bracket(s@, opening_pos as int) is None,
{
    let ghost t = s@.skip(opening_pos as int);
    let mut depth: i64 = 0;
    let mut in_string = false;
    let mut escape = false;
    let mut i: usize = opening_pos;
    while i < s.len()
        invariant
            t == s@.skip(opening_pos as int),
            opening_pos <= i <= s@.len(),
            s@.len() < 0x7fff_ffff_ffff_ffff,
            depth == depth_after(t, i - opening_pos),
            (in_string, escape) == lex(t, i - opening_pos),
            first_close_from(t, 0) == first_close_from(t, i - opening_pos),
        decreases s@.len() - i,
    {
        let ghost k = i - opening_pos;
        proof {
            lemma_depth_bound(t, k);
            assert(t[k] == s@[i as int]);
        }
        let c = s[i];
        if in_string {
            if escape {
                escape = false;
            } else if c == 92 {
                escape = true;
            } else if c == 34 {
                in_string = false;
            }
        } else {
            if c == 34 {
                in_string = true;
            } else if c == 91 {
                depth = depth + 1;
            } else if c == 93 {
                depth = depth - 1;
                if depth == 0 {
                    assert(closes_to_zero(t, k));
                    return Some(i);
                }
            }
        }
        i = i + 1;
    }
    None
}

/// `\n`, `\r`, `\t` stand for newline, carriage return and tab; any other
/// escaped character for itself.
pub open spec fn unescape(c: u8) -> u8 {
    if c == 110 {
        10
    } else if c == 114 {
        13
    } else if c == 116 {
        9
    } else {
        c
    }
}

/// State of the string-list reader: (strings read, the one being read,
/// inside a string, after a backslash).
pub type ListState = (Seq<Seq<u8>>, Seq<u8>, bool, bool);

/// The string-list reader after one byte.
pub open spec fn list_step(st: ListState, c: u8) -> ListState {
    let (done, cur, ins, esc) = st;
    if ins {
        if esc {
            (done, cur.push(unescape(c)), true, false)
        } else if c == 92 {
            (done, cur, true, true)
        } else if c == 34 {
            (done.push(cur), Seq::empty(), false, false)
        } else {
            (done, cur.push(c), true, false)
        }
    } else if c == 34 {
        (done, cur, true, false)
    } else {
        (done, cur, false, false)
    }
}

/// The string-list reader after the first `k` bytes.
pub open spec fn list_state(s: Seq<u8>, k: int) -> ListState
    decreases k,
{
    if k <= 0 {
        (Seq::empty(), Seq::empty(), false, false)
    } else {
        list_step(list_state(s, k - 1), s[k - 1])
    }
}

/// The complete string literals of `s`, unescaped, in order.
pub open spec fn string_list(s: Seq<u8>) -> Seq<Seq<u8>> {
    list_state(s, s.len() as int).0
}

fn unescape_exec(c: u8) -> (r: u8)
    ensures
        r == unescape(c),
{
    if c == 110 {
        10
    } else if c == 114 {
        13
    } else if c == 116 {
        9
    } else {
        c
    }
}

/// Reads the string literals of a list.
fn parse_string_list(s: &[u8]) -> (r: Vec<Vec<u8>>)
    ensures
        bytes_view(r@) == string_list(s@),
{
    let mut result: Vec<Vec<u8>> = Vec::new();
    let mut current: Vec<u8> = Vec::new();
    let mut in_string = false;
    let mut escape = false;
    let mut i: usize = 0;
    while i < s.len()
        invariant
            i <= s@.len(),
            (bytes_view(result@), current@, in_string, escape) == list_state(s@, i as int),
        decreases s@.len() - i,
    {
        let c = s[i];
        let ghost before = bytes_view(result@);
        if in_string {
            if escape {
                current.push(unescape_exec(c));
                escape = false;
            } else if c == 92 {
                escape = true;
            } else if c == 34 {
                in_string = false;
                let done = crate::refscan::copy_bytes(&current);
                result.push(done);
                assert(bytes_view(result@) =~= before.push(current@));
                current = Vec::new();
            } else {
                current.push(c);
            }
        } else if c == 34 {
            in_string = true;
        }
        i = i + 1;
    }
    assert(bytes_view(result@) == string_list(s@));
    result
}

/// `/nix/store/`
pub open spec fn store_dir_slash() -> Seq<u8> {
    crate::store_path::store_dir_slash()
}

/// The first offset at or after `k` where `/nix/store/` occurs.
pub open spec fn store_dir_from(s: Seq<u8>, k: int) -> Option<int>
    decreases s.len() - k,
{
    if k < 0 || k >= s.len() {
        None
    } else if has_prefix(s.skip(k), store_dir_slash()) {
        Some(k)
    } else {
        store_dir_from(s, k + 1)
    }
}

/// `"`, `,` or `)`.
pub open spec fn is_path_end(c: u8) -> bool {
    c == 34 || c == 44 || c == 41
}

/// The first offset at or after `k` holding a path end, else the length.
pub open spec fn path_end_from(s: Seq<u8>, k: int) -> int
    decreases s.len() - k,
{
    if k < 0 || k >= s.len() {
        s.len() as int
    } else if is_path_end(s[k]) {
        k
    } else {
        path_end_from(s, k + 1)
    }
}

/// The store path in `s`: from the first `/nix/store/` up to the next
/// `"`, `,` or `)` (or the end).
pub open spec fn store_path_in(s: Seq<u8>) -> Option<Seq<u8>> {
    match store_dir_from(s, 0) {
        Some(start) => Some(s.subrange(start, path_end_from(s, start))),
        None => None,
    }
}

proof fn lemma_path_end_bounds(s: Seq<u8>, k: int)
    requires
        0 <= k <= s.len(),
    ensures
        k <= path_end_from(s, k) <= s.len(),
    decreases s.len() - k,
{
    if k < s.len() && !is_path_end(s[k]) {
        lemma_path_end_bounds(s, k + 1);
    }
}

/// Extracts the store path in `s`, if any.
fn extract_store_path(s: &[u8]) -> (r: Option<Vec<u8>>)
    ensures
        r matches Some(p) ==> store_path_in(s@) == Some(p@),
        r is None ==> store_path_in(s@) is None,
{
    let pat: [u8; 11] = [47u8, 110, 105, 120, 47, 115, 116, 111, 114, 101, 47];
    assert(pat@ =~= store_dir_slash());
    let mut start: usize = 0;
    let mut found = false;
    while start < s.len()
        invariant_except_break
            !found,
        invariant
            start <= s@.len(),
            pat@ == store_dir_slash(),
            store_dir_from(s@, 0) == store_dir_from(s@, start as int),
        ensures
            start <= s@.len(),
            found ==> store_dir_from(s@, 0) == Some(start as int),
            !found ==> store_dir_from(s@, 0) is None,
        decreases s@.len() - start,
    {
        let tail = vstd::slice::slice_subrange(s, start, s.len());
        assert(tail@ =~= s@.skip(start as int));
        if starts_with(tail, pat.as_slice()) {
            found = true;
            break;
        }
        start = start + 1;
    }
    if !found {
        return None;
    }
    let mut end: usize = start;
    while end < s.len()
        invariant
            start <= end <= s@.len(),
            path_end_from(s@, start as int) == path_end_from(s@, end as int),
        ensures
            start <= end <= s@.len(),
            path_end_from(s@, start as int) == end,
        decreases s@.len() - end,
    {
        let c = s[end];
        if c == 34 || c == 44 || c == 41 {
            break;
        }
        end = end + 1;
    }
    let piece = vstd::slice::slice_subrange(s, start, end);
    Some(vstd::slice::slice_to_vec(piece))
}

/// The pieces of `s` between commas, as `str::split(',')` yields them.
pub open spec fn split_state(s: Seq<u8>, k: int) -> (Seq<Seq<u8>>, Seq<u8>)
    decreases k,
{
    if k <= 0 {
        (Seq::empty(), Seq::empty())
    } else {
        let (done, cur) = split_state(s, k - 1);
        if s[k - 1] == 44 {
            (done.push(cur), Seq::empty())
        } else {
            (done, cur.push(s[k - 1]))
        }
    }
}

/// The pieces of `s` between commas.
pub open spec fn split_commas(s: Seq<u8>) -> Seq<Seq<u8>> {
    let (done, cur) = split_state(s, s.len() as int);
    done.push(cur)
}

/// The contents of the `n`-th top-level list, up to its matching bracket.
pub open spec fn list_contents(s: Seq<u8>, n: nat) -> Option<Seq<u8>> {
    match nth_top_list_start(s, n) {
        Some(a) => match matching_bracket(s, a) {
            Some(b) => Some(s.subrange(a + 1, b)),
            None => None,
        },
        None => None,
    }
}

/// The input sources: string literals of the third top-level list that
/// start with `/nix/store/`.
pub open spec fn source_refs(s: Seq<u8>) -> Set<Seq<u8>> {
    match list_contents(s, 3) {
        Some(l) => Set::new(
            |p: Seq<u8>| string_list(l).contains(p) && has_prefix(p, store_dir_slash()),
        ),
        None => Set::empty(),
    }
}

/// The input derivations: the store path in each comma-separated piece of
/// the second top-level list.
pub open spec fn derivation_refs(s: Seq<u8>) -> Set<Seq<u8>> {
    match list_contents(s, 2) {
        Some(l) => Set::new(
            |p: Seq<u8>|
                exists|i: int|
                    0 <= i < split_commas(l).len() && store_path_in(#[trigger] split_commas(l)[i])
                        == Some(p),
        ),
        None => Set::empty(),
    }
}

/// All references found in a derivation's ATerm.
pub open spec fn aterm_references(s: Seq<u8>) -> Set<Seq<u8>> {
    source_refs(s) + derivation_refs(s)
}

/// Locates the contents of the `n`-th list.
fn find_list_contents(s: &[u8], n: usize) -> (r: Option<(usize, usize)>)
    requires
        s@.len() < 0x7fff_ffff_ffff_ffff,
    ensures
        r matches Some((a, b)) ==> a <= b <= s@.len() && list_contents(s@, n as nat) == Some(
            s@.subrange(a as int, b as int),
        ),
        r is None ==> list_contents(s@, n as nat) is None,
{
    match find_nth_top_list_start(s, n) {
        Some(a) => {
            proof {
                lemma_nth_in_bounds(s@, n as nat, 0);
            }
            match find_matching_bracket(s, a) {
                Some(b) => {
                    proof {
                        lemma_first_close_bounds(s@.skip(a as int), 0);
                        lemma_first_close_is_close(s@.skip(a as int), 0);
                        assert(s@.skip(a as int)[0] == s@[a as int]);
                    }
                    Some((a + 1, b))
                },
                None => None,
            }
        },
        None => None,
    }
}

proof fn lemma_nth_in_bounds(s: Seq<u8>, n: nat, k: int)
    ensures
        nth_top_open_from(s, n, k) matches Some(i) ==> 0 <= k <= i < s.len() && is_open(s, i),
    decreases s.len() - k,
{
    if 0 <= k < s.len() && !is_nth_top_open(s, n, k) {
        lemma_nth_in_bounds(s, n, k + 1);
    }
}

proof fn lemma_first_close_bounds(t: Seq<u8>, k: int)
    ensures
        first_close_from(t, k) matches Some(j) ==> 0 <= k <= j < t.len(),
    decreases t.len() - k,
{
    if 0 <= k < t.len() && !closes_to_zero(t, k) {
        lemma_first_close_bounds(t, k + 1);
    }
}

proof fn lemma_first_close_is_close(t: Seq<u8>, k: int)
    ensures
        first_close_from(t, k) matches Some(j) ==> closes_to_zero(t, j),
    decreases t.len() - k,
{
    if 0 <= k < t.len() && !closes_to_zero(t, k) {
        lemma_first_close_is_close(t, k + 1);
    }
}

/// The references of a derivation ATerm (already known to be UTF-8), in
/// increasing order without repetition.
pub fn aterm_reference_list(aterm: &[u8]) -> (r: Vec<Vec<u8>>)
    requires
        aterm@.len() < 0x7fff_ffff_ffff_ffff,
        aterm@.len() < usize::MAX,
    ensures
        strictly_sorted(bytes_view(r@)),
        bytes_view(r@).to_set() == aterm_references(aterm@),
{
    let mut refs: Vec<Vec<u8>> = Vec::new();
    let ghost mut src: Set<Seq<u8>> = Set::empty();
    match find_list_contents(aterm, 3) {
        Some((a, b)) => {
            let l = vstd::slice::slice_subrange(aterm, a, b);
            let items = parse_string_list(l);
            let ghost lv = l@;
            let mut i: usize = 0;
            while i < items.len()
                invariant
                    i <= items@.len(),
                    bytes_view(items@) == string_list(lv),
                    strictly_sorted(bytes_view(refs@)),
                    bytes_view(refs@).to_set() == Set::new(
                        |p: Seq<u8>|
                            bytes_view(items@).take(i as int).contains(p) && has_prefix(
                                p,
                                store_dir_slash(),
                            ),
                    ),
                decreases items@.len() - i,
            {
                let ghost before = bytes_view(refs@).to_set();
                let ghost it = bytes_view(items@);
                assert(it[i as int] == items@[i as int]@);
                let keep = starts_with(
                    items[i].as_slice(),
                    &[47u8, 110, 105, 120, 47, 115, 116, 111, 114, 101, 47],
                );
                assert(seq![47u8, 110, 105, 120, 47, 115, 116, 111, 114, 101, 47] =~= store_dir_slash());
                if keep {
                    insert_sorted(&mut refs, crate::refscan::copy_bytes(&items[i]));
                }
                proof {
                    let t1 = it.take(i + 1);
                    let t0 = it.take(i as int);
                    assert forall|p: Seq<u8>| #[trigger] t1.contains(p) <==> (t0.contains(p) || p == it[i as int]) by {
                        if t1.contains(p) {
                            let k = choose|k: int| 0 <= k < t1.len() && #[trigger] t1[k] == p;
                            if k < i {
                                assert(t0[k] == p);
                            }
                        }
                        if t0.contains(p) {
                            let k = choose|k: int| 0 <= k < t0.len() && #[trigger] t0[k] == p;
                            assert(t1[k] == p);
                        }
                        if p == it[i as int] {
                            assert(t1[i as int] == p);
                        }
                    }
                    assert(bytes_view(refs@).to_set() =~= Set::new(
                        |p: Seq<u8>| t1.contains(p) && has_prefix(p, store_dir_slash()),
                    ));
                }
                i = i + 1;
            }
            assert(bytes_view(items@).take(i as int) =~= bytes_view(items@));
            proof {
                src = bytes_view(refs@).to_set();
            }
            assert(src =~= source_refs(aterm@));
        },
        None => {
            assert(bytes_view(refs@).to_set() =~= source_refs(aterm@));
        },
    }
    assert(bytes_view(refs@).to_set() == source_refs(aterm@));
    match find_list_contents(aterm, 2) {
        Some((a, b)) => {
            let l = vstd::slice::slice_subrange(aterm, a, b);
            let ghost lv = l@;
            let ghost pieces = split_commas(lv);
            // walk the pieces between commas
            let mut piece_start: usize = 0;
            let mut k: usize = 0;
            while k <= l.len()
                invariant
                    lv == l@,
                    l@.len() < usize::MAX,
                    pieces == split_commas(lv),
                    piece_start <= k <= l@.len() + 1,
                    k <= l@.len() ==> piece_start <= k,
                    k <= l@.len() ==> split_state(lv, k as int) == (
                        split_state(lv, piece_start as int).0,
                        lv.subrange(piece_start as int, k as int),
                    ),
                    k <= l@.len() ==> (piece_start == 0 || lv[piece_start - 1] == 44),
                    strictly_sorted(bytes_view(refs@)),
                    bytes_view(refs@).to_set() == source_refs(aterm@) + Set::new(
                        |p: Seq<u8>|
                            exists|i: int|
                                0 <= i < (if k <= l@.len() {
                                    split_state(lv, piece_start as int).0.len() as int
                                } else {
                                    pieces.len() as int
                                }) && store_path_in(#[trigger] pieces[i]) == Some(p),
                    ),
                decreases l@.len() + 1 - k,
            {
                if k == l.len() || l[k] == 44 {
                    let piece = vstd::slice::slice_subrange(l, piece_start, k);
                    let ghost before = bytes_view(refs@).to_set();
                    let ghost idx = split_state(lv, piece_start as int).0.len() as int;
                    proof {
                        lemma_split_prefix(lv, piece_start as int, k as int);
                    }
                    assert(pieces[idx] == piece@);
                    match extract_store_path(piece) {
                        Some(p) => {
                            insert_sorted(&mut refs, p);
                        },
                        None => {},
                    }
                    assert(bytes_view(refs@).to_set() =~= source_refs(aterm@) + Set::new(
                        |p: Seq<u8>|
                            exists|i: int|
                                0 <= i < idx + 1 && store_path_in(#[trigger] pieces[i]) == Some(p),
                    )) by {
                        assert forall|p: Seq<u8>| (exists|i: int| 0 <= i < idx + 1 && store_path_in(#[trigger] pieces[i]) == Some(p)) <==> ((exists|i: int| 0 <= i < idx && store_path_in(#[trigger] pieces[i]) == Some(p)) || store_path_in(pieces[idx]) == Some(p)) by {
                            if exists|i: int| 0 <= i < idx + 1 && store_path_in(#[trigger] pieces[i]) == Some(p) {
                                let i = choose|i: int| 0 <= i < idx + 1 && store_path_in(#[trigger] pieces[i]) == Some(p);
                                if i < idx {
                                }
                            }
                        }
                    }
                    if k < l.len() {
                        proof {
                            assert(split_state(lv, k + 1).0 == split_state(lv, piece_start as int).0.push(
                                lv.subrange(piece_start as int, k as int),
                            ));
                            assert(split_state(lv, k + 1).1 =~= lv.subrange(k + 1, k + 1));
                        }
                        piece_start = k + 1;
                    } else {
                        proof {
                            assert(pieces.len() == idx + 1);
                        }
                    }
                } else {
                    proof {
                        assert(lv.subrange(piece_start as int, k + 1) =~= lv.subrange(
                            piece_start as int,
                            k as int,
                        ).push(lv[k as int]));
                    }
                }
                k = k + 1;
            }
        },
        None => {
            assert(aterm_references(aterm@) =~= source_refs(aterm@));
            assert(source_refs(aterm@) + derivation_refs(aterm@) =~= source_refs(aterm@));
        },
    }
    refs
}

/// The split state at a piece boundary determines the piece that ends at
/// `k`.
proof fn lemma_split_prefix(lv: Seq<u8>, piece_start: int, k: int)
    requires
        0 <= piece_start <= k <= lv.len(),
        split_state(lv, k) == (
            split_state(lv, piece_start).0,
            lv.subrange(piece_start, k),
        ),
        k == lv.len() || lv[k] == 44,
    ensures
        split_commas(lv)[split_state(lv, piece_start).0.len() as int] == lv.subrange(piece_start, k),
        split_state(lv, piece_start).0.len() < split_commas(lv).len(),
{
    lemma_split_monotone(lv, k, lv.len() as int);
    if k == lv.len() {
    } else {
        assert(split_state(lv, k + 1).0 == split_state(lv, piece_start).0.push(lv.subrange(piece_start, k)));
        lemma_split_monotone(lv, k + 1, lv.len() as int);
    }
}

/// Pieces completed by byte `a` stay completed, unchanged, at byte `b`.
proof fn lemma_split_monotone(lv: Seq<u8>, a: int, b: int)
    requires
        0 <= a <= b <= lv.len(),
    ensures
        split_state(lv, a).0.len() <= split_state(lv, b).0.len(),
        forall|i: int| 0 <= i < split_state(lv, a).0.len() ==> #[trigger] split_state(lv, b).0[i] == split_state(lv, a).0[i],
        split_state(lv, a).0.len() == split_state(lv, b).0.len() ==> split_commas(lv).len() >= 0,
        b == lv.len() ==> split_commas(lv) == split_state(lv, b).0.push(split_state(lv, b).1),
    decreases b - a,
{
    if a < b {
        lemma_split_monotone(lv, a, b - 1);
    }
}

/// Returns the display text of the UTF-8 error of `bytes`, as
/// `std::str::from_utf8` reports it.
pub uninterp spec fn utf8_error_text(bytes: Seq<u8>) -> Seq<char>;

/// Calls `std::str::from_utf8`: `Ok` exactly for valid UTF-8; otherwise the
/// error's display text, which is named and not stated.
#[verifier::external_body]
pub(crate) fn check_utf8(bytes: &[u8]) -> (r: Result<(), String>)
    ensures
        r is Ok <==> vstd::utf8::valid_utf8(bytes@),
        r matches Err(m) ==> m@ == utf8_error_text(bytes@),
{
    match std::str::from_utf8(bytes) {
        Ok(_) => Ok(()),
        Err(e) => Err(e.to_string()),
    }
}

} // verus!
