//! Sets of primary keys of equal length, stored one behind the other.
//!
//! A page of a table can hold thousands of rows. Its keys are kept as one byte string in
//! which every key takes `stride` bytes: no allocation for a key, and a search by
//! halving where the keys are in order.
use crate::bytes::{
    bytes_le, lemma_le_antisymmetric, lemma_le_total, lemma_le_transitive, rank, Rank,
};
use vstd::prelude::*;
use vstd::slice::slice_subrange;

verus! {

/// Key `i`.
pub open spec fn entry(flat: Seq<u8>, stride: int, i: int) -> Seq<u8> {
    flat.subrange(i * stride, i * stride + stride)
}

/// All whole keys.
pub open spec fn entries(flat: Seq<u8>, stride: int) -> Seq<Seq<u8>> {
    Seq::new((flat.len() as int / stride) as nat, |i: int| entry(flat, stride, i))
}

/// Whether no key comes before a smaller one.
pub open spec fn in_order(e: Seq<Seq<u8>>) -> bool {
    forall|i: int, j: int| 0 <= i < j < e.len() ==> bytes_le(#[trigger] e[i], #[trigger] e[j])
}

/// Whether every key comes before all greater ones, and none occurs twice.
pub open spec fn increasing(e: Seq<Seq<u8>>) -> bool {
    forall|i: int, j: int|
        0 <= i < j < e.len() ==> bytes_le(#[trigger] e[i], #[trigger] e[j]) && e[i] != e[j]
}

/// Whether two lists have the same members.
pub open spec fn same_members(a: Seq<Seq<u8>>, b: Seq<Seq<u8>>) -> bool {
    forall|x: Seq<u8>| #[trigger] a.contains(x) <==> b.contains(x)
}

// ── Positions ────────────────────────────────────────────────────────────────

proof fn lemma_entry_inside(i: int, n: int, stride: int, len: int)
    requires
        0 <= i < n,
        0 < stride,
        n * stride <= len,
    ensures
        0 <= i * stride,
        i * stride + stride <= len,
        i * stride + stride == (i + 1) * stride,
{
    assert(0 <= i * stride) by (nonlinear_arith)
        requires
            0 <= i,
            0 < stride,
    ;
    assert((i + 1) * stride <= n * stride) by (nonlinear_arith)
        requires
            i + 1 <= n,
            0 < stride,
    ;
    assert((i + 1) * stride == i * stride + stride) by (nonlinear_arith);
}

proof fn lemma_entries_apart(i: int, j: int, stride: int)
    requires
        0 <= i < j,
        0 < stride,
    ensures
        i * stride + stride <= j * stride,
{
    assert(i * stride + stride <= j * stride) by (nonlinear_arith)
        requires
            i + 1 <= j,
            0 < stride,
    ;
}

proof fn lemma_whole_entries(len: int, stride: int)
    requires
        0 <= len,
        0 < stride,
    ensures
        0 <= len / stride,
        (len / stride) * stride <= len,
{
    assert(0 <= len / stride && (len / stride) * stride <= len) by (nonlinear_arith)
        requires
            0 <= len,
            0 < stride,
    ;
}

proof fn lemma_exact_entries(n: int, stride: int)
    requires
        0 <= n,
        0 < stride,
    ensures
        (n * stride) / stride == n,
{
    assert((n * stride) / stride == n) by (nonlinear_arith)
        requires
            0 <= n,
            0 < stride,
    ;
}

// ── Order of keys ────────────────────────────────────────────────────────────

/// Whether key `a` comes strictly before key `b`.
fn entry_before(buf: &Vec<u8>, stride: usize, a: usize, b: usize, n: usize) -> (r: bool)
    requires
        0 < stride,
        a < n,
        b < n,
        n * stride <= buf@.len(),
    ensures
        r == !bytes_le(entry(buf@, stride as int, b as int), entry(buf@, stride as int, a as int)),
{
    proof {
        lemma_entry_inside(a as int, n as int, stride as int, buf@.len() as int);
        lemma_entry_inside(b as int, n as int, stride as int, buf@.len() as int);
        assert(buf.len() <= usize::MAX);
    }
    let x: &[u8] = slice_subrange(buf.as_slice(), a * stride, a * stride + stride);
    let y: &[u8] = slice_subrange(buf.as_slice(), b * stride, b * stride + stride);
    match rank(x, y) {
        Rank::Before => {
            proof {
                if bytes_le(y@, x@) {
                    lemma_le_antisymmetric(x@, y@);
                }
            }
            true
        },
        Rank::Same => {
            proof {
                lemma_le_total(x@, y@);
            }
            false
        },
        Rank::Behind => false,
    }
}

/// Exchanges two keys.
fn chunk_swap_at(buf: &mut Vec<u8>, stride: usize, a: usize, b: usize, n: usize)
    requires
        0 < stride,
        a < b < n,
        n * stride <= old(buf)@.len(),
    ensures
        final(buf)@.len() == old(buf)@.len(),
        entry(final(buf)@, stride as int, a as int) == entry(
            old(buf)@,
            stride as int,
            b as int,
        ),
        entry(final(buf)@, stride as int, b as int) == entry(
            old(buf)@,
            stride as int,
            a as int,
        ),
        forall|i: int|
            0 <= i < n && i != a && i != b ==> #[trigger] entry(final(buf)@, stride as int, i)
                == entry(old(buf)@, stride as int, i),
{
    proof {
        lemma_entry_inside(a as int, n as int, stride as int, buf@.len() as int);
        lemma_entry_inside(b as int, n as int, stride as int, buf@.len() as int);
        lemma_entries_apart(a as int, b as int, stride as int);
        assert(buf.len() <= usize::MAX);
    }
    let x: usize = a * stride;
    let y: usize = b * stride;
    let mut k: usize = 0;
    while k < stride
        invariant
            k <= stride,
            x + stride <= y,
            y + stride <= buf@.len(),
            buf@.len() == old(buf)@.len(),
            forall|j: int|
                0 <= j < buf@.len() ==> #[trigger] buf@[j] == (if x <= j < x + k {
                    old(buf)@[j - x + y]
                } else if y <= j < y + k {
                    old(buf)@[j - y + x]
                } else {
                    old(buf)@[j]
                }),
        decreases stride - k,
    {
        assert(buf.len() <= usize::MAX);
        let p: u8 = buf[x + k];
        let q: u8 = buf[y + k];
        buf.set(x + k, q);
        buf.set(y + k, p);
        k = k + 1;
    }
    proof {
        let s = stride as int;
        assert(entry(buf@, s, a as int) =~= entry(old(buf)@, s, b as int));
        assert(entry(buf@, s, b as int) =~= entry(old(buf)@, s, a as int));
        assert forall|i: int| 0 <= i < n && i != a && i != b implies #[trigger] entry(buf@, s, i)
            == entry(old(buf)@, s, i) by {
            lemma_entry_inside(i, n as int, s, buf@.len() as int);
            if i < a {
                lemma_entries_apart(i, a as int, s);
            } else {
                lemma_entries_apart(a as int, i, s);
            }
            if i < b {
                lemma_entries_apart(i, b as int, s);
            } else {
                lemma_entries_apart(b as int, i, s);
            }
            assert(entry(buf@, s, i) =~= entry(old(buf)@, s, i));
        }
    }
}

/// The first `n` keys.
pub open spec fn first_entries(flat: Seq<u8>, stride: int, n: int) -> Seq<Seq<u8>> {
    Seq::new(n as nat, |i: int| entry(flat, stride, i))
}

/// Two lists with two members exchanged have the same members.
proof fn lemma_swap_members(a: Seq<Seq<u8>>, b: Seq<Seq<u8>>, x: int, y: int)
    requires
        0 <= x < a.len(),
        0 <= y < a.len(),
        b.len() == a.len(),
        b[x] == a[y],
        b[y] == a[x],
        forall|i: int| 0 <= i < a.len() && i != x && i != y ==> #[trigger] b[i] == a[i],
    ensures
        same_members(a, b),
{
    assert forall|z: Seq<u8>| #[trigger] a.contains(z) implies b.contains(z) by {
        let i = choose|i: int| 0 <= i < a.len() && a[i] == z;
        if i == x {
            assert(b[y] == z);
        } else if i == y {
            assert(b[x] == z);
        } else {
            assert(b[i] == z);
        }
    }
    assert forall|z: Seq<u8>| b.contains(z) implies #[trigger] a.contains(z) by {
        let i = choose|i: int| 0 <= i < b.len() && b[i] == z;
        if i == x {
            assert(a[y] == z);
        } else if i == y {
            assert(a[x] == z);
        } else {
            assert(a[i] == z);
        }
    }
}

// ── Heap order ───────────────────────────────────────────────────────────────

/// Whether no child of node `i` among the first `end` keys is greater than the node.
pub open spec fn node_ok(e: Seq<Seq<u8>>, i: int, end: int) -> bool {
    &&& 2 * i + 1 < end ==> bytes_le(e[2 * i + 1], e[i])
    &&& 2 * i + 2 < end ==> bytes_le(e[2 * i + 2], e[i])
}

/// Whether the nodes from `start` on are greater than their children.
pub open spec fn heap_from(e: Seq<Seq<u8>>, start: int, end: int) -> bool {
    forall|i: int| start <= i < end ==> #[trigger] node_ok(e, i, end)
}

/// The first key of a heap is the greatest.
proof fn lemma_heap_max(e: Seq<Seq<u8>>, end: int, i: int)
    requires
        heap_from(e, 0, end),
        0 <= i < end <= e.len(),
    ensures
        bytes_le(e[i], e[0]),
    decreases i,
{
    if i == 0 {
        lemma_le_total(e[0], e[0]);
    } else {
        let p = (i - 1) / 2;
        assert(node_ok(e, p, end));
        lemma_heap_max(e, end, p);
        lemma_le_transitive(e[i], e[p], e[0]);
    }
}

/// Lets key `start` sink to its place: the nodes behind it are in heap order, and so are
/// all from it on afterwards.
fn heap_sift_down(buf: &mut Vec<u8>, stride: usize, start: usize, end: usize, n: usize)
    requires
        0 < stride,
        start < end <= n,
        n * stride <= old(buf)@.len(),
        heap_from(first_entries(old(buf)@, stride as int, n as int), start + 1, end as int),
    ensures
        final(buf)@.len() == old(buf)@.len(),
        heap_from(first_entries(final(buf)@, stride as int, n as int), start as int, end as int),
        same_members(
            first_entries(old(buf)@, stride as int, n as int).take(end as int),
            first_entries(final(buf)@, stride as int, n as int).take(end as int),
        ),
        forall|i: int|
            end <= i < n ==> #[trigger] first_entries(final(buf)@, stride as int, n as int)[i]
                == first_entries(old(buf)@, stride as int, n as int)[i],
        forall|i: int|
            0 <= i < start ==> #[trigger] first_entries(final(buf)@, stride as int, n as int)[i]
                == first_entries(old(buf)@, stride as int, n as int)[i],
{
    let ghost s = stride as int;
    let ghost e0 = first_entries(buf@, s, n as int);
    let mut root: usize = start;
    proof {
        lemma_entry_inside((n - 1) as int, n as int, s, buf@.len() as int);
        assert(buf.len() <= usize::MAX);
        assert(n <= n * stride) by (nonlinear_arith)
            requires
                0 < stride,
                0 <= n,
        ;
    }
    loop
        invariant_except_break
            0 < stride,
            s == stride,
            start <= root < end <= n,
            n * stride <= buf@.len(),
            n <= buf@.len(),
            buf@.len() == old(buf)@.len(),
            forall|i: int|
                start <= i < end && i != root ==> #[trigger] node_ok(
                    first_entries(buf@, s, n as int),
                    i,
                    end as int,
                ),
            root > start ==> {
                let e = first_entries(buf@, s, n as int);
                let p = (root - 1) / 2;
                &&& p >= start
                &&& 2 * root + 1 < end ==> bytes_le(e[2 * root + 1], e[p])
                &&& 2 * root + 2 < end ==> bytes_le(e[2 * root + 2], e[p])
            },
            e0 == first_entries(old(buf)@, s, n as int),
            same_members(e0.take(end as int), first_entries(buf@, s, n as int).take(end as int)),
            forall|i: int|
                end <= i < n ==> #[trigger] first_entries(buf@, s, n as int)[i] == e0[i],
            forall|i: int|
                0 <= i < start ==> #[trigger] first_entries(buf@, s, n as int)[i] == e0[i],
        ensures
            buf@.len() == old(buf)@.len(),
            heap_from(first_entries(buf@, s, n as int), start as int, end as int),
            same_members(e0.take(end as int), first_entries(buf@, s, n as int).take(end as int)),
            forall|i: int|
                end <= i < n ==> #[trigger] first_entries(buf@, s, n as int)[i] == e0[i],
            forall|i: int|
                0 <= i < start ==> #[trigger] first_entries(buf@, s, n as int)[i] == e0[i],
        decreases end - root,
    {
        let ghost e = first_entries(buf@, s, n as int);
        assert(buf.len() <= usize::MAX);
        // The node has no child once it lies in the second half.
        if root >= end / 2 {
            assert(node_ok(e, root as int, end as int));
            break ;
        }
        let left: usize = 2 * root + 1;
        let mut child: usize = left;
        proof {
            lemma_le_total(e[left as int], e[left as int]);
        }
        if left + 1 < end {
            proof {
                lemma_le_total(e[left as int], e[left + 1]);
                lemma_le_total(e[left + 1], e[left + 1]);
            }
            if entry_before(buf, stride, left, left + 1, n) {
                child = left + 1;
            }
            assert(bytes_le(e[left + 1], e[child as int]));
        }
        assert(bytes_le(e[left as int], e[child as int]));
        if entry_before(buf, stride, root, child, n) {
            proof {
                lemma_le_total(e[root as int], e[child as int]);
            }
            chunk_swap_at(buf, stride, root, child, n);
            proof {
                let g = first_entries(buf@, s, n as int);
                assert forall|i: int| 0 <= i < n && i != root && i != child implies #[trigger] g[i]
                    == e[i] by {
                    assert(entry(buf@, s, i) == g[i]);
                }
                assert(g[root as int] == e[child as int]);
                assert(g[child as int] == e[root as int]);
                lemma_sift_step(e, g, start as int, root as int, child as int, end as int);
                lemma_swap_members(
                    e.take(end as int),
                    g.take(end as int),
                    root as int,
                    child as int,
                );
            }
            root = child;
        } else {
            proof {
                let other = if child == 2 * root + 1 {
                    2 * root + 2
                } else {
                    2 * root + 1
                };
                if other < end {
                    lemma_le_total(e[other], e[child as int]);
                    lemma_le_transitive(e[other], e[child as int], e[root as int]);
                }
                assert(node_ok(e, root as int, end as int));
            }
            break ;
        }
    }
}

/// One step of sinking: the node `root` was exchanged with its greater child.
proof fn lemma_sift_step(
    e: Seq<Seq<u8>>,
    g: Seq<Seq<u8>>,
    start: int,
    root: int,
    child: int,
    end: int,
)
    requires
        0 <= start <= root < child < end <= e.len(),
        g.len() == e.len(),
        child == 2 * root + 1 || child == 2 * root + 2,
        g[root] == e[child],
        g[child] == e[root],
        forall|i: int| 0 <= i < e.len() && i != root && i != child ==> #[trigger] g[i] == e[i],
        bytes_le(e[root], e[child]),
        2 * root + 1 < end ==> bytes_le(e[2 * root + 1], e[child]),
        2 * root + 2 < end ==> bytes_le(e[2 * root + 2], e[child]),
        forall|i: int| start <= i < end && i != root ==> #[trigger] node_ok(e, i, end),
        root > start ==> {
            let p = (root - 1) / 2;
            &&& p >= start
            &&& 2 * root + 1 < end ==> bytes_le(e[2 * root + 1], e[p])
            &&& 2 * root + 2 < end ==> bytes_le(e[2 * root + 2], e[p])
        },
    ensures
        forall|i: int| start <= i < end && i != child ==> #[trigger] node_ok(g, i, end),
        ({
            let p = (child - 1) / 2;
            &&& p >= start
            &&& 2 * child + 1 < end ==> bytes_le(g[2 * child + 1], g[p])
            &&& 2 * child + 2 < end ==> bytes_le(g[2 * child + 2], g[p])
        }),
{
    assert((child - 1) / 2 == root);
    assert(node_ok(e, child, end));
    assert forall|i: int| start <= i < end && i != child implies #[trigger] node_ok(g, i, end) by {
        if i != root {
            assert(node_ok(e, i, end));
            assert(g[i] == e[i]);
            if 2 * i + 1 == root || 2 * i + 2 == root {
                assert((root - 1) / 2 == i);
            }
        }
    }
}

// ── Sorting ──────────────────────────────────────────────────────────────────

/// Sorts the first `n` keys.
fn heap_sort(buf: &mut Vec<u8>, stride: usize, n: usize)
    requires
        0 < stride,
        2 <= n,
        n * stride <= old(buf)@.len(),
    ensures
        final(buf)@.len() == old(buf)@.len(),
        in_order(first_entries(final(buf)@, stride as int, n as int)),
        same_members(
            first_entries(old(buf)@, stride as int, n as int),
            first_entries(final(buf)@, stride as int, n as int),
        ),
{
    let ghost s = stride as int;
    let ghost e0 = first_entries(buf@, s, n as int);
    let mut i: usize = n / 2;
    assert(heap_from(e0, i as int, n as int)) by {
        assert forall|k: int| i <= k < n implies #[trigger] node_ok(e0, k, n as int) by {}
    }
    while i > 0
        invariant
            0 < stride,
            s == stride,
            i <= n / 2,
            2 <= n,
            n * stride <= buf@.len(),
            buf@.len() == old(buf)@.len(),
            e0 == first_entries(old(buf)@, s, n as int),
            heap_from(first_entries(buf@, s, n as int), i as int, n as int),
            same_members(e0, first_entries(buf@, s, n as int)),
        decreases i,
    {
        let ghost e = first_entries(buf@, s, n as int);
        i = i - 1;
        heap_sift_down(buf, stride, i, n, n);
        proof {
            let g = first_entries(buf@, s, n as int);
            assert(e.take(n as int) =~= e);
            assert(g.take(n as int) =~= g);
            lemma_same_members_trans(e0, e, g);
        }
    }
    let mut end: usize = n;
    while end > 1
        invariant
            0 < stride,
            s == stride,
            1 <= end <= n,
            n * stride <= buf@.len(),
            buf@.len() == old(buf)@.len(),
            e0 == first_entries(old(buf)@, s, n as int),
            heap_from(first_entries(buf@, s, n as int), 0, end as int),
            same_members(e0, first_entries(buf@, s, n as int)),
            forall|a: int, b: int|
                0 <= a < b < n && b >= end ==> bytes_le(
                    #[trigger] first_entries(buf@, s, n as int)[a],
                    #[trigger] first_entries(buf@, s, n as int)[b],
                ),
        decreases end,
    {
        let ghost e = first_entries(buf@, s, n as int);
        end = end - 1;
        chunk_swap_at(buf, stride, 0, end, n);
        let ghost g = first_entries(buf@, s, n as int);
        proof {
            assert forall|k: int| 0 <= k < n && k != 0 && k != end implies #[trigger] g[k]
                == e[k] by {
                assert(entry(buf@, s, k) == g[k]);
            }
            assert(g[0] == e[end as int]);
            assert(g[end as int] == e[0]);
            lemma_swap_members(e, g, 0, end as int);
            lemma_same_members_trans(e0, e, g);
            lemma_pop_max(e, g, end as int);
        }
        heap_sift_down(buf, stride, 0, end, n);
        proof {
            let h = first_entries(buf@, s, n as int);
            lemma_settled(g, h, end as int);
            lemma_same_members_trans(e0, g, h);
        }
    }
    proof {
        let e = first_entries(buf@, s, n as int);
        assert forall|a: int, b: int| 0 <= a < b < e.len() implies bytes_le(
            #[trigger] e[a],
            #[trigger] e[b],
        ) by {}
    }
}

proof fn lemma_same_members_trans(a: Seq<Seq<u8>>, b: Seq<Seq<u8>>, c: Seq<Seq<u8>>)
    requires
        same_members(a, b),
        same_members(b, c),
    ensures
        same_members(a, c),
{
    assert forall|x: Seq<u8>| #[trigger] a.contains(x) <==> c.contains(x) by {
        assert(a.contains(x) <==> b.contains(x));
        assert(b.contains(x) <==> c.contains(x));
    }
}

/// The greatest key of a heap of `end + 1` keys was exchanged with the last: what is left
/// is a heap but for its first key, and the keys from `end` on are in order and not less
/// than any before them.
proof fn lemma_pop_max(e: Seq<Seq<u8>>, g: Seq<Seq<u8>>, end: int)
    requires
        1 <= end < e.len(),
        g.len() == e.len(),
        heap_from(e, 0, end + 1),
        g[0] == e[end],
        g[end] == e[0],
        forall|k: int| 0 <= k < e.len() && k != 0 && k != end ==> #[trigger] g[k] == e[k],
        forall|a: int, b: int|
            0 <= a < b < e.len() && b >= end + 1 ==> bytes_le(#[trigger] e[a], #[trigger] e[b]),
    ensures
        heap_from(g, 1, end),
        forall|a: int, b: int|
            0 <= a < b < g.len() && b >= end ==> bytes_le(#[trigger] g[a], #[trigger] g[b]),
{
    assert forall|i: int| 1 <= i < end implies #[trigger] node_ok(g, i, end) by {
        assert(node_ok(e, i, end + 1));
        assert(g[i] == e[i]);
    }
    assert forall|a: int, b: int| 0 <= a < b < g.len() && b >= end implies bytes_le(
        #[trigger] g[a],
        #[trigger] g[b],
    ) by {
        if b == end {
            if a == 0 {
                lemma_heap_max(e, end + 1, end);
            } else {
                assert(g[a] == e[a]);
                lemma_heap_max(e, end + 1, a);
            }
        } else {
            assert(g[b] == e[b]);
            if a == 0 {
                assert(bytes_le(e[end], e[b]));
            } else if a == end {
                assert(bytes_le(e[0], e[b]));
            } else {
                assert(g[a] == e[a]);
            }
        }
    }
}

/// Rearranging the keys before `end` does not disturb the order of those behind.
proof fn lemma_settled(g: Seq<Seq<u8>>, h: Seq<Seq<u8>>, end: int)
    requires
        1 <= end <= g.len(),
        h.len() == g.len(),
        same_members(g.take(end), h.take(end)),
        forall|i: int| end <= i < g.len() ==> #[trigger] h[i] == g[i],
        forall|a: int, b: int|
            0 <= a < b < g.len() && b >= end ==> bytes_le(#[trigger] g[a], #[trigger] g[b]),
    ensures
        same_members(g, h),
        forall|a: int, b: int|
            0 <= a < b < h.len() && b >= end ==> bytes_le(#[trigger] h[a], #[trigger] h[b]),
{
    assert forall|a: int, b: int| 0 <= a < b < h.len() && b >= end implies bytes_le(
        #[trigger] h[a],
        #[trigger] h[b],
    ) by {
        assert(h[b] == g[b]);
        if a < end {
            assert(h.take(end)[a] == h[a]);
            assert(h.take(end).contains(h[a]));
            assert(g.take(end).contains(h[a]));
            let k = choose|k: int| 0 <= k < end && g.take(end)[k] == h[a];
            assert(g[k] == h[a]);
        } else {
            assert(h[a] == g[a]);
        }
    }
    assert forall|x: Seq<u8>| #[trigger] g.contains(x) <==> h.contains(x) by {
        if g.contains(x) {
            let k = choose|k: int| 0 <= k < g.len() && g[k] == x;
            if k < end {
                assert(g.take(end)[k] == x);
                assert(g.take(end).contains(x));
                assert(h.take(end).contains(x));
                let m = choose|m: int| 0 <= m < end && h.take(end)[m] == x;
                assert(h[m] == x);
            } else {
                assert(h[k] == x);
            }
        }
        if h.contains(x) {
            let k = choose|k: int| 0 <= k < h.len() && h[k] == x;
            if k < end {
                assert(h.take(end)[k] == x);
                assert(g.take(end).contains(x));
                let m = choose|m: int| 0 <= m < end && g.take(end)[m] == x;
                assert(g[m] == x);
            } else {
                assert(g[k] == x);
            }
        }
    }
}

/// Copies key `from` over key `to`.
fn copy_entry(buf: &mut Vec<u8>, stride: usize, from: usize, to: usize, n: usize)
    requires
        0 < stride,
        to < from < n,
        n * stride <= old(buf)@.len(),
    ensures
        final(buf)@.len() == old(buf)@.len(),
        entry(final(buf)@, stride as int, to as int) == entry(
            old(buf)@,
            stride as int,
            from as int,
        ),
        forall|i: int|
            0 <= i < n && i != to ==> #[trigger] entry(final(buf)@, stride as int, i) == entry(
                old(buf)@,
                stride as int,
                i,
            ),
{
    proof {
        lemma_entry_inside(to as int, n as int, stride as int, buf@.len() as int);
        lemma_entry_inside(from as int, n as int, stride as int, buf@.len() as int);
        lemma_entries_apart(to as int, from as int, stride as int);
        assert(buf.len() <= usize::MAX);
    }
    let x: usize = to * stride;
    let y: usize = from * stride;
    let mut k: usize = 0;
    while k < stride
        invariant
            k <= stride,
            x + stride <= y,
            y + stride <= buf@.len(),
            buf@.len() == old(buf)@.len(),
            forall|j: int|
                0 <= j < buf@.len() ==> #[trigger] buf@[j] == (if x <= j < x + k {
                    old(buf)@[j - x + y]
                } else {
                    old(buf)@[j]
                }),
        decreases stride - k,
    {
        assert(buf.len() <= usize::MAX);
        let q: u8 = buf[y + k];
        buf.set(x + k, q);
        k = k + 1;
    }
    proof {
        let s = stride as int;
        assert(entry(buf@, s, to as int) =~= entry(old(buf)@, s, from as int));
        assert forall|i: int| 0 <= i < n && i != to implies #[trigger] entry(buf@, s, i) == entry(
            old(buf)@,
            s,
            i,
        ) by {
            lemma_entry_inside(i, n as int, s, buf@.len() as int);
            if i < to {
                lemma_entries_apart(i, to as int, s);
            } else {
                lemma_entries_apart(to as int, i, s);
            }
            assert(entry(buf@, s, i) =~= entry(old(buf)@, s, i));
        }
    }
}

/// One step of dropping repeated keys: `kept` are the different ones among the keys
/// before the key `x`, which is the next in order.
proof fn lemma_keep(kept: Seq<Seq<u8>>, x: Seq<u8>)
    requires
        kept.len() > 0,
        increasing(kept),
        bytes_le(kept.last(), x),
        kept.last() != x,
    ensures
        increasing(kept.push(x)),
{
    let p = kept.push(x);
    assert forall|i: int, j: int| 0 <= i < j < p.len() implies bytes_le(
        #[trigger] p[i],
        #[trigger] p[j],
    ) && p[i] != p[j] by {
        if j == kept.len() {
            if i < kept.len() - 1 {
                assert(bytes_le(kept[i], kept[kept.len() - 1]));
                lemma_le_transitive(kept[i], kept.last(), x);
                if kept[i] == x {
                    lemma_le_antisymmetric(kept.last(), x);
                }
            }
        } else {
            assert(bytes_le(kept[i], kept[j]));
        }
    }
}

proof fn lemma_members_push(a: Seq<Seq<u8>>, b: Seq<Seq<u8>>, x: Seq<u8>)
    requires
        same_members(a, b),
    ensures
        same_members(a.push(x), b.push(x)),
        a.contains(x) ==> same_members(a, b.push(x)),
{
    assert forall|z: Seq<u8>| #[trigger] a.push(x).contains(z) <==> a.contains(z) || z == x by {
        lemma_push_contains(a, x, z);
    }
    assert forall|z: Seq<u8>| #[trigger] b.push(x).contains(z) <==> b.contains(z) || z == x by {
        lemma_push_contains(b, x, z);
    }
    assert forall|z: Seq<u8>| #[trigger] a.push(x).contains(z) <==> b.push(x).contains(z) by {
        assert(a.contains(z) <==> b.contains(z));
        assert(b.push(x).contains(z) <==> b.contains(z) || z == x);
    }
    if a.contains(x) {
        assert forall|z: Seq<u8>| #[trigger] a.contains(z) <==> b.push(x).contains(z) by {
            assert(b.push(x).contains(z) <==> b.contains(z) || z == x);
        }
    }
}

proof fn lemma_push_contains(a: Seq<Seq<u8>>, x: Seq<u8>, z: Seq<u8>)
    ensures
        a.push(x).contains(z) <==> a.contains(z) || z == x,
{
    if a.push(x).contains(z) && z != x {
        let i = choose|i: int| 0 <= i < a.push(x).len() && a.push(x)[i] == z;
        assert(a[i] == z);
    }
    if a.contains(z) {
        let i = choose|i: int| 0 <= i < a.len() && a[i] == z;
        assert(a.push(x)[i] == z);
    }
    if z == x {
        assert(a.push(x)[a.len() as int] == x);
    }
}

/// Drops repeated keys among the first `n`, which are in order, and returns how many are
/// left.
fn dedup_sorted(buf: &mut Vec<u8>, stride: usize, n: usize) -> (w: usize)
    requires
        0 < stride,
        1 <= n,
        n * stride <= old(buf)@.len(),
        in_order(first_entries(old(buf)@, stride as int, n as int)),
    ensures
        1 <= w <= n,
        final(buf)@.len() == old(buf)@.len(),
        increasing(first_entries(final(buf)@, stride as int, w as int)),
        same_members(
            first_entries(final(buf)@, stride as int, w as int),
            first_entries(old(buf)@, stride as int, n as int),
        ),
{
    let ghost s = stride as int;
    let ghost sorted = first_entries(buf@, s, n as int);
    let mut w: usize = 1;
    let mut r: usize = 1;
    proof {
        assert(first_entries(buf@, s, 1) =~= sorted.take(1));
    }
    while r < n
        invariant
            0 < stride,
            s == stride,
            1 <= w <= r <= n,
            n * stride <= buf@.len(),
            buf@.len() == old(buf)@.len(),
            sorted == first_entries(old(buf)@, s, n as int),
            in_order(sorted),
            forall|i: int| r <= i < n ==> #[trigger] entry(buf@, s, i) == sorted[i],
            entry(buf@, s, w - 1) == sorted[r - 1],
            increasing(first_entries(buf@, s, w as int)),
            same_members(first_entries(buf@, s, w as int), sorted.take(r as int)),
        decreases n - r,
    {
        let ghost kept = first_entries(buf@, s, w as int);
        let ghost x = sorted[r as int];
        assert(entry(buf@, s, r as int) == x);
        assert(sorted.take(r + 1) =~= sorted.take(r as int).push(x));
        assert(bytes_le(sorted[r - 1], sorted[r as int]));
        proof {
            lemma_members_push(kept, sorted.take(r as int), x);
            assert(kept[w - 1] == entry(buf@, s, w - 1));
        }
        if entry_before(buf, stride, w - 1, r, n) {
            proof {
                lemma_le_total(kept.last(), kept.last());
                lemma_keep(kept, x);
            }
            if r != w {
                copy_entry(buf, stride, r, w, n);
            }
            proof {
                let now = first_entries(buf@, s, w + 1);
                assert(now =~= kept.push(x));
            }
            w = w + 1;
        } else {
            proof {
                lemma_le_antisymmetric(kept.last(), x);
                assert(kept.contains(x));
            }
        }
        r = r + 1;
    }
    assert(sorted.take(n as int) =~= sorted);
    w
}

fn sort_dedup_generic(flat: &mut Vec<u8>, stride: usize)
    requires
        0 < stride,
    ensures
        old(flat)@.len() as int / stride as int <= 1 ==> final(flat)@ == old(flat)@,
        old(flat)@.len() as int / stride as int >= 2 ==> {
            &&& final(flat)@.len() == stride * entries(final(flat)@, stride as int).len()
            &&& increasing(entries(final(flat)@, stride as int))
            &&& same_members(
                entries(final(flat)@, stride as int),
                entries(old(flat)@, stride as int),
            )
        },
{
    let n: usize = flat.len() / stride;
    if n < 2 {
        return;
    }
    let ghost s = stride as int;
    let ghost e0 = entries(flat@, s);
    proof {
        lemma_whole_entries(flat@.len() as int, s);
        assert(first_entries(flat@, s, n as int) =~= e0);
    }
    heap_sort(flat, stride, n);
    let ghost e1 = first_entries(flat@, s, n as int);
    let w: usize = dedup_sorted(flat, stride, n);
    let ghost kept = first_entries(flat@, s, w as int);
    let ghost before = flat@;
    proof {
        lemma_entry_inside(w - 1, n as int, s, flat@.len() as int);
        assert(flat.len() <= usize::MAX);
    }
    flat.truncate(w * stride);
    proof {
        lemma_exact_entries(w as int, s);
        let e = entries(flat@, s);
        assert(e.len() == w);
        assert(w * stride == stride * w) by (nonlinear_arith);
        assert forall|i: int| 0 <= i < w implies #[trigger] e[i] == kept[i] by {
            lemma_entry_inside(i, w as int, s, flat@.len() as int);
            assert(entry(flat@, s, i) =~= entry(before, s, i));
        }
        assert(e =~= kept);
        assert forall|x: Seq<u8>| #[trigger] e.contains(x) <==> e0.contains(x) by {
            assert(kept.contains(x) <==> e1.contains(x));
            assert(e0.contains(x) <==> e1.contains(x));
        }
    }
}

/// Sorts a list of keys and drops repeated ones. Fewer than two keys are left as they
/// are; so is everything where the keys have no fixed length (`stride` is 0).
pub fn flat_pk_sort_dedup(flat: &mut Vec<u8>, stride: usize)
    ensures
        stride == 0 || old(flat)@.len() as int / stride as int <= 1 ==> final(flat)@
            == old(flat)@,
        stride > 0 && old(flat)@.len() as int / stride as int >= 2 ==> final(flat)@.len()
            == stride * entries(final(flat)@, stride as int).len(),
        stride > 0 ==> {
            &&& increasing(entries(final(flat)@, stride as int))
            &&& same_members(
                entries(final(flat)@, stride as int),
                entries(old(flat)@, stride as int),
            )
        },
{
    if stride > 0 {
        sort_dedup_generic(flat, stride);
    }
}

/// Looks for a key in a list that is in order.
pub fn flat_pk_contains(flat: &[u8], stride: usize, target: &[u8]) -> (r: bool)
    requires
        stride > 0 ==> in_order(entries(flat@, stride as int)),
    ensures
        r == (stride > 0 && entries(flat@, stride as int).contains(target@)),
{
    if stride == 0 {
        return false;
    }
    let ghost s = stride as int;
    let ghost e = entries(flat@, s);
    let n: usize = flat.len() / stride;
    proof {
        lemma_whole_entries(flat@.len() as int, s);
        assert(flat.len() <= usize::MAX);
    }
    let mut lo: usize = 0;
    let mut hi: usize = n;
    while lo < hi
        invariant
            0 < stride,
            s == stride,
            e == entries(flat@, s),
            in_order(e),
            e.len() == n,
            n * stride <= flat@.len(),
            lo <= hi <= n,
            forall|i: int| 0 <= i < lo ==> #[trigger] e[i] != target@,
            forall|i: int| hi <= i < n ==> #[trigger] e[i] != target@,
        decreases hi - lo,
    {
        let mid: usize = lo + (hi - lo) / 2;
        proof {
            lemma_entry_inside(mid as int, n as int, s, flat@.len() as int);
            assert(flat.len() <= usize::MAX);
        }
        let chunk: &[u8] = slice_subrange(flat, mid * stride, mid * stride + stride);
        assert(chunk@ == e[mid as int]);
        match rank(chunk, target) {
            Rank::Same => {
                assert(e[mid as int] == target@);
                return true;
            },
            Rank::Before => {
                proof {
                    assert forall|i: int| 0 <= i < mid + 1 implies #[trigger] e[i] != target@ by {
                        if i < mid && e[i] == target@ {
                            assert(bytes_le(e[i], e[mid as int]));
                            lemma_le_antisymmetric(e[i], e[mid as int]);
                        }
                    }
                }
                lo = mid + 1;
            },
            Rank::Behind => {
                proof {
                    assert forall|i: int| mid <= i < n implies #[trigger] e[i] != target@ by {
                        if i > mid && e[i] == target@ {
                            assert(bytes_le(e[mid as int], e[i]));
                            lemma_le_antisymmetric(e[i], e[mid as int]);
                        }
                    }
                }
                hi = mid;
            },
        }
    }
    false
}

/// A list without repetitions that is in order is determined by its members: sorting
/// does not depend on the order in which the keys came.
pub proof fn lemma_increasing_unique(a: Seq<Seq<u8>>, b: Seq<Seq<u8>>)
    requires
        increasing(a),
        increasing(b),
        same_members(a, b),
    ensures
        a == b,
    decreases a.len(),
{
    if a.len() == 0 {
        if b.len() > 0 {
            assert(b.contains(b[0]));
            assert(a.contains(b[0]));
        }
        assert(a =~= b);
    } else {
        assert(a.contains(a[0]));
        assert(b.contains(a[0]));
        let k = choose|k: int| 0 <= k < b.len() && b[k] == a[0];
        assert(b.contains(b[0]));
        assert(a.contains(b[0]));
        let m = choose|m: int| 0 <= m < a.len() && a[m] == b[0];
        if m != 0 {
            assert(bytes_le(a[0], a[m]));
            if k != 0 {
                assert(bytes_le(b[0], b[k]));
                lemma_le_antisymmetric(a[0], b[0]);
            }
        }
        assert(a[0] == b[0]);
        let x = a.skip(1);
        let y = b.skip(1);
        assert forall|i: int, j: int| 0 <= i < j < x.len() implies bytes_le(
            #[trigger] x[i],
            #[trigger] x[j],
        ) && x[i] != x[j] by {
            assert(bytes_le(a[i + 1], a[j + 1]));
        }
        assert forall|i: int, j: int| 0 <= i < j < y.len() implies bytes_le(
            #[trigger] y[i],
            #[trigger] y[j],
        ) && y[i] != y[j] by {
            assert(bytes_le(b[i + 1], b[j + 1]));
        }
        assert forall|z: Seq<u8>| #[trigger] x.contains(z) implies y.contains(z) by {
            let i = choose|i: int| 0 <= i < x.len() && x[i] == z;
            assert(a[i + 1] == z);
            assert(a.contains(z));
            assert(bytes_le(a[0], a[i + 1]) && a[0] != a[i + 1]);
            let j = choose|j: int| 0 <= j < b.len() && b[j] == z;
            assert(y[j - 1] == z);
        }
        assert forall|z: Seq<u8>| y.contains(z) implies #[trigger] x.contains(z) by {
            let i = choose|i: int| 0 <= i < y.len() && y[i] == z;
            assert(b[i + 1] == z);
            assert(b.contains(z));
            assert(a.contains(z));
            assert(bytes_le(b[0], b[i + 1]) && b[0] != b[i + 1]);
            let j = choose|j: int| 0 <= j < a.len() && a[j] == z;
            assert(x[j - 1] == z);
        }
        lemma_increasing_unique(x, y);
        assert(a =~= seq![a[0]] + x);
        assert(b =~= seq![b[0]] + y);
    }
}

} // verus!
