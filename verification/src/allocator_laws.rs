//! Laws of the heap: live allocations never overlap, and a pool whose
//! allocations were all released is whole again.

use crate::allocator::{
    apply_op, chunk_need, coalesce_from, first_fit, fits, free_pair, lemma_chunk_in_pool,
    lemma_chunks_ordered, lemma_first_fit, lemma_page_record_values,
    lemma_pass_leaves_no_free_neighbours, lemma_payload_index, lemma_take_keeps_settled,
    merge_at, payload_index, pool_page_flags, release_at, run_ops, settled, take_at, Chunk, Heap,
    PoolOp, HEADER_SIZE,
};
use crate::config::PAGE_SIZE;
use crate::memory::lemma_align_val_is_least;
use vstd::arithmetic::power2::lemma2_to64;
use vstd::prelude::*;

verus! {

/// A range of addresses.
pub struct Region {
    pub addr: int,
    pub len: int,
}

impl Region {
    /// The two ranges share no address.
    pub open spec fn disjoint(self, other: Region) -> bool {
        self.addr + self.len <= other.addr || other.addr + other.len <= self.addr
    }
}

/// Something that the heap has handed out.
pub enum Allocation {
    /// The run of `count` pages from page `first` on.
    Pages { first: int, count: int },
    /// The payload of the byte-grain chunk with index `chunk`.
    Bytes { chunk: int },
}

impl Allocation {
    /// A run of pages that begins at page 0.
    pub open spec fn begins_at_page_zero(self) -> bool {
        match self {
            Allocation::Pages { first, .. } => first == 0,
            Allocation::Bytes { .. } => false,
        }
    }
}

impl Heap {
    /// The pages from `first` to `first + count - 1` are one allocated run:
    /// all are taken, only the final one is marked last, and the page before
    /// the run, if there is one, is free or ends another run.
    pub open spec fn is_page_run(&self, first: int, count: int) -> bool {
        &&& 0 <= first
        &&& 0 < count
        &&& first + count <= self.num_pages()
        &&& first == 0 || self.page(first - 1).spec_is_free() || self.page(first - 1).spec_is_last()
        &&& forall|k: int| first <= k < first + count ==> (#[trigger] self.page(k)).spec_is_taken()
        &&& forall|k: int| first <= k < first + count - 1 ==> !(#[trigger] self.page(k)).spec_is_last()
        &&& self.page(first + count - 1).spec_is_last()
    }

    /// `a` is handed out at present.
    pub open spec fn is_live(&self, a: Allocation) -> bool {
        match a {
            Allocation::Pages { first, count } => self.is_page_run(first, count),
            Allocation::Bytes { chunk } => 0 <= chunk < self.chunks().len()
                && self.chunks()[chunk].taken,
        }
    }

    /// The addresses that `a` covers.
    pub open spec fn region(&self, a: Allocation) -> Region {
        match a {
            Allocation::Pages { first, count } => Region {
                addr: self.page_addr(first),
                len: count * PAGE_SIZE,
            },
            Allocation::Bytes { chunk } => Region {
                addr: self.start() + self.chunks()[chunk].off + HEADER_SIZE,
                len: self.chunks()[chunk].size - HEADER_SIZE,
            },
        }
    }
}

/// Two different live allocations never overlap. The one pair left out is a
/// byte-grain allocation and the page run that begins at page 0: that run is
/// the byte-grain pool itself, out of which the bytes are carved.
pub proof fn lemma_live_allocations_disjoint(h: Heap, a: Allocation, b: Allocation)
    requires
        h.wf(),
        h.is_live(a),
        h.is_live(b),
        a != b,
        !(a is Bytes && b.begins_at_page_zero()),
        !(b is Bytes && a.begins_at_page_zero()),
    ensures
        h.region(a).disjoint(h.region(b)),
{
    lemma_page_record_values();
    match (a, b) {
        (Allocation::Bytes { chunk: c1 }, Allocation::Bytes { chunk: c2 }) => {
            if c1 < c2 {
                lemma_chunks_ordered(h.memory(), h.start_off(), h.pool_len(), h.chunks(), c1, c2);
            } else {
                lemma_chunks_ordered(h.memory(), h.start_off(), h.pool_len(), h.chunks(), c2, c1);
            }
        },
        (Allocation::Pages { first: f1, count: n1 }, Allocation::Pages { first: f2, count: n2 }) => {
            lemma_page_runs_disjoint(h, f1, n1, f2, n2);
        },
        (Allocation::Bytes { chunk }, Allocation::Pages { first, count }) => {
            lemma_chunk_outside_page_run(h, chunk, first, count);
        },
        (Allocation::Pages { first, count }, Allocation::Bytes { chunk }) => {
            lemma_chunk_outside_page_run(h, chunk, first, count);
        },
    }
}

/// Two different page runs share no page.
pub proof fn lemma_page_runs_disjoint(h: Heap, f1: int, n1: int, f2: int, n2: int)
    requires
        h.is_page_run(f1, n1),
        h.is_page_run(f2, n2),
        f1 != f2 || n1 != n2,
    ensures
        f1 + n1 <= f2 || f2 + n2 <= f1,
{
    if f1 == f2 {
        if n1 < n2 {
            assert(!h.page(f1 + n1 - 1).spec_is_last());
        } else {
            assert(!h.page(f2 + n2 - 1).spec_is_last());
        }
    } else if f1 < f2 {
        if f2 < f1 + n1 {
            assert(h.page(f2 - 1).spec_is_taken());
            assert(!h.page(f2 - 1).spec_is_last());
        }
    } else {
        if f1 < f2 + n2 {
            assert(h.page(f1 - 1).spec_is_taken());
            assert(!h.page(f1 - 1).spec_is_last());
        }
    }
}

proof fn lemma_chunk_outside_page_run(h: Heap, chunk: int, first: int, count: int)
    requires
        h.wf(),
        0 <= chunk < h.chunks().len(),
        h.is_page_run(first, count),
        first != 0,
    ensures
        h.start() + h.chunks()[chunk].off + h.chunks()[chunk].size <= h.page_addr(first),
{
    lemma_page_record_values();
    lemma_chunk_in_pool(h.memory(), h.start_off(), h.pool_len(), h.chunks(), chunk);
    if first < h.pool_pages() {
        assert(h.page(first - 1).flags == pool_page_flags(first - 1));
    }
}

/// No chunk is taken.
pub open spec fn all_free(chunks: Seq<Chunk>) -> bool {
    forall|i: int| 0 <= i < chunks.len() ==> !(#[trigger] chunks[i]).taken
}

/// The chunks tile a pool of `pool_len` bytes.
pub open spec fn chunks_shape(pool_len: int, chunks: Seq<Chunk>) -> bool {
    &&& chunks.len() > 0
    &&& chunks[0].off == 0
    &&& chunks.last().off + chunks.last().size == pool_len
    &&& forall|i: int|
        0 <= i < chunks.len() ==> (#[trigger] chunks[i]).size >= HEADER_SIZE && chunks[i].size % 8
            == 0
    &&& forall|i: int, j: int|
        0 <= i && j == i + 1 && j < chunks.len() ==> (#[trigger] chunks[j]).off == (
        #[trigger] chunks[i]).off + chunks[i].size
}

/// A pool of `pool_len` bytes that is one free chunk.
pub open spec fn whole_pool(pool_len: int) -> Seq<Chunk> {
    seq![Chunk { off: 0, size: pool_len as nat, taken: false }]
}

proof fn lemma_shape_take(pool_len: int, chunks: Seq<Chunk>, i: int, need: int)
    requires
        chunks_shape(pool_len, chunks),
        0 <= i < chunks.len(),
        fits(chunks[i], need),
        need >= HEADER_SIZE,
        need % 8 == 0,
    ensures
        chunks_shape(pool_len, take_at(chunks, i, need)),
{
    let t = take_at(chunks, i, need);
    let n = chunks.len() as int;
    if chunks[i].size - need > HEADER_SIZE {
        assert(t.len() == n + 1);
        assert forall|k: int| 0 <= k < t.len() implies (#[trigger] t[k]).size >= HEADER_SIZE
            && t[k].size % 8 == 0 by {
            if k < i {
                assert(t[k] == chunks[k]);
            } else if k > i + 1 {
                assert(t[k] == chunks[k - 1]);
            }
        }
        assert forall|a: int, b: int| 0 <= a && b == a + 1 && b < t.len() implies (#[trigger] t[b]).off
            == (#[trigger] t[a]).off + t[a].size by {
            if b < i {
                assert(t[a] == chunks[a] && t[b] == chunks[b]);
            } else if b == i {
                assert(t[a] == chunks[a]);
                assert(chunks[b].off == chunks[a].off + chunks[a].size);
            } else if b == i + 1 {
            } else if b == i + 2 {
                assert(t[b] == chunks[i + 1]);
                assert(chunks[i + 1].off == chunks[i].off + chunks[i].size);
            } else {
                assert(t[a] == chunks[a - 1] && t[b] == chunks[b - 1]);
                assert(chunks[b - 1].off == chunks[a - 1].off + chunks[a - 1].size);
            }
        }
        if i == n - 1 {
            assert(chunks[i] == chunks.last());
            assert(t.last() == t[i + 1]);
        } else {
            assert(t.last() == chunks[n - 1]);
            assert(chunks[n - 1] == chunks.last());
        }
        if i == 0 {
            assert(t[0].off == chunks[0].off);
        } else {
            assert(t[0] == chunks[0]);
        }
    } else {
        assert forall|a: int, b: int| 0 <= a && b == a + 1 && b < t.len() implies (#[trigger] t[b]).off
            == (#[trigger] t[a]).off + t[a].size by {
            assert(chunks[b].off == chunks[a].off + chunks[a].size);
        }
        assert(t.last().off == chunks.last().off && t.last().size == chunks.last().size);
    }
}

proof fn lemma_shape_release(pool_len: int, chunks: Seq<Chunk>, k: int)
    requires
        chunks_shape(pool_len, chunks),
        0 <= k < chunks.len(),
    ensures
        chunks_shape(pool_len, release_at(chunks, k)),
{
    let t = release_at(chunks, k);
    assert forall|a: int, b: int| 0 <= a && b == a + 1 && b < t.len() implies (#[trigger] t[b]).off
        == (#[trigger] t[a]).off + t[a].size by {
        assert(chunks[b].off == chunks[a].off + chunks[a].size);
    }
    assert(t.last().off == chunks.last().off && t.last().size == chunks.last().size);
}

proof fn lemma_shape_merge(pool_len: int, chunks: Seq<Chunk>, i: int)
    requires
        chunks_shape(pool_len, chunks),
        0 <= i,
        i + 1 < chunks.len(),
    ensures
        chunks_shape(pool_len, merge_at(chunks, i)),
{
    let t = merge_at(chunks, i);
    let n = chunks.len() as int;
    assert(t.len() == n - 1);
    assert(chunks[i + 1].off == chunks[i].off + chunks[i].size);
    assert forall|k: int| 0 <= k < t.len() implies (#[trigger] t[k]).size >= HEADER_SIZE && t[k].size
        % 8 == 0 by {
        if k < i {
            assert(t[k] == chunks[k]);
        } else if k > i {
            assert(t[k] == chunks[k + 1]);
        }
    }
    assert forall|a: int, b: int| 0 <= a && b == a + 1 && b < t.len() implies (#[trigger] t[b]).off
        == (#[trigger] t[a]).off + t[a].size by {
        if b < i {
            assert(t[a] == chunks[a] && t[b] == chunks[b]);
        } else if b == i {
            assert(t[a] == chunks[a]);
            assert(chunks[b].off == chunks[a].off + chunks[a].size);
        } else if b == i + 1 {
            assert(t[b] == chunks[i + 2]);
            assert(chunks[i + 2].off == chunks[i + 1].off + chunks[i + 1].size);
        } else {
            assert(t[a] == chunks[a + 1] && t[b] == chunks[b + 1]);
            assert(chunks[b + 1].off == chunks[a + 1].off + chunks[a + 1].size);
        }
    }
    if i == n - 2 {
        assert(chunks[i + 1] == chunks.last());
        assert(t.last() == t[i]);
    } else {
        assert(t.last() == chunks[n - 1]);
        assert(chunks[n - 1] == chunks.last());
    }
    if i == 0 {
        assert(t[0].off == chunks[0].off);
    } else {
        assert(t[0] == chunks[0]);
    }
}

proof fn lemma_shape_coalesce(pool_len: int, chunks: Seq<Chunk>, i: int)
    requires
        chunks_shape(pool_len, chunks),
        0 <= i,
    ensures
        chunks_shape(pool_len, coalesce_from(chunks, i)),
    decreases chunks.len() - i,
{
    if i + 1 < chunks.len() {
        if !chunks[i].taken && !chunks[i + 1].taken {
            lemma_shape_merge(pool_len, chunks, i);
            lemma_shape_coalesce(pool_len, merge_at(chunks, i), i);
        } else {
            lemma_shape_coalesce(pool_len, chunks, i + 1);
        }
    }
}

/// One call keeps the chunks a settled tiling.
pub proof fn lemma_op_keeps_settled(pool_len: int, chunks: Seq<Chunk>, start: int, op: PoolOp)
    requires
        chunks_shape(pool_len, chunks),
        settled(chunks),
    ensures
        chunks_shape(pool_len, apply_op(chunks, start, op)),
        settled(apply_op(chunks, start, op)),
{
    match op {
        PoolOp::Allocate { sz } => {
            let need = chunk_need(sz as int);
            let i = first_fit(chunks, need);
            lemma_first_fit(chunks, need, 0);
            if i < chunks.len() {
                lemma2_to64();
                lemma_align_val_is_least(sz as int, 3);
                lemma_shape_take(pool_len, chunks, i, need);
                lemma_take_keeps_settled(chunks, i, need);
            }
        },
        PoolOp::Release { ptr } => {
            let k = payload_index(chunks, ptr - start);
            lemma_payload_index(chunks, ptr - start, 0);
            if ptr != 0 && k < chunks.len() && chunks[k].taken {
                lemma_shape_release(pool_len, chunks, k);
                lemma_shape_coalesce(pool_len, release_at(chunks, k), 0);
                lemma_pass_leaves_no_free_neighbours(release_at(chunks, k));
            }
        },
    }
}

proof fn lemma_trace_settled(pool_len: int, start: int, ops: Seq<PoolOp>, n: int)
    requires
        pool_len >= HEADER_SIZE,
        pool_len % 8 == 0,
        0 <= n <= ops.len(),
    ensures
        chunks_shape(pool_len, run_ops(whole_pool(pool_len), start, ops.subrange(0, n))),
        settled(run_ops(whole_pool(pool_len), start, ops.subrange(0, n))),
    decreases n,
{
    let whole = whole_pool(pool_len);
    let prefix = ops.subrange(0, n);
    if n == 0 {
        assert(whole.last() == whole[0]);
        assert forall|i: int| !#[trigger] free_pair(whole, i) by {}
    } else {
        lemma_trace_settled(pool_len, start, ops, n - 1);
        assert(prefix.drop_last() =~= ops.subrange(0, n - 1));
        assert(prefix.last() == ops[n - 1]);
        let before = run_ops(whole, start, ops.subrange(0, n - 1));
        lemma_op_keeps_settled(pool_len, before, start, ops[n - 1]);
    }
}

/// From a pool that is one free chunk, after any sequence of requests and
/// releases that leaves no chunk taken, the pool is one free chunk again, and
/// a request for all of its payload is served from it.
pub proof fn lemma_round_trip(pool_len: int, start: int, ops: Seq<PoolOp>)
    requires
        pool_len >= HEADER_SIZE,
        pool_len % 8 == 0,
        all_free(run_ops(whole_pool(pool_len), start, ops)),
    ensures
        run_ops(whole_pool(pool_len), start, ops) == whole_pool(pool_len),
        first_fit(whole_pool(pool_len), chunk_need(pool_len - HEADER_SIZE)) == 0,
        apply_op(
            whole_pool(pool_len),
            start,
            PoolOp::Allocate { sz: (pool_len - HEADER_SIZE) as nat },
        ) == seq![Chunk { off: 0, size: pool_len as nat, taken: true }],
{
    let whole = whole_pool(pool_len);
    let end = run_ops(whole, start, ops);
    lemma_trace_settled(pool_len, start, ops, ops.len() as int);
    assert(ops.subrange(0, ops.len() as int) =~= ops);
    if end.len() >= 2 {
        assert(free_pair(end, 0));
    }
    assert(end.last() == end[0]);
    assert(end =~= whole);
    lemma2_to64();
    lemma_align_val_is_least(pool_len - HEADER_SIZE, 3);
    assert(chunk_need(pool_len - HEADER_SIZE) == pool_len);
    assert(fits(whole[0], pool_len));
    assert(take_at(whole, 0, pool_len) =~= seq![
        Chunk { off: 0, size: pool_len as nat, taken: true },
    ]);
}

/// A heap in which nothing is taken from the pool holds the pool as one free
/// chunk, from which a request for all of its payload is served.
pub proof fn lemma_freed_pool_is_whole(h: Heap)
    requires
        h.wf(),
        h.pool_pages() > 0,
        all_free(h.chunks()),
    ensures
        h.chunks() == whole_pool(h.pool_len()),
        first_fit(h.chunks(), chunk_need(h.pool_len() - HEADER_SIZE)) == 0,
{
    let chunks = h.chunks();
    if chunks.len() >= 2 {
        assert(free_pair(chunks, 0));
    }
    assert(chunks.last() == chunks[0]);
    assert(chunks =~= whole_pool(h.pool_len()));
    lemma2_to64();
    lemma_align_val_is_least(h.pool_len() - HEADER_SIZE, 3);
}

/// A taken chunk that is there after a coalescing pass was there before it.
proof fn lemma_coalesce_keeps_taken(chunks: Seq<Chunk>, i: int, x: Chunk)
    requires
        0 <= i,
        coalesce_from(chunks, i).contains(x),
        x.taken,
    ensures
        chunks.contains(x),
    decreases chunks.len() - i,
{
    if i + 1 < chunks.len() {
        if !chunks[i].taken && !chunks[i + 1].taken {
            let merged = merge_at(chunks, i);
            lemma_coalesce_keeps_taken(merged, i, x);
            let k = choose|k: int| 0 <= k < merged.len() && merged[k] == x;
            if k < i {
                assert(chunks[k] == x);
            } else {
                assert(chunks[k + 1] == x);
            }
        } else {
            lemma_coalesce_keeps_taken(chunks, i + 1, x);
        }
    }
}

/// A release leaves every byte of every allocation that is still live where
/// it is and as it is.
pub proof fn lemma_release_keeps_live(after: Heap, before: Heap, ptr: int)
    requires
        before.wf(),
        after.bytes_freed(&before, ptr),
    ensures
        after.live_kept(&before),
{
    let chunks = before.chunks();
    let k = payload_index(chunks, ptr - before.start());
    assert forall|addr: int| #[trigger] after.in_taken_chunk(addr) implies before.in_taken_chunk(
        addr,
    ) && after.byte(addr) == before.byte(addr) by {
        let c = choose|c: int|
            0 <= c < after.chunks().len() && (#[trigger] after.chunks()[c]).taken && after.start()
                + after.chunks()[c].off + HEADER_SIZE <= addr < after.start() + after.chunks()[c].off
                + after.chunks()[c].size;
        let x = after.chunks()[c];
        assert(after.memory()[addr - after.heap_start()] == before.memory()[addr
            - after.heap_start()]);
        if ptr != 0 && k < chunks.len() && chunks[k].taken {
            lemma_payload_index(chunks, ptr - before.start(), 0);
            lemma_coalesce_keeps_taken(release_at(chunks, k), 0, x);
            let j = choose|j: int|
                0 <= j < release_at(chunks, k).len() && release_at(chunks, k)[j] == x;
            assert(chunks[j] == x);
        } else {
            assert(chunks[c] == x);
        }
    }
}

} // verus!
