//! The kernel heap: a first-fit free-list allocator with coalescing.
//!
//! Established once at boot by [`heap_init`] over a contiguous region the
//! boot allocator carved out of RAM (see [`crate::boot::pmm_init`]).
//!
//! Layout: every block starts with a 16-byte header holding its total size
//! and, when free, a next pointer. Free blocks are kept in a singly-linked
//! list sorted by address so neighbours can be coalesced on free. The
//! returned payload is aligned to the request; its base address is stashed in
//! the 8 bytes just before it so [`heap_free`] can recover the block header
//! without knowing the original alignment.

use crate::math::{self, align_up, checked_align_up};
use crate::memory::Memory;
use vstd::prelude::*;

verus! {

/// Size of a block header.
pub const HEADER: u64 = 16;

/// Smallest free block that is split off an allocation.
pub const MIN_FREE: u64 = 32;

/// A block of the heap: where it starts, its size, and the address handed out
/// for it; 0 while it is free.
pub struct HeapBlock {
    pub base: int,
    pub size: int,
    pub payload: int,
}

impl HeapBlock {
    pub open spec fn free(self) -> bool {
        self.payload == 0
    }

    pub open spec fn end(self) -> int {
        self.base + self.size
    }

    /// The address that the block gives for a request aligned to `align`.
    pub open spec fn payload_for(self, align: int) -> int {
        math::rounded_up(self.base + HEADER, effective_align(align))
    }

    /// True if the block can serve a request for `size` bytes.
    pub open spec fn fits(self, size: int, align: int) -> bool {
        self.free() && self.payload_for(align) + size <= self.end()
    }
}

/// The alignment of payloads for a request aligned to `align`.
pub open spec fn effective_align(align: int) -> int {
    if align > HEADER {
        align
    } else {
        HEADER as int
    }
}

/// The first block from `i` on that is free, or the number of blocks.
pub open spec fn next_free(blocks: Seq<HeapBlock>, i: int) -> int
    decreases blocks.len() - i,
{
    if i >= blocks.len() {
        blocks.len() as int
    } else if blocks[i].free() {
        i
    } else {
        next_free(blocks, i + 1)
    }
}

/// The first block from `i` on that can serve a request, or the number of
/// blocks.
pub open spec fn first_fit(blocks: Seq<HeapBlock>, i: int, size: int, align: int) -> int
    decreases blocks.len() - i,
{
    if i >= blocks.len() {
        blocks.len() as int
    } else if blocks[i].fits(size, align) {
        i
    } else {
        first_fit(blocks, i + 1, size, align)
    }
}

/// Total size of the allocated blocks.
pub open spec fn live_bytes(blocks: Seq<HeapBlock>) -> int
    decreases blocks.len(),
{
    if blocks.len() == 0 {
        0
    } else {
        live_bytes(blocks.drop_last()) + (if blocks.last().free() {
            0
        } else {
            blocks.last().size
        })
    }
}

/// Address of block `i`; 0 past the last.
pub open spec fn addr_at(blocks: Seq<HeapBlock>, i: int) -> int {
    if 0 <= i < blocks.len() {
        blocks[i].base
    } else {
        0
    }
}

/// A block lies within the heap, on 16-byte boundaries, with room for a
/// header before its payload.
pub open spec fn block_ok(b: HeapBlock, start: int, end: int) -> bool {
    &&& b.size >= 16
    &&& b.size % 16 == 0
    &&& b.base % 16 == 0
    &&& start <= b.base
    &&& b.end() <= end
    &&& !b.free() ==> b.base + 16 <= b.payload <= b.end() && b.payload % 8 == 0
}

/// Block `i` ends where the next one starts, and the two are not both free.
pub open spec fn joint(blocks: Seq<HeapBlock>, i: int, end: int) -> bool {
    if i + 1 < blocks.len() {
        &&& blocks[i].end() == blocks[i + 1].base
        &&& !(blocks[i].free() && blocks[i + 1].free())
    } else {
        blocks[i].end() == end
    }
}

/// The blocks tile the heap, and no two neighbours are free.
#[verifier::opaque]
pub open spec fn tiles(blocks: Seq<HeapBlock>, start: int, end: int) -> bool {
    &&& blocks.len() == 0 ==> start == end
    &&& blocks.len() > 0 ==> blocks[0].base == start
    &&& forall|i: int| 0 <= i < blocks.len() ==> block_ok(#[trigger] blocks[i], start, end)
    &&& forall|i: int| 0 <= i < blocks.len() ==> #[trigger] joint(blocks, i, end)
    &&& forall|i: int, j: int|
        0 <= i < j < blocks.len() ==> (#[trigger] blocks[i]).end() <= (#[trigger] blocks[j]).base
}

/// What the tiling says of block `i`, and of the blocks before and behind it.
proof fn lemma_tile(blocks: Seq<HeapBlock>, start: int, end: int, i: int)
    requires
        tiles(blocks, start, end),
        0 <= i < blocks.len(),
    ensures
        block_ok(blocks[i], start, end),
        joint(blocks, i, end),
        i > 0 ==> joint(blocks, i - 1, end),
{
    reveal(tiles);
    assert(joint(blocks, i, end));
    assert(i > 0 ==> joint(blocks, i - 1, end));
}

/// A block ends before a later one starts.
proof fn lemma_order(blocks: Seq<HeapBlock>, start: int, end: int, i: int, j: int)
    requires
        tiles(blocks, start, end),
        0 <= i < j < blocks.len(),
    ensures
        blocks[i].end() <= blocks[j].base,
{
    reveal(tiles);
}

/// The word at address `a`.
#[verifier::opaque]
pub open spec fn word(mem: Seq<u64>, start: int, a: int) -> u64 {
    mem[(a - start) / 8]
}

/// `mem2` is `mem1` with `value` written to address `a`.
pub open spec fn written(mem1: Seq<u64>, mem2: Seq<u64>, start: int, a: int, value: u64) -> bool {
    &&& mem2.len() == mem1.len()
    &&& forall|x: int|
        start <= x < start + mem1.len() * 8 && x % 8 == 0 ==> #[trigger] word(mem2, start, x) == (
        if x == a {
            value
        } else {
            word(mem1, start, x)
        })
}

/// What memory holds of block `i`.
pub open spec fn stored(mem: Seq<u64>, start: int, blocks: Seq<HeapBlock>, i: int) -> bool {
    let b = blocks[i];
    &&& word(mem, start, b.base) == b.size
    &&& b.free() ==> word(mem, start, b.base + 8) == addr_at(blocks, next_free(blocks, i + 1))
    &&& !b.free() ==> word(mem, start, b.payload - 8) == b.base
}

pub open spec fn all_stored(mem: Seq<u64>, start: int, blocks: Seq<HeapBlock>) -> bool {
    forall|i: int| 0 <= i < blocks.len() ==> #[trigger] stored(mem, start, blocks, i)
}

/// The heap: its memory and the head of its free list.
pub struct Heap {
    pub(crate) mem: Memory,
    /// Address of the first word of memory.
    pub(crate) start: u64,
    /// Address of the first free block; 0 when empty.
    pub(crate) head: u64,
    /// Bytes of heap handed out (for diagnostics only).
    pub(crate) allocated: u64,
    /// Total heap size.
    pub(crate) total: u64,
    pub(crate) blocks: Ghost<Seq<HeapBlock>>,
}

impl Heap {
    /// The blocks, in address order.
    pub open(crate) spec fn blocks(self) -> Seq<HeapBlock> {
        self.blocks@
    }

    pub open(crate) spec fn start_at(self) -> int {
        self.start as int
    }

    pub open(crate) spec fn head_at(self) -> u64 {
        self.head
    }

    pub open(crate) spec fn total_spec(self) -> u64 {
        self.total
    }

    pub open(crate) spec fn allocated_spec(self) -> u64 {
        self.allocated
    }

    /// The words of the heap's memory.
    pub open(crate) spec fn words(self) -> Seq<u64> {
        self.mem@
    }

    /// The invariant of the heap.
    pub open(crate) spec fn wf(self) -> bool {
        let start = self.start as int;
        let blocks = self.blocks@;
        &&& blocks.len() > 0 ==> start > 0
        &&& start % 16 == 0
        &&& self.total % 16 == 0
        &&& self.total <= self.mem@.len() * 8
        &&& start + self.total <= u64::MAX
        &&& tiles(blocks, start, start + self.total)
        &&& all_stored(self.mem@, start, blocks)
        &&& self.head == addr_at(blocks, next_free(blocks, 0))
        &&& self.allocated == live_bytes(blocks)
    }

    /// A heap over `mem`, before [`heap_init`].
    pub fn new(mem: Memory) -> (r: Heap)
        ensures
            r.wf(),
            r.head_at() == 0,
            r.total_spec() == 0,
            r.blocks().len() == 0,
            r.words() == mem@,
    {
        proof {
            reveal(tiles);
        }
        Heap {
            mem,
            start: 0,
            head: 0,
            allocated: 0,
            total: 0,
            blocks: Ghost(Seq::empty()),
        }
    }

    /// The word at `addr`.
    fn load(&self, addr: u64) -> (r: u64)
        requires
            self.start <= addr,
            addr % 8 == 0,
            self.start % 8 == 0,
            addr + 8 <= self.start + self.mem@.len() * 8,
        ensures
            r == word(self.mem@, self.start as int, addr as int),
    {
        proof {
            reveal(word);
            self.mem.lemma_len();
        }
        self.mem.read(((addr - self.start) / 8) as usize)
    }

    /// Replace the word at `addr`.
    fn store(&mut self, addr: u64, value: u64)
        requires
            old(self).start <= addr,
            addr % 8 == 0,
            old(self).start % 8 == 0,
            addr + 8 <= old(self).start + old(self).mem@.len() * 8,
        ensures
            final(self).start == old(self).start,
            final(self).head == old(self).head,
            final(self).allocated == old(self).allocated,
            final(self).total == old(self).total,
            final(self).blocks == old(self).blocks,
            written(
                old(self).mem@,
                final(self).mem@,
                old(self).start as int,
                addr as int,
                value,
            ),
    {
        proof {
            self.mem.lemma_len();
        }
        let i = ((addr - self.start) / 8) as usize;
        self.mem.write(i, value);
        proof {
            reveal(word);
            let start = self.start as int;
            assert forall|x: int|
                start <= x < start + old(self).mem@.len() * 8 && x % 8 == 0 implies #[trigger] word(
                self.mem@,
                start,
                x,
            ) == (if x == addr {
                value
            } else {
                word(old(self).mem@, start, x)
            }) by {
                assert((x - start) / 8 == (addr - start) / 8 <==> x == addr);
            }
        }
    }
}

/// The blocks of a heap that has just been initialized.
pub open spec fn one_free_block(start: int, size: int) -> Seq<HeapBlock> {
    seq![HeapBlock { base: start, size, payload: 0 }]
}

/// Initialize the heap over `[start, start + size)`. Boot-only, single-shot.
///
/// `start` and `size` must be 16-byte aligned. The region must be reserved by
/// the caller (pmm_init carves it out of RAM and keeps it out of the pool).
pub fn heap_init(heap: &mut Heap, start: u64, size: u64)
    requires
        start > 0,
        start % HEADER == 0,
        size % HEADER == 0,
        size >= MIN_FREE,
        old(heap).total_spec() == 0,
        size <= old(heap).words().len() * 8,
        start + size <= u64::MAX,
    ensures
        final(heap).wf(),
        final(heap).start_at() == start,
        final(heap).total_spec() == size,
        final(heap).allocated_spec() == 0,
        final(heap).blocks() == one_free_block(start as int, size as int),
        final(heap).words() == old(heap).words().update(0, size).update(1, 0),
{
    heap.start = start;
    heap.store(start, size);
    heap.store(start + 8, 0);
    heap.head = start;
    heap.allocated = 0;
    heap.total = size;
    let ghost blocks = one_free_block(start as int, size as int);
    heap.blocks = Ghost(blocks);
    proof {
        reveal(tiles);
        reveal_with_fuel(next_free, 3);
        reveal_with_fuel(live_bytes, 3);
        assert(blocks.drop_last() =~= Seq::empty());
        assert(stored(heap.mem@, start as int, blocks, 0));
        assert forall|w: int| 0 <= w < heap.mem@.len() implies heap.mem@[w] == old(
            heap).mem@.update(0, size).update(1, 0)[w] by {
            reveal(word);
            let x = start + w * 8;
            assert((x - start) / 8 == w);
            assert(word(heap.mem@, start as int, x) == heap.mem@[w]);
            assert(word(old(heap).mem@, start as int, x) == old(heap).mem@[w]);
        }
        assert(heap.mem@ =~= old(heap).mem@.update(0, size).update(1, 0));
    }
}

/// Bytes of heap currently allocated.
pub fn heap_allocated(heap: &Heap) -> (r: u64)
    requires
        heap.wf(),
    ensures
        r == heap.allocated_spec(),
        r == live_bytes(heap.blocks()),
{
    heap.allocated
}

/// Total heap size.
pub fn heap_total(heap: &Heap) -> (r: u64)
    ensures
        r == heap.total_spec(),
{
    heap.total
}

/// The first block on the free list: its address, its size, and the address
/// of the next one, which is 0 if there is none.
pub fn first_free(heap: &Heap) -> (r: Option<(u64, u64, u64)>)
    requires
        heap.wf(),
    ensures
        ({
            let blocks = heap.blocks();
            let i = next_free(blocks, 0);
            &&& r is None <==> i == blocks.len()
            &&& r matches Some((addr, size, next)) ==> {
                &&& addr == blocks[i].base
                &&& size == blocks[i].size
                &&& next == addr_at(blocks, next_free(blocks, i + 1))
            }
        }),
{
    let ghost blocks = heap.blocks();
    let ghost i = next_free(blocks, 0);
    proof {
        lemma_next_free(blocks, 0);
        if i < blocks.len() {
            lemma_tile(blocks, heap.start as int, heap.start + heap.total, i);
            assert(stored(heap.mem@, heap.start as int, blocks, i));
        }
    }
    if heap.head == 0 {
        return None;
    }
    let size = heap.load(heap.head);
    let next = heap.load(heap.head + 8);
    Some((heap.head, size, next))
}

// ---------------------------------------------------------------------------
// Free blocks
// ---------------------------------------------------------------------------

/// `j` is the first free block from `i` on, or the number of blocks.
pub open spec fn is_next_free(blocks: Seq<HeapBlock>, i: int, j: int) -> bool {
    &&& i <= j <= blocks.len()
    &&& forall|k: int| i <= k < j ==> !(#[trigger] blocks[k]).free()
    &&& j < blocks.len() ==> blocks[j].free()
}

proof fn lemma_next_free(blocks: Seq<HeapBlock>, i: int)
    requires
        0 <= i <= blocks.len(),
    ensures
        is_next_free(blocks, i, next_free(blocks, i)),
    decreases blocks.len() - i,
{
    if i < blocks.len() && !blocks[i].free() {
        lemma_next_free(blocks, i + 1);
    }
}

proof fn lemma_next_free_is(blocks: Seq<HeapBlock>, i: int, j: int)
    requires
        0 <= i,
        is_next_free(blocks, i, j),
    ensures
        next_free(blocks, i) == j,
    decreases j - i,
{
    if i < j {
        assert(!blocks[i].free());
        lemma_next_free_is(blocks, i + 1, j);
    }
}

proof fn lemma_live_bytes_push(blocks: Seq<HeapBlock>, b: HeapBlock)
    ensures
        live_bytes(blocks.push(b)) == live_bytes(blocks) + (if b.free() {
            0
        } else {
            b.size
        }),
{
    assert(blocks.push(b).drop_last() =~= blocks);
}

proof fn lemma_live_bytes_concat(a: Seq<HeapBlock>, b: Seq<HeapBlock>)
    ensures
        live_bytes(a + b) == live_bytes(a) + live_bytes(b),
    decreases b.len(),
{
    if b.len() == 0 {
        assert(a + b =~= a);
    } else {
        lemma_live_bytes_concat(a, b.drop_last());
        assert((a + b).drop_last() =~= a + b.drop_last());
    }
}

// ---------------------------------------------------------------------------
// Replacing blocks
// ---------------------------------------------------------------------------

/// `blocks` with those from `lo` up to `hi` replaced by `mid`.
pub open spec fn replaced(
    blocks: Seq<HeapBlock>,
    lo: int,
    hi: int,
    mid: Seq<HeapBlock>,
) -> Seq<HeapBlock> {
    blocks.take(lo) + mid + blocks.skip(hi)
}

/// `mid` can take the place of the blocks from `lo` up to `hi`.
spec fn replaceable(
    blocks: Seq<HeapBlock>,
    lo: int,
    hi: int,
    mid: Seq<HeapBlock>,
    start: int,
    end: int,
) -> bool {
    &&& 0 <= lo < hi <= blocks.len()
    &&& 1 <= mid.len() <= 2
    &&& mid[0].base == blocks[lo].base
    &&& mid.last().end() == blocks[hi - 1].end()
    &&& block_ok(mid[0], start, end)
    &&& mid.len() == 2 ==> {
        &&& block_ok(mid[1], start, end)
        &&& mid[0].end() == mid[1].base
        &&& !(mid[0].free() && mid[1].free())
    }
    &&& lo > 0 ==> !(blocks[lo - 1].free() && mid[0].free())
    &&& hi < blocks.len() ==> !(mid.last().free() && blocks[hi].free())
}

proof fn lemma_replaced_tiles(
    blocks: Seq<HeapBlock>,
    lo: int,
    hi: int,
    mid: Seq<HeapBlock>,
    start: int,
    end: int,
)
    requires
        tiles(blocks, start, end),
        replaceable(blocks, lo, hi, mid, start, end),
    ensures
        tiles(replaced(blocks, lo, hi, mid), start, end),
{
    reveal(tiles);
    let new = replaced(blocks, lo, hi, mid);
    let d = mid.len() - (hi - lo);
    assert(forall|i: int| 0 <= i < lo ==> #[trigger] new[i] == blocks[i]);
    assert(forall|i: int| lo <= i < lo + mid.len() ==> #[trigger] new[i] == mid[i - lo]);
    assert(forall|i: int| lo + mid.len() <= i < new.len() ==> #[trigger] new[i] == blocks[i - d]);
    assert(joint(blocks, hi - 1, end));
    if lo > 0 {
        assert(joint(blocks, lo - 1, end));
    }
    assert forall|i: int| 0 <= i < new.len() implies #[trigger] joint(new, i, end) by {
        if i < lo {
            assert(joint(blocks, i, end));
        } else if i >= lo + mid.len() {
            assert(joint(blocks, i - d, end));
        }
    }
    assert forall|i: int, j: int| 0 <= i < j < new.len() implies (#[trigger] new[i]).end() <= (
    #[trigger] new[j]).base by {
        let bi = if i < lo {
            i
        } else if i < lo + mid.len() {
            hi - 1
        } else {
            i - d
        };
        let bj = if j < lo {
            j
        } else if j < lo + mid.len() {
            lo
        } else {
            j - d
        };
        assert(block_ok(blocks[lo], start, end));
        assert(block_ok(blocks[hi - 1], start, end));
        assert(new[i].end() <= blocks[bi].end());
        assert(new[j].base >= blocks[bj].base);
        if i >= lo && i < lo + mid.len() && j >= lo && j < lo + mid.len() {
        } else {
            assert(blocks[bi].end() <= blocks[bj].base);
        }
    }
    assert forall|i: int| 0 <= i < new.len() implies block_ok(#[trigger] new[i], start, end) by {
        if i < lo {
            assert(block_ok(blocks[i], start, end));
        } else if i >= lo + mid.len() {
            assert(block_ok(blocks[i - d], start, end));
        }
    }
}

/// `p` is the last free block before `i`, or -1.
#[verifier::opaque]
pub open spec fn is_prev_free(blocks: Seq<HeapBlock>, i: int, p: int) -> bool {
    &&& -1 <= p < i
    &&& p >= 0 ==> blocks[p].free()
    &&& forall|k: int| p < k < i ==> !(#[trigger] blocks[k]).free()
}

/// The words of block `b` are the same in `mem0` and `mem1`.
pub open spec fn same_words(mem0: Seq<u64>, mem1: Seq<u64>, start: int, b: HeapBlock) -> bool {
    forall|a: int|
        b.base <= a < b.end() && a % 8 == 0 ==> #[trigger] word(mem1, start, a) == word(
            mem0,
            start,
            a,
        )
}

/// Outside the blocks from `lo` up to `hi`, nothing has been written to but
/// the link of the free block before them.
#[verifier::opaque]
spec fn outside_kept(
    mem0: Seq<u64>,
    mem1: Seq<u64>,
    start: int,
    blocks: Seq<HeapBlock>,
    lo: int,
    hi: int,
    p: int,
) -> bool {
    &&& forall|k: int|
        (0 <= k < lo || hi <= k < blocks.len()) && k != p ==> same_words(
            mem0,
            mem1,
            start,
            #[trigger] blocks[k],
        )
    &&& p >= 0 ==> word(mem1, start, blocks[p].base) == word(mem0, start, blocks[p].base)
}

/// The first free block seen from before the replaced ones.
proof fn lemma_replaced_next_free(
    blocks: Seq<HeapBlock>,
    lo: int,
    hi: int,
    mid: Seq<HeapBlock>,
    p: int,
    k: int,
)
    requires
        0 <= lo < hi <= blocks.len(),
        is_prev_free(blocks, lo, p),
        0 <= k <= lo,
    ensures
        addr_at(replaced(blocks, lo, hi, mid), next_free(replaced(blocks, lo, hi, mid), k)) == (
        if k <= p {
            addr_at(blocks, next_free(blocks, k))
        } else {
            addr_at(replaced(blocks, lo, hi, mid), next_free(replaced(blocks, lo, hi, mid), lo))
        }),
{
    reveal(is_prev_free);
    let new = replaced(blocks, lo, hi, mid);
    assert(forall|i: int| 0 <= i < lo ==> #[trigger] new[i] == blocks[i]);
    lemma_next_free(new, lo);
    let f = next_free(new, lo);
    if k <= p {
        lemma_next_free(blocks, k);
        let j = next_free(blocks, k);
        if j > p {
            assert(!blocks[p].free());
        }
        assert forall|m: int| k <= m < j implies !(#[trigger] new[m]).free() by {
            assert(!blocks[m].free());
        }
        lemma_next_free_is(new, k, j);
    } else {
        assert forall|m: int| k <= m < f implies !(#[trigger] new[m]).free() by {
            if m < lo {
                assert(!blocks[m].free());
            }
        }
        lemma_next_free_is(new, k, f);
    }
}

/// The first free block seen from behind the replaced ones.
proof fn lemma_replaced_next_free_behind(
    blocks: Seq<HeapBlock>,
    lo: int,
    hi: int,
    mid: Seq<HeapBlock>,
    k: int,
)
    requires
        0 <= lo < hi <= k <= blocks.len(),
    ensures
        addr_at(
            replaced(blocks, lo, hi, mid),
            next_free(replaced(blocks, lo, hi, mid), k + mid.len() - (hi - lo)),
        ) == addr_at(blocks, next_free(blocks, k)),
{
    let new = replaced(blocks, lo, hi, mid);
    let d = mid.len() - (hi - lo);
    assert(forall|i: int| lo + mid.len() <= i < new.len() ==> #[trigger] new[i] == blocks[i - d]);
    lemma_next_free(blocks, k);
    let j = next_free(blocks, k);
    assert forall|m: int| k + d <= m < j + d implies !(#[trigger] new[m]).free() by {
        assert(!blocks[m - d].free());
    }
    lemma_next_free_is(new, k + d, j + d);
}

/// What is stored of a block whose words and next free block are the same.
#[verifier::spinoff_prover]
#[verifier::rlimit(30)]
proof fn lemma_still_stored(
    mem0: Seq<u64>,
    mem1: Seq<u64>,
    start: int,
    end: int,
    blocks: Seq<HeapBlock>,
    i: int,
    new: Seq<HeapBlock>,
    j: int,
)
    requires
        0 <= i < blocks.len(),
        0 <= j < new.len(),
        new[j] == blocks[i],
        block_ok(blocks[i], start, end),
        stored(mem0, start, blocks, i),
        same_words(mem0, mem1, start, blocks[i]),
        blocks[i].free() ==> addr_at(new, next_free(new, j + 1)) == addr_at(
            blocks,
            next_free(blocks, i + 1),
        ),
    ensures
        stored(mem1, start, new, j),
{
    let b = blocks[i];
    assert(word(mem1, start, b.base) == word(mem0, start, b.base));
    if b.free() {
        assert(word(mem1, start, b.base + 8) == word(mem0, start, b.base + 8));
    } else {
        assert(word(mem1, start, b.payload - 8) == word(mem0, start, b.payload - 8));
    }
}

proof fn lemma_replaced_stored(
    mem0: Seq<u64>,
    mem1: Seq<u64>,
    start: int,
    end: int,
    blocks: Seq<HeapBlock>,
    lo: int,
    hi: int,
    mid: Seq<HeapBlock>,
    p: int,
)
    requires
        tiles(blocks, start, end),
        all_stored(mem0, start, blocks),
        replaceable(blocks, lo, hi, mid, start, end),
        is_prev_free(blocks, lo, p),
        outside_kept(mem0, mem1, start, blocks, lo, hi, p),
        p >= 0 ==> word(mem1, start, blocks[p].base + 8) == addr_at(
            replaced(blocks, lo, hi, mid),
            next_free(replaced(blocks, lo, hi, mid), lo),
        ),
        stored(mem1, start, replaced(blocks, lo, hi, mid), lo),
        mid.len() == 2 ==> stored(mem1, start, replaced(blocks, lo, hi, mid), lo + 1),
    ensures
        all_stored(mem1, start, replaced(blocks, lo, hi, mid)),
        addr_at(
            replaced(blocks, lo, hi, mid),
            next_free(replaced(blocks, lo, hi, mid), 0),
        ) == (if p >= 0 {
            addr_at(blocks, next_free(blocks, 0))
        } else {
            addr_at(
                replaced(blocks, lo, hi, mid),
                next_free(replaced(blocks, lo, hi, mid), lo),
            )
        }),
{
    reveal(is_prev_free);
    reveal(outside_kept);
    reveal(tiles);
    let new = replaced(blocks, lo, hi, mid);
    let d = mid.len() - (hi - lo);
    lemma_replaced_next_free(blocks, lo, hi, mid, p, 0);
    assert forall|i: int| 0 <= i < new.len() implies #[trigger] stored(mem1, start, new, i) by {
        if i < lo {
            assert(new[i] == blocks[i]);
            assert(stored(mem0, start, blocks, i));
            assert(block_ok(blocks[i], start, end));
            lemma_replaced_next_free(blocks, lo, hi, mid, p, i + 1);
            if i != p {
                assert(same_words(mem0, mem1, start, blocks[i]));
                lemma_still_stored(mem0, mem1, start, end, blocks, i, new, i);
            }
        } else if i >= lo + mid.len() {
            let k = i - d;
            assert(new[i] == blocks[k]);
            assert(stored(mem0, start, blocks, k));
            assert(block_ok(blocks[k], start, end));
            assert(same_words(mem0, mem1, start, blocks[k]));
            lemma_replaced_next_free_behind(blocks, lo, hi, mid, k + 1);
            lemma_still_stored(mem0, mem1, start, end, blocks, k, new, i);
        } else {
            assert(i == lo || i == lo + 1);
        }
    }
}

/// Where nothing has been written, everything has been kept.
proof fn lemma_outside_refl(
    mem: Seq<u64>,
    start: int,
    blocks: Seq<HeapBlock>,
    lo: int,
    hi: int,
    p: int,
)
    ensures
        outside_kept(mem, mem, start, blocks, lo, hi, p),
{
    reveal(outside_kept);
}

/// Allocated blocks outside the replaced ones have been kept.
proof fn lemma_outside_allocated(
    mem0: Seq<u64>,
    mem1: Seq<u64>,
    start: int,
    blocks: Seq<HeapBlock>,
    lo: int,
    hi: int,
    p: int,
)
    requires
        0 <= lo <= hi,
        outside_kept(mem0, mem1, start, blocks, lo, hi, p),
        is_prev_free(blocks, lo, p),
    ensures
        forall|k: int|
            (0 <= k < lo || hi <= k < blocks.len()) && !(#[trigger] blocks[k]).free() ==> same_words(
                mem0,
                mem1,
                start,
                blocks[k],
            ),
{
    reveal(outside_kept);
    reveal(is_prev_free);
}

proof fn lemma_replaced_live_bytes(
    blocks: Seq<HeapBlock>,
    lo: int,
    hi: int,
    mid: Seq<HeapBlock>,
)
    requires
        0 <= lo <= hi <= blocks.len(),
    ensures
        live_bytes(replaced(blocks, lo, hi, mid)) == live_bytes(blocks) - live_bytes(
            blocks.subrange(lo, hi),
        ) + live_bytes(mid),
{
    let a = blocks.take(lo);
    let b = blocks.subrange(lo, hi);
    let c = blocks.skip(hi);
    assert(blocks =~= a + b + c);
    lemma_live_bytes_concat(a + b, c);
    lemma_live_bytes_concat(a, b);
    lemma_live_bytes_concat(a + mid, c);
    lemma_live_bytes_concat(a, mid);
}

// ---------------------------------------------------------------------------
// Allocation
// ---------------------------------------------------------------------------

/// What block `b` becomes when it serves a request: the allocated block and,
/// if enough is left behind it, a free one.
pub open spec fn served_from(b: HeapBlock, size: int, align: int) -> Seq<HeapBlock> {
    let payload = b.payload_for(align);
    let tail = math::rounded_up(payload + size, HEADER as int);
    if b.end() - tail >= MIN_FREE {
        seq![
            HeapBlock { base: b.base, size: tail - b.base, payload },
            HeapBlock { base: tail, size: b.end() - tail, payload: 0 },
        ]
    } else {
        seq![HeapBlock { base: b.base, size: b.size, payload }]
    }
}

proof fn lemma_first_fit_is(blocks: Seq<HeapBlock>, i: int, j: int, size: int, align: int)
    requires
        0 <= i <= j <= blocks.len(),
        forall|k: int| i <= k < j ==> !(#[trigger] blocks[k]).fits(size, align),
        j < blocks.len() ==> blocks[j].fits(size, align),
    ensures
        first_fit(blocks, i, size, align) == j,
    decreases j - i,
{
    if i < j {
        assert(!blocks[i].fits(size, align));
        lemma_first_fit_is(blocks, i + 1, j, size, align);
    }
}

/// The address of a payload is aligned for words.
#[verifier::spinoff_prover]
proof fn lemma_payload_aligned(b: HeapBlock, align: int)
    requires
        align <= 16 || align % 16 == 0,
        b.base % 16 == 0,
    ensures
        b.payload_for(align) % 8 == 0,
        b.payload_for(align) >= b.base + 16,
{
    let e = effective_align(align);
    let v = b.payload_for(align);
    math::law_rounded_up(b.base + HEADER, e);
    vstd::arithmetic::div_mod::lemma_fundamental_div_mod(v, e);
    vstd::arithmetic::div_mod::lemma_fundamental_div_mod(e, 16);
    let q = v / e;
    let m = e / 16;
    assert(v == 16 * (m * q)) by (nonlinear_arith)
        requires
            v == e * q,
            e == 16 * m,
    ;
}

/// A store outside block `b` leaves its words alone.
proof fn lemma_store_elsewhere(
    mem0: Seq<u64>,
    mem1: Seq<u64>,
    mem2: Seq<u64>,
    start: int,
    end: int,
    b: HeapBlock,
    a: int,
    value: u64,
)
    requires
        same_words(mem0, mem1, start, b),
        block_ok(b, start, end),
        end <= start + mem1.len() * 8,
        written(mem1, mem2, start, a, value),
        a < b.base || b.end() <= a,
    ensures
        same_words(mem0, mem2, start, b),
{
    assert forall|x: int| b.base <= x < b.end() && x % 8 == 0 implies #[trigger] word(
        mem2,
        start,
        x,
    ) == word(mem0, start, x) by {
        assert(word(mem1, start, x) == word(mem0, start, x));
    }
}

/// A store within the blocks from `lo` up to `hi` leaves the others alone.
#[verifier::spinoff_prover]
proof fn lemma_store_inside(
    mem0: Seq<u64>,
    mem1: Seq<u64>,
    mem2: Seq<u64>,
    start: int,
    end: int,
    blocks: Seq<HeapBlock>,
    lo: int,
    hi: int,
    p: int,
    a: int,
    value: u64,
)
    requires
        tiles(blocks, start, end),
        end <= start + mem1.len() * 8,
        0 <= lo < hi <= blocks.len(),
        -1 <= p < lo,
        outside_kept(mem0, mem1, start, blocks, lo, hi, p),
        blocks[lo].base <= a < blocks[hi - 1].end(),
        written(mem1, mem2, start, a, value),
    ensures
        outside_kept(mem0, mem2, start, blocks, lo, hi, p),
        p >= 0 ==> word(mem2, start, blocks[p].base + 8) == word(mem1, start, blocks[p].base + 8),
{
    reveal(outside_kept);
    assert forall|k: int|
        (0 <= k < lo || hi <= k < blocks.len()) && k != p implies same_words(
        mem0,
        mem2,
        start,
        #[trigger] blocks[k],
    ) by {
        assert(same_words(mem0, mem1, start, blocks[k]));
        lemma_tile(blocks, start, end, k);
        if k < lo {
            lemma_order(blocks, start, end, k, lo);
        } else {
            lemma_order(blocks, start, end, hi - 1, k);
        }
        lemma_store_elsewhere(mem0, mem1, mem2, start, end, blocks[k], a, value);
    }
    if p >= 0 {
        lemma_tile(blocks, start, end, p);
        lemma_order(blocks, start, end, p, lo);
    }
}

/// A store to the link of the free block before `lo` leaves the others alone.
#[verifier::spinoff_prover]
proof fn lemma_store_link(
    mem0: Seq<u64>,
    mem1: Seq<u64>,
    mem2: Seq<u64>,
    start: int,
    end: int,
    blocks: Seq<HeapBlock>,
    lo: int,
    hi: int,
    p: int,
    value: u64,
)
    requires
        tiles(blocks, start, end),
        end <= start + mem1.len() * 8,
        0 <= lo < hi <= blocks.len(),
        0 <= p < lo,
        outside_kept(mem0, mem1, start, blocks, lo, hi, p),
        written(mem1, mem2, start, blocks[p].base + 8, value),
    ensures
        outside_kept(mem0, mem2, start, blocks, lo, hi, p),
        word(mem2, start, blocks[p].base + 8) == value,
{
    reveal(outside_kept);
    let a = blocks[p].base + 8;
    lemma_tile(blocks, start, end, p);
    assert forall|k: int|
        (0 <= k < lo || hi <= k < blocks.len()) && k != p implies same_words(
        mem0,
        mem2,
        start,
        #[trigger] blocks[k],
    ) by {
        assert(same_words(mem0, mem1, start, blocks[k]));
        lemma_tile(blocks, start, end, k);
        if k < p {
            lemma_order(blocks, start, end, k, p);
        } else {
            lemma_order(blocks, start, end, p, k);
        }
        lemma_store_elsewhere(mem0, mem1, mem2, start, end, blocks[k], a, value);
    }
}

/// Total size of the allocated blocks in a sequence of one.
proof fn lemma_live_bytes_one(b: HeapBlock)
    ensures
        live_bytes(seq![b]) == (if b.free() {
            0
        } else {
            b.size
        }),
{
    reveal_with_fuel(live_bytes, 2);
    assert(seq![b].drop_last() =~= Seq::empty());
}

/// What serving a request from block `i` does to the blocks.
#[verifier::spinoff_prover]
#[verifier::rlimit(30)]
proof fn lemma_served(
    blocks: Seq<HeapBlock>,
    start: int,
    end: int,
    i: int,
    size: int,
    align: int,
)
    requires
        tiles(blocks, start, end),
        start > 0,
        start % 16 == 0,
        0 <= i < blocks.len(),
        blocks[i].fits(size, align),
        size >= 0,
        blocks[i].payload_for(align) % 8 == 0,
        blocks[i].payload_for(align) >= blocks[i].base + 16,
    ensures
        ({
            let b = blocks[i];
            let mid = served_from(b, size, align);
            let new = replaced(blocks, i, i + 1, mid);
            &&& replaceable(blocks, i, i + 1, mid, start, end)
            &&& tiles(new, start, end)
            &&& new.len() == blocks.len() + mid.len() - 1
            &&& new[i] == mid[0]
            &&& mid[0].payload != 0
            &&& live_bytes(new) == live_bytes(blocks) + mid[0].size
            &&& live_bytes(new) <= end - start
            &&& mid.len() == 2 ==> {
                &&& new[i + 1] == mid[1]
                &&& next_free(new, i + 1) == i + 1
                &&& next_free(new, i) == i + 1
                &&& addr_at(new, next_free(new, i + 2)) == addr_at(blocks, next_free(blocks, i + 1))
            }
            &&& mid.len() == 1 ==> addr_at(new, next_free(new, i)) == addr_at(
                blocks,
                next_free(blocks, i + 1),
            )
        }),
{
    let b = blocks[i];
    let mid = served_from(b, size, align);
    let new = replaced(blocks, i, i + 1, mid);
    lemma_tile(blocks, start, end, i);
    let stop = b.payload_for(align) + size;
    math::law_rounded_up(stop, 16);
    math::law_rounded_up_least(stop, 16, b.end());
    assert(block_ok(mid[0], start, end));
    if mid.len() == 2 {
        assert(block_ok(mid[1], start, end));
    }
    assert(replaceable(blocks, i, i + 1, mid, start, end));
    lemma_replaced_tiles(blocks, i, i + 1, mid, start, end);
    lemma_replaced_live_bytes(blocks, i, i + 1, mid);
    lemma_live_bytes_bound(new, start, end);
    lemma_live_bytes_one(b);
    lemma_live_bytes_one(mid[0]);
    assert(blocks.subrange(i, i + 1) =~= seq![b]);
    assert(new[i] == mid[0]);
    lemma_replaced_next_free_behind(blocks, i, i + 1, mid, i + 1);
    if mid.len() == 2 {
        assert(new[i + 1] == mid[1]);
        lemma_next_free_is(new, i + 1, i + 1);
        lemma_next_free_is(new, i, i + 1);
        lemma_live_bytes_push(seq![mid[0]], mid[1]);
        assert(mid =~= seq![mid[0]].push(mid[1]));
    } else {
        assert(mid =~= seq![mid[0]]);
        assert(next_free(new, i) == next_free(new, i + 1));
    }
}

/// Serve a request from the block at `base`, after the free block `prev` (0
/// if it is the first), and split off a free tail that takes its place in the
/// list, so that the list stays sorted.
#[verifier::spinoff_prover]
fn take_and_split(
    heap: &mut Heap,
    prev: u64,
    base: u64,
    block_size: u64,
    next: u64,
    payload: u64,
    tail_start: u64,
    Ghost(size): Ghost<int>,
    Ghost(align): Ghost<int>,
    Ghost(p): Ghost<int>,
    Ghost(i): Ghost<int>,
)
    requires
        old(heap).wf(),
        0 <= i < old(heap).blocks().len(),
        is_prev_free(old(heap).blocks(), i, p),
        -1 <= p < i,
        prev == addr_at(old(heap).blocks(), p),
        base == old(heap).blocks()[i].base,
        block_size == old(heap).blocks()[i].size,
        next == addr_at(old(heap).blocks(), next_free(old(heap).blocks(), i + 1)),
        old(heap).blocks()[i].fits(size, align),
        payload == old(heap).blocks()[i].payload_for(align),
        payload % 8 == 0,
        payload >= base + 16,
        tail_start == math::rounded_up(payload + size, 16),
        tail_start % 16 == 0,
        size >= 0,
        payload + size <= tail_start <= base + block_size,
        base + block_size - tail_start >= MIN_FREE,
    ensures
        final(heap).wf(),
        final(heap).start_at() == old(heap).start_at(),
        final(heap).total_spec() == old(heap).total_spec(),
        final(heap).words().len() == old(heap).words().len(),
        final(heap).blocks() == replaced(
            old(heap).blocks(),
            i,
            i + 1,
            served_from(old(heap).blocks()[i], size, align),
        ),
        forall|k: int|
            0 <= k < old(heap).blocks().len() && !(#[trigger] old(heap).blocks()[k]).free()
                ==> same_words(
                old(heap).words(),
                final(heap).words(),
                old(heap).start_at(),
                old(heap).blocks()[k],
            ),
{
    let ghost blocks = heap.blocks@;
    let ghost start = heap.start as int;
    let ghost end = start + heap.total;
    let ghost b = blocks[i];
    let ghost mem0 = heap.mem@;
    let ghost mid = served_from(b, size, align);
    let ghost new = replaced(blocks, i, i + 1, mid);
    proof {
        lemma_tile(blocks, start, end, i);
        if p >= 0 {
            lemma_tile(blocks, start, end, p);
            lemma_order(blocks, start, end, p, i);
        }
        lemma_served(blocks, start, end, i, size, align);
        lemma_outside_refl(mem0, start, blocks, i, i + 1, p);
    }
    let remainder = base + block_size - tail_start;
    heap.store(tail_start, remainder);
    let ghost m1 = heap.mem@;
    heap.store(tail_start + 8, next);
    let ghost m2 = heap.mem@;
    proof {
        lemma_store_inside(
            mem0,
            mem0,
            m1,
            start,
            end,
            blocks,
            i,
            i + 1,
            p,
            tail_start as int,
            remainder,
        );
        lemma_store_inside(mem0, m1, m2, start, end, blocks, i, i + 1, p, tail_start + 8, next);
    }
    if prev == 0 {
        heap.head = tail_start;
    } else {
        heap.store(prev + 8, tail_start);
        proof {
            lemma_store_link(mem0, m2, heap.mem@, start, end, blocks, i, i + 1, p, tail_start);
        }
    }
    let ghost m3 = heap.mem@;
    heap.store(base, tail_start - base);
    let ghost m4 = heap.mem@;
    heap.store(payload - 8, base);
    let ghost m5 = heap.mem@;
    proof {
        lemma_store_inside(
            mem0,
            m3,
            m4,
            start,
            end,
            blocks,
            i,
            i + 1,
            p,
            base as int,
            (tail_start - base) as u64,
        );
        lemma_store_inside(mem0, m4, m5, start, end, blocks, i, i + 1, p, payload - 8, base);
        assert(stored(m5, start, new, i));
        assert(stored(m5, start, new, i + 1));
        lemma_replaced_stored(mem0, m5, start, end, blocks, i, i + 1, mid, p);
        lemma_outside_allocated(mem0, m5, start, blocks, i, i + 1, p);
    }
    heap.allocated = heap.allocated + (tail_start - base);
    heap.blocks = Ghost(new);
}

/// Serve a request with all of the block at `base`, after the free block
/// `prev` (0 if it is the first).
#[verifier::spinoff_prover]
fn take_whole(
    heap: &mut Heap,
    prev: u64,
    base: u64,
    block_size: u64,
    next: u64,
    payload: u64,
    tail_start: u64,
    Ghost(size): Ghost<int>,
    Ghost(align): Ghost<int>,
    Ghost(p): Ghost<int>,
    Ghost(i): Ghost<int>,
)
    requires
        old(heap).wf(),
        0 <= i < old(heap).blocks().len(),
        is_prev_free(old(heap).blocks(), i, p),
        -1 <= p < i,
        prev == addr_at(old(heap).blocks(), p),
        base == old(heap).blocks()[i].base,
        block_size == old(heap).blocks()[i].size,
        next == addr_at(old(heap).blocks(), next_free(old(heap).blocks(), i + 1)),
        old(heap).blocks()[i].fits(size, align),
        payload == old(heap).blocks()[i].payload_for(align),
        payload % 8 == 0,
        payload >= base + 16,
        tail_start == math::rounded_up(payload + size, 16),
        tail_start % 16 == 0,
        size >= 0,
        payload + size <= tail_start <= base + block_size,
        base + block_size - tail_start < MIN_FREE,
    ensures
        final(heap).wf(),
        final(heap).start_at() == old(heap).start_at(),
        final(heap).total_spec() == old(heap).total_spec(),
        final(heap).words().len() == old(heap).words().len(),
        final(heap).blocks() == replaced(
            old(heap).blocks(),
            i,
            i + 1,
            served_from(old(heap).blocks()[i], size, align),
        ),
        forall|k: int|
            0 <= k < old(heap).blocks().len() && !(#[trigger] old(heap).blocks()[k]).free()
                ==> same_words(
                old(heap).words(),
                final(heap).words(),
                old(heap).start_at(),
                old(heap).blocks()[k],
            ),
{
    let ghost blocks = heap.blocks@;
    let ghost start = heap.start as int;
    let ghost end = start + heap.total;
    let ghost b = blocks[i];
    let ghost mem0 = heap.mem@;
    let ghost mid = served_from(b, size, align);
    let ghost new = replaced(blocks, i, i + 1, mid);
    proof {
        lemma_tile(blocks, start, end, i);
        if p >= 0 {
            lemma_tile(blocks, start, end, p);
            lemma_order(blocks, start, end, p, i);
        }
        lemma_served(blocks, start, end, i, size, align);
        lemma_outside_refl(mem0, start, blocks, i, i + 1, p);
    }
    if prev == 0 {
        heap.head = next;
    } else {
        heap.store(prev + 8, next);
        proof {
            lemma_store_link(mem0, mem0, heap.mem@, start, end, blocks, i, i + 1, p, next);
        }
    }
    let ghost m3 = heap.mem@;
    heap.store(payload - 8, base);
    let ghost m5 = heap.mem@;
    proof {
        lemma_store_inside(mem0, m3, m5, start, end, blocks, i, i + 1, p, payload - 8, base);
        assert(stored(mem0, start, blocks, i));
        assert(stored(m5, start, new, i));
        lemma_replaced_stored(mem0, m5, start, end, blocks, i, i + 1, mid, p);
        lemma_outside_allocated(mem0, m5, start, blocks, i, i + 1, p);
    }
    heap.allocated = heap.allocated + block_size;
    heap.blocks = Ghost(new);
}

/// The allocated blocks are no larger than the heap.
proof fn lemma_live_bytes_bound(blocks: Seq<HeapBlock>, start: int, end: int)
    requires
        tiles(blocks, start, end),
    ensures
        0 <= live_bytes(blocks) <= end - start,
        forall|i: int|
            0 <= i < blocks.len() && (#[trigger] blocks[i]).free() ==> live_bytes(blocks)
                + blocks[i].size <= end - start,
        forall|i: int|
            0 <= i < blocks.len() && !(#[trigger] blocks[i]).free() ==> blocks[i].size
                <= live_bytes(blocks),
{
    reveal(tiles);
    if blocks.len() > 0 {
        lemma_live_bytes_prefix(blocks, start, end, blocks.len() as int);
        assert(joint(blocks, blocks.len() - 1, end));
        assert(blocks.take(blocks.len() as int) =~= blocks);
    }
}

proof fn lemma_live_bytes_prefix(blocks: Seq<HeapBlock>, start: int, end: int, n: int)
    requires
        tiles(blocks, start, end),
        0 <= n <= blocks.len(),
    ensures
        ({
            let top = if n == 0 {
                start
            } else {
                blocks[n - 1].end()
            };
            &&& 0 <= live_bytes(blocks.take(n)) <= top - start
            &&& forall|i: int|
                0 <= i < n && (#[trigger] blocks[i]).free() ==> live_bytes(blocks.take(n))
                    + blocks[i].size <= top - start
            &&& forall|i: int|
                0 <= i < n && !(#[trigger] blocks[i]).free() ==> blocks[i].size <= live_bytes(
                    blocks.take(n),
                )
        }),
    decreases n,
{
    reveal(tiles);
    if n > 0 {
        lemma_live_bytes_prefix(blocks, start, end, n - 1);
        assert(block_ok(blocks[n - 1], start, end));
        if n > 1 {
            assert(joint(blocks, n - 2, end));
        }
        assert(blocks.take(n) =~= blocks.take(n - 1).push(blocks[n - 1]));
        lemma_live_bytes_push(blocks.take(n - 1), blocks[n - 1]);
    }
}

/// Allocate `size` bytes aligned to `align`. Returns the address, or 0 if no
/// free block has room.
pub fn heap_alloc(heap: &mut Heap, size: u64, align: u64) -> (r: u64)
    requires
        old(heap).wf(),
        align > 0,
        align <= 16 || align % 16 == 0,
    ensures
        final(heap).wf(),
        final(heap).start_at() == old(heap).start_at(),
        final(heap).total_spec() == old(heap).total_spec(),
        final(heap).words().len() == old(heap).words().len(),
        ({
            let blocks = old(heap).blocks();
            let k = first_fit(blocks, 0, size as int, align as int);
            &&& r == 0 <==> k == blocks.len()
            &&& r == 0 ==> *final(heap) == *old(heap)
            &&& r != 0 ==> r % 16 == 0
            &&& r != 0 && (16u64 % align == 0 || align % 16 == 0) ==> r % align == 0
            &&& r != 0 ==> {
                &&& 0 <= k < blocks.len()
                &&& r == blocks[k].payload_for(align as int)
                &&& final(heap).blocks() == replaced(
                    blocks,
                    k,
                    k + 1,
                    served_from(blocks[k], size as int, align as int),
                )
            }
        }),
        forall|k: int|
            0 <= k < old(heap).blocks().len() && !(#[trigger] old(heap).blocks()[k]).free()
                ==> same_words(
                old(heap).words(),
                final(heap).words(),
                old(heap).start_at(),
                old(heap).blocks()[k],
            ),
{
    proof {
        reveal(is_prev_free);
    }
    let ghost blocks = heap.blocks@;
    let ghost start = heap.start as int;
    let ghost end = start + heap.total;
    let want = if align > HEADER {
        align
    } else {
        HEADER
    };
    let mut prev: u64 = 0;
    let mut cur = heap.head;
    let ghost mut p: int = -1;
    let ghost mut i: int = next_free(blocks, 0);
    proof {
        lemma_next_free(blocks, 0);
        assert forall|k: int| 0 <= k < i implies !(#[trigger] blocks[k]).fits(size as int, align as int) by {
            assert(!blocks[k].free());
        }
    }
    while cur != 0
        invariant
            heap.wf(),
            *heap == *old(heap),
            blocks == heap.blocks@,
            start == heap.start,
            end == start + heap.total,
            want == effective_align(align as int),
            align <= 16 || align % 16 == 0,
            align > 0,
            0 <= i <= blocks.len(),
            i < blocks.len() ==> blocks[i].free(),
            cur == addr_at(blocks, i),
            is_prev_free(blocks, i, p),
            prev == addr_at(blocks, p),
            forall|k: int|
                0 <= k < i ==> !(#[trigger] blocks[k]).fits(size as int, align as int),
        decreases blocks.len() - i,
    {
        proof {
            reveal(is_prev_free);
            assert(i < blocks.len());
            lemma_tile(blocks, start, end, i);
            assert(stored(heap.mem@, start, blocks, i));
        }
        let base = cur;
        let block_size = heap.load(cur);
        match checked_align_up(base + HEADER, want) {
            Some(payload) => {
                if let Some(stop) = payload.checked_add(size) {
                    if stop <= base + block_size {
                        proof {
                            lemma_first_fit_is(blocks, 0, i, size as int, align as int);
                            math::law_rounded_up(base + HEADER, want as int);
                        }
                        proof {
                            law_payload_is_aligned(blocks[i], align as int);
                            lemma_payload_aligned(blocks[i], align as int);
                            math::law_rounded_up(stop as int, 16);
                            math::law_rounded_up_least(stop as int, 16, blocks[i].end());
                        }
                        let tail_start = align_up(stop, HEADER);
                        let next = heap.load(cur + 8);
                        if base + block_size - tail_start >= MIN_FREE {
                            take_and_split(
                                heap,
                                prev,
                                base,
                                block_size,
                                next,
                                payload,
                                tail_start,
                                Ghost(size as int),
                                Ghost(align as int),
                                Ghost(p),
                                Ghost(i),
                            );
                        } else {
                            take_whole(
                                heap,
                                prev,
                                base,
                                block_size,
                                next,
                                payload,
                                tail_start,
                                Ghost(size as int),
                                Ghost(align as int),
                                Ghost(p),
                                Ghost(i),
                            );
                        }
                        return payload;
                    }
                }
            },
            None => {},
        }
        assert(!blocks[i].fits(size as int, align as int));
        proof {
            lemma_next_free(blocks, i + 1);
            let j = next_free(blocks, i + 1);
            assert forall|k: int| 0 <= k < j implies !(#[trigger] blocks[k]).fits(
                size as int,
                align as int,
            ) by {
                if k > i {
                    assert(!blocks[k].free());
                }
            }
        }
        prev = cur;
        cur = heap.load(cur + 8);
        proof {
            p = i;
            i = next_free(blocks, i + 1);
        }
    }
    proof {
        if i < blocks.len() {
            lemma_tile(blocks, start, end, i);
        }
        lemma_first_fit_is(blocks, 0, i, size as int, align as int);
    }
    0
}

// ---------------------------------------------------------------------------
// Freeing
// ---------------------------------------------------------------------------

/// First of the blocks that a free of block `k` merges.
pub open spec fn merge_from(blocks: Seq<HeapBlock>, k: int) -> int {
    if k > 0 && blocks[k - 1].free() {
        k - 1
    } else {
        k
    }
}

/// Behind the last of the blocks that a free of block `k` merges.
pub open spec fn merge_to(blocks: Seq<HeapBlock>, k: int) -> int {
    if k + 1 < blocks.len() && blocks[k + 1].free() {
        k + 2
    } else {
        k + 1
    }
}

/// The free block that a free of block `k` leaves.
pub open spec fn merged(blocks: Seq<HeapBlock>, k: int) -> HeapBlock {
    let lo = merge_from(blocks, k);
    let hi = merge_to(blocks, k);
    HeapBlock { base: blocks[lo].base, size: blocks[hi - 1].end() - blocks[lo].base, payload: 0 }
}

/// The blocks after block `k` has been freed: it is merged with its free
/// neighbours.
pub open spec fn freed(blocks: Seq<HeapBlock>, k: int) -> Seq<HeapBlock> {
    replaced(blocks, merge_from(blocks, k), merge_to(blocks, k), seq![merged(blocks, k)])
}

/// True if `ptr` has been handed out and not been freed.
pub open spec fn is_live(blocks: Seq<HeapBlock>, ptr: int) -> bool {
    exists|k: int| 0 <= k < blocks.len() && !blocks[k].free() && (#[trigger] blocks[k]).payload == ptr
}

/// An address is that of one block only.
proof fn lemma_one_block(blocks: Seq<HeapBlock>, start: int, end: int, j: int, k: int)
    requires
        tiles(blocks, start, end),
        0 <= j < blocks.len(),
        0 <= k < blocks.len(),
        !blocks[j].free(),
        blocks[j].payload == blocks[k].payload,
    ensures
        j == k,
{
    reveal(tiles);
    assert(block_ok(blocks[j], start, end));
    assert(block_ok(blocks[k], start, end));
    if j < k {
        assert(blocks[j].end() <= blocks[k].base);
    } else if k < j {
        assert(blocks[k].end() <= blocks[j].base);
    }
}

/// What freeing block `k` does to the blocks.
proof fn lemma_freed(blocks: Seq<HeapBlock>, start: int, end: int, k: int)
    requires
        tiles(blocks, start, end),
        start > 0,
        0 <= k < blocks.len(),
        !blocks[k].free(),
    ensures
        ({
            let lo = merge_from(blocks, k);
            let hi = merge_to(blocks, k);
            let mid = seq![merged(blocks, k)];
            let new = freed(blocks, k);
            &&& replaceable(blocks, lo, hi, mid, start, end)
            &&& tiles(new, start, end)
            &&& new[lo] == merged(blocks, k)
            &&& next_free(new, lo) == lo
            &&& live_bytes(new) == live_bytes(blocks) - blocks[k].size
            &&& live_bytes(new) >= 0
            &&& addr_at(new, next_free(new, lo + 1)) == addr_at(blocks, next_free(blocks, hi))
            &&& merged(blocks, k).size == (if lo < k {
                blocks[lo].size
            } else {
                0
            }) + blocks[k].size + (if hi > k + 1 {
                blocks[k + 1].size
            } else {
                0
            })
        }),
{
    let lo = merge_from(blocks, k);
    let hi = merge_to(blocks, k);
    let m = merged(blocks, k);
    let mid = seq![m];
    let new = freed(blocks, k);
    lemma_tile(blocks, start, end, k);
    lemma_tile(blocks, start, end, lo);
    lemma_tile(blocks, start, end, hi - 1);
    assert(m.base % 16 == 0 && m.size % 16 == 0);
    assert(block_ok(m, start, end));
    assert(mid[0] == m && mid.last() == m);
    assert(replaceable(blocks, lo, hi, mid, start, end));
    lemma_replaced_tiles(blocks, lo, hi, mid, start, end);
    lemma_replaced_live_bytes(blocks, lo, hi, mid);
    lemma_live_bytes_bound(new, start, end);
    lemma_live_bytes_one(m);
    lemma_live_bytes_one(blocks[k]);
    let gone = blocks.subrange(lo, hi);
    let left = blocks.subrange(lo, k);
    let right = blocks.subrange(k + 1, hi);
    assert(gone =~= left + seq![blocks[k]] + right);
    lemma_live_bytes_concat(left + seq![blocks[k]], right);
    lemma_live_bytes_concat(left, seq![blocks[k]]);
    assert(live_bytes(left) == 0) by {
        if lo < k {
            lemma_live_bytes_one(blocks[lo]);
            assert(left =~= seq![blocks[lo]]);
        }
    }
    assert(live_bytes(right) == 0) by {
        if hi > k + 1 {
            lemma_live_bytes_one(blocks[k + 1]);
            assert(right =~= seq![blocks[k + 1]]);
        }
    }
    assert(new[lo] == m);
    lemma_next_free_is(new, lo, lo);
    lemma_replaced_next_free_behind(blocks, lo, hi, mid, hi);
}

/// Give back the block whose payload is at `ptr`.
pub fn heap_free(heap: &mut Heap, ptr: u64)
    requires
        old(heap).wf(),
        is_live(old(heap).blocks(), ptr as int),
    ensures
        final(heap).wf(),
        final(heap).start_at() == old(heap).start_at(),
        final(heap).total_spec() == old(heap).total_spec(),
        final(heap).words().len() == old(heap).words().len(),
        forall|k: int|
            0 <= k < old(heap).blocks().len() && !old(heap).blocks()[k].free() && (#[trigger] old(heap).blocks()[k]).payload == ptr ==> final(heap).blocks() == freed(old(heap).blocks(), k),
        forall|k: int|
            0 <= k < old(heap).blocks().len() && !(#[trigger] old(heap).blocks()[k]).free() && old(heap).blocks()[k].payload != ptr ==> same_words(
                old(heap).words(),
                final(heap).words(),
                old(heap).start_at(),
                old(heap).blocks()[k],
            ),
{
    proof {
        reveal(is_prev_free);
    }
    let ghost blocks = heap.blocks@;
    let ghost start = heap.start as int;
    let ghost end = start + heap.total;
    let ghost mem0 = heap.mem@;
    let ghost k = choose|k: int|
        0 <= k < blocks.len() && !blocks[k].free() && (#[trigger] blocks[k]).payload == ptr;
    proof {
        lemma_tile(blocks, start, end, k);
        assert(stored(mem0, start, blocks, k));
    }
    let base = heap.load(ptr - 8);
    let mut prev: u64 = 0;
    let mut cur = heap.head;
    let ghost mut q: int = -1;
    let ghost mut p: int = -1;
    let ghost mut i: int = next_free(blocks, 0);
    proof {
        lemma_next_free(blocks, 0);
    }
    // Walk to the insertion point (first free block at or above `base`).
    while cur != 0 && cur < base
        invariant
            heap.wf(),
            *heap == *old(heap),
            blocks == heap.blocks@,
            start == heap.start,
            end == start + heap.total,
            0 <= k < blocks.len(),
            base == blocks[k].base,
            0 <= i <= blocks.len(),
            i < blocks.len() ==> blocks[i].free(),
            cur == addr_at(blocks, i),
            is_prev_free(blocks, i, p),
            prev == addr_at(blocks, p),
            p >= 0 ==> blocks[p].base < base && is_prev_free(blocks, p, q),
        decreases blocks.len() - i,
    {
        proof {
            reveal(is_prev_free);
            assert(i < blocks.len());
            lemma_tile(blocks, start, end, i);
            assert(stored(heap.mem@, start, blocks, i));
            lemma_next_free(blocks, i + 1);
        }
        prev = cur;
        cur = heap.load(cur + 8);
        proof {
            q = p;
            p = i;
            i = next_free(blocks, i + 1);
        }
    }
    proof {
        if i < blocks.len() {
            lemma_tile(blocks, start, end, i);
            if i < k {
                lemma_order(blocks, start, end, i, k);
            }
        }
        if p >= 0 {
            lemma_tile(blocks, start, end, p);
            if k < p {
                lemma_order(blocks, start, end, k, p);
            }
        }
        assert(p < k < i);
        assert forall|m: int| p < m < k implies !(#[trigger] blocks[m]).free() by {}
        assert forall|m: int| k + 1 <= m < i implies !(#[trigger] blocks[m]).free() by {}
        lemma_next_free_is(blocks, k + 1, i);
    }
    insert_and_merge(heap, prev, base, cur, Ghost(q), Ghost(p), Ghost(k), Ghost(i));
    proof {
        assert forall|j: int|
            0 <= j < blocks.len() && !blocks[j].free() && (#[trigger] blocks[j]).payload
                == ptr implies heap.blocks() == freed(blocks, j) by {
            lemma_one_block(blocks, start, end, j, k);
        }
    }
}

/// Link block `k` into the free list between `prev` and `cur`, and merge it
/// with its free neighbours.
#[verifier::spinoff_prover]
fn insert_and_merge(
    heap: &mut Heap,
    prev: u64,
    base: u64,
    cur: u64,
    Ghost(q): Ghost<int>,
    Ghost(p): Ghost<int>,
    Ghost(k): Ghost<int>,
    Ghost(i): Ghost<int>,
)
    requires
        old(heap).wf(),
        0 <= k < old(heap).blocks().len(),
        !old(heap).blocks()[k].free(),
        base == old(heap).blocks()[k].base,
        is_prev_free(old(heap).blocks(), k, p),
        p >= 0 ==> is_prev_free(old(heap).blocks(), p, q),
        prev == addr_at(old(heap).blocks(), p),
        k < i <= old(heap).blocks().len(),
        i == next_free(old(heap).blocks(), k + 1),
        cur == addr_at(old(heap).blocks(), i),
    ensures
        final(heap).wf(),
        final(heap).start_at() == old(heap).start_at(),
        final(heap).total_spec() == old(heap).total_spec(),
        final(heap).words().len() == old(heap).words().len(),
        final(heap).blocks() == freed(old(heap).blocks(), k),
        forall|j: int|
            0 <= j < old(heap).blocks().len() && !(#[trigger] old(heap).blocks()[j]).free() && j
                != k ==> same_words(
                old(heap).words(),
                final(heap).words(),
                old(heap).start_at(),
                old(heap).blocks()[j],
            ),
{
    let ghost blocks = heap.blocks@;
    let ghost start = heap.start as int;
    let ghost end = start + heap.total;
    let ghost mem0 = heap.mem@;
    let ghost lo = merge_from(blocks, k);
    let ghost hi = merge_to(blocks, k);
    let ghost new = freed(blocks, k);
    let ghost pp = if lo < k {
        q
    } else {
        p
    };
    proof {
        lemma_insertion(mem0, blocks, start, end, q, p, k, i);
        lemma_outside_refl(mem0, start, blocks, lo, hi, pp);
        assert(stored(mem0, start, blocks, k));
        assert(base % 8 == 0 && prev % 8 == 0 && cur % 8 == 0);
    }
    let size = heap.load(base);
    heap.store(base + 8, cur);
    let ghost m1 = heap.mem@;
    proof {
        lemma_store_inside(mem0, mem0, m1, start, end, blocks, lo, hi, pp, base + 8, cur);
    }
    if prev == 0 {
        heap.head = base;
    } else {
        heap.store(prev + 8, base);
        proof {
            if lo < k {
                lemma_store_inside(
                    mem0,
                    m1,
                    heap.mem@,
                    start,
                    end,
                    blocks,
                    lo,
                    hi,
                    pp,
                    prev + 8,
                    base,
                );
            } else {
                lemma_store_link(mem0, m1, heap.mem@, start, end, blocks, lo, hi, pp, base);
            }
        }
    }
    let ghost m2 = heap.mem@;
    proof {
        assert(word(m2, start, base as int) == size);
        assert(word(m2, start, base + 8) == cur);
        assert(prev != 0 ==> word(m2, start, prev as int) == blocks[p].size);
    }
    // Coalesce with the next neighbour.
    if cur != 0 && base + size == cur {
        proof {
            assert(word(m2, start, cur as int) == blocks[i].size);
            assert(word(m2, start, cur + 8) == addr_at(blocks, next_free(blocks, i + 1)));
        }
        let next = heap.load(cur + 8);
        let more = heap.load(cur);
        heap.store(base, size + more);
        let ghost m3 = heap.mem@;
        heap.store(base + 8, next);
        proof {
            lemma_store_inside(
                mem0,
                m2,
                m3,
                start,
                end,
                blocks,
                lo,
                hi,
                pp,
                base as int,
                (size + more) as u64,
            );
            lemma_store_inside(mem0, m3, heap.mem@, start, end, blocks, lo, hi, pp, base + 8, next);
        }
    }
    let ghost m4 = heap.mem@;
    proof {
        assert(word(m4, start, base as int) == size + (if hi > k + 1 {
            blocks[k + 1].size
        } else {
            0
        }));
        assert(word(m4, start, base + 8) == addr_at(blocks, next_free(blocks, hi)));
        assert(prev != 0 ==> word(m4, start, prev as int) == blocks[p].size);
        assert(prev != 0 && lo == k ==> word(m4, start, prev + 8) == base);
    }
    // Coalesce with the previous neighbour.
    if prev != 0 && prev + heap.load(prev) == base {
        let first = heap.load(prev);
        let rest = heap.load(base);
        let next = heap.load(base + 8);
        heap.store(prev, first + rest);
        let ghost m5 = heap.mem@;
        heap.store(prev + 8, next);
        proof {
            lemma_store_inside(
                mem0,
                m4,
                m5,
                start,
                end,
                blocks,
                lo,
                hi,
                pp,
                prev as int,
                (first + rest) as u64,
            );
            lemma_store_inside(mem0, m5, heap.mem@, start, end, blocks, lo, hi, pp, prev + 8, next);
        }
    }
    proof {
        lemma_freed_stored(mem0, heap.mem@, start, end, blocks, k, pp);
        lemma_outside_allocated(mem0, heap.mem@, start, blocks, lo, hi, pp);
    }
    heap.allocated = heap.allocated - size;
    heap.blocks = Ghost(new);
}

/// Where block `k` goes in the free list, between the free blocks `p` and
/// `i`.
proof fn lemma_insertion(
    mem: Seq<u64>,
    blocks: Seq<HeapBlock>,
    start: int,
    end: int,
    q: int,
    p: int,
    k: int,
    i: int,
)
    requires
        tiles(blocks, start, end),
        all_stored(mem, start, blocks),
        start > 0,
        0 <= k < blocks.len(),
        !blocks[k].free(),
        is_prev_free(blocks, k, p),
        p >= 0 ==> is_prev_free(blocks, p, q),
        k < i <= blocks.len(),
        i == next_free(blocks, k + 1),
    ensures
        ({
            let lo = merge_from(blocks, k);
            let hi = merge_to(blocks, k);
            let pp = if lo < k {
                q
            } else {
                p
            };
            &&& 0 <= lo <= k < hi <= blocks.len()
            &&& -1 <= pp < lo
            &&& is_prev_free(blocks, lo, pp)
            &&& -1 <= p < k
            &&& block_ok(blocks[k], start, end)
            &&& blocks[lo].base <= blocks[k].base
            &&& blocks[k].end() <= blocks[hi - 1].end()
            &&& live_bytes(blocks) >= blocks[k].size
            &&& live_bytes(freed(blocks, k)) == live_bytes(blocks) - blocks[k].size
            &&& p >= 0 ==> {
                &&& block_ok(blocks[p], start, end)
                &&& blocks[p].end() <= blocks[k].base
                &&& word(mem, start, blocks[p].base) == blocks[p].size
                &&& blocks[p].end() == blocks[k].base <==> lo < k
                &&& lo < k ==> lo == p
            }
            &&& p < 0 ==> lo == k
            &&& i < blocks.len() ==> {
                &&& block_ok(blocks[i], start, end)
                &&& blocks[k].end() <= blocks[i].base
                &&& word(mem, start, blocks[i].base) == blocks[i].size
                &&& word(mem, start, blocks[i].base + 8) == addr_at(
                    blocks,
                    next_free(blocks, i + 1),
                )
                &&& blocks[k].end() == blocks[i].base <==> hi > k + 1
                &&& hi > k + 1 ==> i == k + 1
            }
            &&& i == blocks.len() ==> hi == k + 1
        }),
{
    reveal(is_prev_free);
    let lo = merge_from(blocks, k);
    let hi = merge_to(blocks, k);
    lemma_tile(blocks, start, end, k);
    lemma_tile(blocks, start, end, lo);
    lemma_tile(blocks, start, end, hi - 1);
    lemma_next_free(blocks, k + 1);
    lemma_freed(blocks, start, end, k);
    lemma_live_bytes_bound(blocks, start, end);
    assert(lo < k ==> p == k - 1) by {
        if lo < k && p != k - 1 {
            assert(!blocks[k - 1].free());
        }
    }
    assert(hi > k + 1 ==> i == k + 1) by {
        if hi > k + 1 && i != k + 1 {
            assert(!blocks[k + 1].free());
        }
    }
    if p >= 0 {
        lemma_tile(blocks, start, end, p);
        lemma_order(blocks, start, end, p, k);
        assert(stored(mem, start, blocks, p));
        if p < k - 1 {
            lemma_tile(blocks, start, end, k - 1);
            lemma_order(blocks, start, end, p, k - 1);
        }
    }
    if i < blocks.len() {
        lemma_tile(blocks, start, end, i);
        lemma_order(blocks, start, end, k, i);
        assert(stored(mem, start, blocks, i));
        if i > k + 1 {
            lemma_tile(blocks, start, end, k + 1);
            lemma_order(blocks, start, end, k + 1, i);
        }
    }
}

/// Memory after block `k` has been freed.
proof fn lemma_freed_stored(
    mem0: Seq<u64>,
    mem1: Seq<u64>,
    start: int,
    end: int,
    blocks: Seq<HeapBlock>,
    k: int,
    pp: int,
)
    requires
        tiles(blocks, start, end),
        all_stored(mem0, start, blocks),
        start > 0,
        0 <= k < blocks.len(),
        !blocks[k].free(),
        is_prev_free(blocks, merge_from(blocks, k), pp),
        outside_kept(
            mem0,
            mem1,
            start,
            blocks,
            merge_from(blocks, k),
            merge_to(blocks, k),
            pp,
        ),
        word(mem1, start, merged(blocks, k).base) == merged(blocks, k).size,
        word(mem1, start, merged(blocks, k).base + 8) == addr_at(
            blocks,
            next_free(blocks, merge_to(blocks, k)),
        ),
        pp >= 0 ==> word(mem1, start, blocks[pp].base + 8) == merged(blocks, k).base || merge_from(
            blocks,
            k,
        ) < k && word(mem1, start, blocks[pp].base + 8) == word(mem0, start, blocks[pp].base + 8),
    ensures
        tiles(freed(blocks, k), start, end),
        all_stored(mem1, start, freed(blocks, k)),
        addr_at(freed(blocks, k), next_free(freed(blocks, k), 0)) == (if pp >= 0 {
            addr_at(blocks, next_free(blocks, 0))
        } else {
            merged(blocks, k).base
        }),
        merge_from(blocks, k) < k && pp < 0 ==> addr_at(blocks, next_free(blocks, 0)) == merged(
            blocks,
            k,
        ).base,
{
    let lo = merge_from(blocks, k);
    let hi = merge_to(blocks, k);
    let new = freed(blocks, k);
    lemma_freed(blocks, start, end, k);
    assert(stored(mem1, start, new, lo));
    reveal(is_prev_free);
    if lo < k {
        assert(blocks[lo].free());
        if pp >= 0 {
            assert(stored(mem0, start, blocks, pp));
            lemma_next_free_is(blocks, pp + 1, lo);
        } else {
            lemma_next_free_is(blocks, 0, lo);
        }
    }
    lemma_replaced_stored(mem0, mem1, start, end, blocks, lo, hi, seq![merged(blocks, k)], pp);
}

/// The kernel's global allocator.
#[derive(Clone, Copy, PartialEq, Eq, Debug, Structural)]
pub struct KernelHeap;

impl Default for KernelHeap {
    fn default() -> (r: KernelHeap)
        ensures
            r == KernelHeap,
    {
        KernelHeap
    }
}

impl KernelHeap {
    pub fn new() -> (r: KernelHeap)
        ensures
            r == KernelHeap,
    {
        KernelHeap
    }
}

/// True if the word at `a` is part of the payload of block `k`.
pub open spec fn in_payload(blocks: Seq<HeapBlock>, k: int, a: int) -> bool {
    &&& 0 <= k < blocks.len()
    &&& !blocks[k].free()
    &&& blocks[k].payload <= a
    &&& a + 8 <= blocks[k].end()
    &&& a % 8 == 0
}

/// The word at `addr`, in what has been allocated.
pub fn read_payload(heap: &Heap, addr: u64) -> (r: u64)
    requires
        heap.wf(),
        exists|k: int| in_payload(heap.blocks(), k, addr as int),
    ensures
        r == word(heap.words(), heap.start_at(), addr as int),
{
    proof {
        let k = choose|k: int| in_payload(heap.blocks(), k, addr as int);
        lemma_tile(heap.blocks@, heap.start as int, heap.start + heap.total, k);
    }
    heap.load(addr)
}

/// Replace the word at `addr`, in what has been allocated. The blocks stay as
/// they are: an allocation is its holder's to write to.
#[verifier::spinoff_prover]
#[verifier::rlimit(30)]
pub fn write_payload(heap: &mut Heap, addr: u64, value: u64)
    requires
        old(heap).wf(),
        exists|k: int| in_payload(old(heap).blocks(), k, addr as int),
    ensures
        final(heap).wf(),
        final(heap).blocks() == old(heap).blocks(),
        final(heap).start_at() == old(heap).start_at(),
        final(heap).total_spec() == old(heap).total_spec(),
        final(heap).allocated_spec() == old(heap).allocated_spec(),
        written(
            old(heap).words(),
            final(heap).words(),
            old(heap).start_at(),
            addr as int,
            value,
        ),
{
    let ghost blocks = heap.blocks@;
    let ghost start = heap.start as int;
    let ghost end = start + heap.total;
    let ghost k = choose|k: int| in_payload(blocks, k, addr as int);
    proof {
        lemma_tile(blocks, start, end, k);
    }
    heap.store(addr, value);
    proof {
        assert forall|i: int| 0 <= i < blocks.len() implies #[trigger] stored(
            heap.mem@,
            start,
            blocks,
            i,
        ) by {
            assert(stored(old(heap).mem@, start, blocks, i));
            lemma_tile(blocks, start, end, i);
            if i < k {
                lemma_order(blocks, start, end, i, k);
            } else if k < i {
                lemma_order(blocks, start, end, k, i);
            }
        }
    }
}

// ---------------------------------------------------------------------------
// Laws
// ---------------------------------------------------------------------------

/// Freeing a block right after it was allocated gives back the blocks from
/// before: allocation and free undo each other.
pub proof fn law_free_undoes_alloc(heap: Heap, k: int, size: int, align: int)
    requires
        heap.wf(),
        0 <= k < heap.blocks().len(),
        heap.blocks()[k].fits(size, align),
        size >= 0,
        align <= 16 || align % 16 == 0,
    ensures
        freed(
            replaced(heap.blocks(), k, k + 1, served_from(heap.blocks()[k], size, align)),
            k,
        ) == heap.blocks(),
{
    let blocks = heap.blocks();
    let start = heap.start_at();
    let end = start + heap.total_spec();
    let mid = served_from(blocks[k], size, align);
    let new = replaced(blocks, k, k + 1, mid);
    lemma_tile(blocks, start, end, k);
    lemma_payload_aligned(blocks[k], align);
    lemma_served(blocks, start, end, k, size, align);
    if k > 0 {
        assert(new[k - 1] == blocks[k - 1]);
    }
    if k + 1 < blocks.len() {
        assert(new[k + mid.len()] == blocks[k + 1]);
    }
    assert(freed(new, k) =~= blocks);
}

/// Where nothing is allocated, the heap is one free block.
pub proof fn law_empty_heap_is_one_block(heap: Heap)
    requires
        heap.wf(),
        heap.total_spec() > 0,
        heap.allocated_spec() == 0,
    ensures
        heap.blocks() == one_free_block(heap.start_at(), heap.total_spec() as int),
{
    let blocks = heap.blocks();
    let start = heap.start_at();
    let end = start + heap.total_spec();
    reveal(tiles);
    lemma_live_bytes_bound(blocks, start, end);
    assert forall|i: int| 0 <= i < blocks.len() implies (#[trigger] blocks[i]).free() by {
        assert(block_ok(blocks[i], start, end));
    }
    assert(joint(blocks, 0, end));
    assert(blocks =~= one_free_block(start, heap.total_spec() as int));
}

/// A payload is aligned as requested, and the block that it is in has room
/// for the request from the payload on.
pub proof fn law_payload_fits(heap: Heap, k: int, size: int, align: int)
    requires
        heap.wf(),
        0 <= k < heap.blocks().len(),
        heap.blocks()[k].fits(size, align),
        size >= 0,
        align <= 16 || align % 16 == 0,
    ensures
        ({
            let b = served_from(heap.blocks()[k], size, align)[0];
            &&& b.payload == heap.blocks()[k].payload_for(align)
            &&& b.payload % effective_align(align) == 0
            &&& b.base + HEADER <= b.payload
            &&& b.payload + size <= b.end()
        }),
{
    let b = heap.blocks()[k];
    math::law_rounded_up(b.base + HEADER, effective_align(align));
    math::law_rounded_up(b.payload_for(align) + size, 16);
}

/// What is handed out for one block shares no byte with any other block.
pub proof fn law_live_blocks_are_disjoint(heap: Heap, i: int, j: int, a: int)
    requires
        heap.wf(),
        0 <= i < heap.blocks().len(),
        0 <= j < heap.blocks().len(),
        i != j,
        heap.blocks()[i].base <= a < heap.blocks()[i].end(),
    ensures
        !(heap.blocks()[j].base <= a < heap.blocks()[j].end()),
        heap.start_at() <= a < heap.start_at() + heap.total_spec(),
{
    let blocks = heap.blocks();
    let start = heap.start_at();
    let end = start + heap.total_spec();
    lemma_tile(blocks, start, end, i);
    if i < j {
        lemma_order(blocks, start, end, i, j);
    } else {
        lemma_order(blocks, start, end, j, i);
    }
}

/// What [`heap_alloc`] returns is live.
pub proof fn law_allocated_is_live(heap: Heap, k: int, size: int, align: int)
    requires
        heap.wf(),
        0 <= k < heap.blocks().len(),
        heap.blocks()[k].fits(size, align),
        size >= 0,
        align <= 16 || align % 16 == 0,
    ensures
        is_live(
            replaced(heap.blocks(), k, k + 1, served_from(heap.blocks()[k], size, align)),
            heap.blocks()[k].payload_for(align),
        ),
{
    let blocks = heap.blocks();
    let start = heap.start_at();
    let end = start + heap.total_spec();
    lemma_tile(blocks, start, end, k);
    lemma_payload_aligned(blocks[k], align);
    lemma_served(blocks, start, end, k, size, align);
    let new = replaced(blocks, k, k + 1, served_from(blocks[k], size, align));
    assert(!new[k].free() && new[k].payload == blocks[k].payload_for(align));
}

/// What has been handed out stays so through other allocations, and until it is
/// itself freed.
pub proof fn law_live_until_freed(heap: Heap, ptr: int, k: int, size: int, align: int)
    requires
        heap.wf(),
        is_live(heap.blocks(), ptr),
        0 <= k < heap.blocks().len(),
    ensures
        heap.blocks()[k].fits(size, align) ==> is_live(
            replaced(heap.blocks(), k, k + 1, served_from(heap.blocks()[k], size, align)),
            ptr,
        ),
        !heap.blocks()[k].free() && heap.blocks()[k].payload != ptr ==> is_live(
            freed(heap.blocks(), k),
            ptr,
        ),
{
    let blocks = heap.blocks();
    let j = choose|j: int|
        0 <= j < blocks.len() && !blocks[j].free() && (#[trigger] blocks[j]).payload == ptr;
    if blocks[k].fits(size, align) {
        let mid = served_from(blocks[k], size, align);
        let new = replaced(blocks, k, k + 1, mid);
        if j < k {
            assert(new[j] == blocks[j]);
        } else {
            assert(new[j - 1 + mid.len()] == blocks[j]);
        }
    }
    if !blocks[k].free() && blocks[k].payload != ptr {
        let lo = merge_from(blocks, k);
        let hi = merge_to(blocks, k);
        let new = freed(blocks, k);
        if j < lo {
            assert(new[j] == blocks[j]);
        } else {
            assert(j >= hi);
            assert(new[lo + 1 + (j - hi)] == blocks[j]);
        }
    }
}

/// An allocation adds the size of its block to the bytes allocated, and
/// freeing it takes them off again.
pub proof fn law_allocated_bytes_are_counted(heap: Heap, k: int, size: int, align: int)
    requires
        heap.wf(),
        0 <= k < heap.blocks().len(),
        size >= 0,
        align <= 16 || align % 16 == 0,
    ensures
        heap.blocks()[k].fits(size, align) ==> live_bytes(
            replaced(heap.blocks(), k, k + 1, served_from(heap.blocks()[k], size, align)),
        ) == heap.allocated_spec() + served_from(heap.blocks()[k], size, align)[0].size,
        !heap.blocks()[k].free() ==> live_bytes(freed(heap.blocks(), k)) == heap.allocated_spec()
            - heap.blocks()[k].size,
{
    let blocks = heap.blocks();
    let start = heap.start_at();
    let end = start + heap.total_spec();
    lemma_tile(blocks, start, end, k);
    if blocks[k].fits(size, align) {
        lemma_payload_aligned(blocks[k], align);
        lemma_served(blocks, start, end, k, size, align);
    }
    if !blocks[k].free() {
        lemma_freed(blocks, start, end, k);
    }
}

/// A multiple of a multiple of `b` is one of `b`.
proof fn lemma_multiple(v: int, a: int, b: int)
    requires
        a > 0,
        b > 0,
        a % b == 0,
        v % a == 0,
    ensures
        v % b == 0,
{
    let q = v / a;
    let t = a / b;
    vstd::arithmetic::div_mod::lemma_fundamental_div_mod(v, a);
    vstd::arithmetic::div_mod::lemma_fundamental_div_mod(a, b);
    assert(a * q == t * q * b) by (nonlinear_arith)
        requires
            a == b * t,
    ;
    vstd::arithmetic::div_mod::lemma_mod_multiples_basic(t * q, b);
}

/// What is handed out for a request is a multiple of 16, and of the alignment
/// asked for where that divides 16 or is a multiple of it, as powers of two
/// do.
pub proof fn law_payload_is_aligned(b: HeapBlock, align: int)
    requires
        align > 0,
        align <= 16 || align % 16 == 0,
    ensures
        b.payload_for(align) % 16 == 0,
        16int % align == 0 || align % 16 == 0 ==> b.payload_for(align) % align == 0,
        b.payload_for(align) >= b.base + 16,
{
    let v = b.payload_for(align);
    math::law_rounded_up(b.base + HEADER, effective_align(align));
    if align > 16 {
        lemma_multiple(v, align, 16);
    } else if 16int % align == 0 {
        lemma_multiple(v, 16, align);
    }
}

/// Address `a` can be handed out of block `b` for `size` bytes aligned to
/// `align`: it is aligned, with room for a header before it and for the bytes
/// behind it.
pub open spec fn room_at(b: HeapBlock, size: int, align: int, a: int) -> bool {
    &&& b.base + 16 <= a
    &&& a % align == 0
    &&& a % 16 == 0
    &&& a + size <= b.base + b.size
}

/// A block serves a request if and only if it is free and has room for it, and
/// then hands out the lowest address that will do.
pub proof fn law_block_with_room_serves(b: HeapBlock, size: int, align: int, a: int)
    requires
        align > 0,
        16int % align == 0 || align % 16 == 0,
    ensures
        b.fits(size, align) ==> b.payload == 0 && room_at(b, size, align, b.payload_for(align)),
        b.payload == 0 && room_at(b, size, align, a) ==> b.fits(size, align) && b.payload_for(
            align,
        ) <= a,
{
    if align > 16 {
        vstd::arithmetic::div_mod::lemma_small_mod(16, align as nat);
    }
    law_payload_is_aligned(b, align);
    if room_at(b, size, align, a) {
        math::law_rounded_up_least(b.base + HEADER, effective_align(align), a);
    }
}

/// An allocation fails only where no free block has room for it, and comes out
/// of the first block that has.
pub proof fn law_first_block_with_room_serves(
    heap: Heap,
    size: int,
    align: int,
    i: int,
    a: int,
)
    requires
        align > 0,
        16int % align == 0 || align % 16 == 0,
        0 <= i < heap.blocks().len(),
        heap.blocks()[i].payload == 0,
        room_at(heap.blocks()[i], size, align, a),
    ensures
        ({
            let k = first_fit(heap.blocks(), 0, size, align);
            &&& 0 <= k <= i
            &&& heap.blocks()[k].payload == 0
            &&& room_at(heap.blocks()[k], size, align, heap.blocks()[k].payload_for(align))
        }),
{
    let blocks = heap.blocks();
    law_block_with_room_serves(blocks[i], size, align, a);
    lemma_first_fit_finds(blocks, 0, i, size, align);
    let k = first_fit(blocks, 0, size, align);
    law_block_with_room_serves(blocks[k], size, align, a);
}

proof fn lemma_first_fit_finds(blocks: Seq<HeapBlock>, i: int, j: int, size: int, align: int)
    requires
        0 <= i <= j < blocks.len(),
        blocks[j].fits(size, align),
    ensures
        i <= first_fit(blocks, i, size, align) <= j,
        blocks[first_fit(blocks, i, size, align)].fits(size, align),
    decreases j - i,
{
    if i < j && !blocks[i].fits(size, align) {
        lemma_first_fit_finds(blocks, i + 1, j, size, align);
    }
}

/// What serves a request takes no more of a block than it needs: behind the
/// bytes asked for it ends on the next 16-byte boundary, and what is left of
/// the block, 32 bytes or more, stays free. Less than that is not split off.
pub proof fn law_rest_of_a_block_stays_free(b: HeapBlock, size: int, align: int)
    requires
        b.base % 16 == 0,
        b.size % 16 == 0,
        b.fits(size, align),
    ensures
        ({
            let parts = served_from(b, size, align);
            let stop = b.payload_for(align) + size;
            &&& parts[0].base == b.base
            &&& parts[0].payload == b.payload_for(align)
            &&& parts.last().base + parts.last().size == b.base + b.size
            &&& parts.len() == 1 || parts.len() == 2
            &&& parts.len() == 1 ==> b.base + b.size - stop < 48
            &&& parts.len() == 2 ==> {
                &&& stop <= parts[1].base < stop + 16
                &&& parts[1].base % 16 == 0
                &&& parts[0].base + parts[0].size == parts[1].base
                &&& parts[1].size >= 32
                &&& parts[1].payload == 0
            }
        }),
{
    let stop = b.payload_for(align) + size;
    math::law_rounded_up(stop, HEADER as int);
}

/// What is freed can be used again: the bytes of the block lie in a free block
/// afterwards, and its address is no longer handed out.
pub proof fn law_freed_memory_is_free(heap: Heap, k: int)
    requires
        heap.wf(),
        0 <= k < heap.blocks().len(),
        !heap.blocks()[k].free(),
    ensures
        exists|j: int|
            0 <= j < freed(heap.blocks(), k).len() && (#[trigger] freed(
                heap.blocks(),
                k,
            )[j]).payload == 0 && freed(heap.blocks(), k)[j].base <= heap.blocks()[k].base
                && heap.blocks()[k].base + heap.blocks()[k].size <= freed(heap.blocks(), k)[j].base
                + freed(heap.blocks(), k)[j].size,
        !is_live(freed(heap.blocks(), k), heap.blocks()[k].payload),
{
    let blocks = heap.blocks();
    let start = heap.start_at();
    let end = start + heap.total_spec();
    lemma_freed(blocks, start, end, k);
    let lo = merge_from(blocks, k);
    let hi = merge_to(blocks, k);
    let new = freed(blocks, k);
    lemma_tile(blocks, start, end, k);
    lemma_tile(blocks, start, end, lo);
    lemma_tile(blocks, start, end, hi - 1);
    assert(new[lo] == merged(blocks, k));
    if is_live(new, blocks[k].payload) {
        let j = choose|j: int|
            0 <= j < new.len() && !new[j].free() && (#[trigger] new[j]).payload
                == blocks[k].payload;
        let i = if j < lo {
            j
        } else {
            j - 1 + hi - lo
        };
        assert(new[j] == blocks[i]);
        lemma_one_block(blocks, start, end, i, k);
    }
}

/// The free list goes through the free blocks in the order of their addresses:
/// the next one is free, and none before it is.
pub proof fn law_free_list_skips_nothing(blocks: Seq<HeapBlock>, i: int, k: int)
    requires
        0 <= i <= blocks.len(),
    ensures
        i <= next_free(blocks, i) <= blocks.len(),
        next_free(blocks, i) < blocks.len() ==> blocks[next_free(blocks, i)].payload == 0,
        i <= k < next_free(blocks, i) ==> blocks[k].payload != 0,
        0 <= k < blocks.len() ==> addr_at(blocks, k) == blocks[k].base,
        addr_at(blocks, blocks.len() as int) == 0,
{
    lemma_next_free(blocks, i);
}

} // verus!
