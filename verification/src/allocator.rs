//! The physical frame allocator: a free list per CPU and a global one. The
//! lists live inside the free frames themselves: the first four bytes of each
//! free frame hold the index of the next free frame, or the end marker.

use crate::arch::{current_cpu, FRAME_WORDS, SHARD_COUNT, SHARD_REFILL_BATCH};
use crate::frame::{self, frame_info, set_owner, total_frames, FrameIndex, FrameInfo, FrameOwner, OwnerTag};
use crate::pmm::{self, Pmm, LIST_END};
use vstd::prelude::*;

verus! {

/// One per-CPU (or global) free list: the index of its first frame and its
/// length.
#[derive(Clone, Copy)]
pub struct Shard {
    pub(crate) head: u32,
    pub(crate) count: u32,
    pub(crate) list: Ghost<Seq<FrameIndex>>,
}

impl Shard {
    pub(crate) fn empty() -> (r: Shard)
        ensures
            r.head == LIST_END,
            r.count == 0,
            r.list@ == Seq::<FrameIndex>::empty(),
    {
        Shard { head: LIST_END, count: 0, list: Ghost(Seq::empty()) }
    }

    pub(crate) fn is_empty(&self) -> (r: bool)
        ensures
            r == (self.head == LIST_END),
    {
        self.head == LIST_END
    }
}

/// The free lists: one shard per CPU and the global list.
pub struct Allocator {
    pub(crate) shards: [Shard; SHARD_COUNT],
    pub(crate) global: Shard,
    pub(crate) home: Ghost<Map<FrameIndex, int>>,
}

impl Allocator {
    pub(crate) fn new() -> (r: Allocator)
        ensures
            forall|k: int|
                0 <= k < SHARD_COUNT ==> (#[trigger] r.shards@[k]).head == LIST_END
                    && r.shards@[k].count == 0 && r.shards@[k].list@ == Seq::<FrameIndex>::empty(),
            r.global.head == LIST_END,
            r.global.count == 0,
            r.global.list@ == Seq::<FrameIndex>::empty(),
    {
        Allocator { shards: [Shard::empty(); SHARD_COUNT], global: Shard::empty(), home: Ghost(Map::empty()) }
    }
}

/// Read the embedded next pointer of a free frame.
fn list_next(pmm: &Pmm, frame: FrameIndex) -> (r: u32)
    requires
        pmm.table_wf(),
        frame < pmm.frames().len(),
        pmm.frames()[frame as int].owner_tag() != OwnerTag::Reserved,
    ensures
        r == pmm::next_of(pmm.ram_words(), frame),
{
    proof {
        pmm.ram.lemma_len();
        assert(pmm::in_frame(frame as int * FRAME_WORDS, frame as int));
    }
    let i: usize = frame as usize * FRAME_WORDS;
    (pmm.ram.read(i) % 0x1_0000_0000) as u32
}

/// Write the embedded next pointer of a free frame.
fn set_list_next(pmm: &mut Pmm, frame: FrameIndex, next: u32)
    requires
        old(pmm).table_wf(),
        frame < old(pmm).frames().len(),
        old(pmm).frames()[frame as int].owner_tag() != OwnerTag::Reserved,
    ensures
        final(pmm).table_wf(),
        final(pmm).table == old(pmm).table,
        final(pmm).frames() == old(pmm).frames(),
        final(pmm).ram.span() == old(pmm).ram.span(),
        final(pmm).lists == old(pmm).lists,
        final(pmm).physmap == old(pmm).physmap,
        final(pmm).ram_words() == set_next(old(pmm).ram_words(), frame, next),
        pmm::next_of(final(pmm).ram_words(), frame) == next,
        forall|g: FrameIndex|
            g != frame && g < old(pmm).frames().len() ==> #[trigger] pmm::next_of(
                final(pmm).ram_words(),
                g,
            ) == pmm::next_of(old(pmm).ram_words(), g),
{
    proof {
        pmm.ram.lemma_len();
        assert(pmm::in_frame(frame as int * FRAME_WORDS, frame as int));
    }
    let i: usize = frame as usize * FRAME_WORDS;
    let w: u64 = pmm.ram.read(i);
    pmm.ram.write(i, w - w % 0x1_0000_0000 + next as u64);
}

/// RAM with the link of frame `frame` replaced.
pub open spec fn set_next(ram: Seq<u64>, frame: FrameIndex, next: u32) -> Seq<u64> {
    let i = frame as int * FRAME_WORDS;
    ram.update(i, (ram[i] - ram[i] % 0x1_0000_0000 + next) as u64)
}

fn pop_shard(pmm: &mut Pmm, shard: usize) -> (r: Option<FrameIndex>)
    requires
        shard < SHARD_COUNT,
        old(pmm).lists_wf(),
    ensures
        final(pmm).lists_wf(),
        final(pmm).ram.same_words(old(pmm).ram),
        final(pmm).physmap == old(pmm).physmap,
        final(pmm).table.base == old(pmm).table.base,
        final(pmm).lists.global == old(pmm).lists.global,
        final(pmm).lists.home == old(pmm).lists.home,
        forall|k: int|
            0 <= k < SHARD_COUNT && k != shard ==> #[trigger] final(pmm).lists.shards@[k] == old(pmm).lists.shards@[k],
        r is None <==> old(pmm).list(shard as int).len() == 0,
        r is None ==> *final(pmm) == *old(pmm),
        r matches Some(f) ==> {
            &&& f == old(pmm).list(shard as int)[0]
            &&& final(pmm).list(shard as int) == old(pmm).list(shard as int).drop_first()
            &&& final(pmm).frames() == old(pmm).frames().update(
                f as int,
                old(pmm).frames()[f as int].with_owner(FrameOwner::of(OwnerTag::Kernel, 0)),
            )
        },
{
    proof {
        assert(pmm::links(pmm.shard_at(shard as int), pmm.ram_words()));
        if pmm.list(shard as int).len() > 0 {
            assert(pmm.free(pmm.list(shard as int)[0] as int));
        }
    }
    if pmm.lists.shards[shard].is_empty() {
        return None;
    }
    let frame = pmm.lists.shards[shard].head;
    let count = pmm.lists.shards[shard].count;
    let next = list_next(pmm, frame);
    let ghost rest = pmm.list(shard as int).drop_first();
    pmm.lists.shards[shard] = Shard { head: next, count: count - 1, list: Ghost(rest) };
    // The frame is no longer on any list: mark it kernel-owned.
    set_owner(pmm, frame, FrameOwner::free(), FrameOwner::kernel());
    proof {
        let k0 = shard as int;
        assert(forall|k: int| 0 <= k <= SHARD_COUNT && k != k0 ==> #[trigger] pmm.shard_at(k) == old(pmm).shard_at(k));
        assert(forall|i: int| 0 <= i < rest.len() ==> #[trigger] rest[i] == old(pmm).list(k0)[i + 1]);
        assert(pmm.table_wf());
        assert(pmm.links_wf());
        assert(old(pmm).home(old(pmm).list(k0)[0]) == k0);
        assert forall|k: int, i: int|
            0 <= k <= SHARD_COUNT && 0 <= i < pmm.list(k).len() implies pmm.free(
            (#[trigger] pmm.list(k)[i]) as int,
        ) && pmm.home(pmm.list(k)[i]) == k by {
            if k == k0 {
                assert(pmm.list(k)[i] == old(pmm).list(k0)[i + 1]);
            } else {
                assert(pmm.list(k)[i] == old(pmm).list(k)[i]);
            }
        }
        assert forall|f: FrameIndex| #[trigger] pmm.free(f as int) implies 0 <= pmm.home(f)
            <= SHARD_COUNT && pmm.list(pmm.home(f)).contains(f) by {
            assert(old(pmm).free(f as int));
            let k = old(pmm).home(f);
            let j = choose|j: int| 0 <= j < old(pmm).list(k).len() && old(pmm).list(k)[j] == f;
            if k == k0 {
                assert(pmm.list(k)[j - 1] == f);
            }
        }
    }
    Some(frame)
}

/// A list of distinct frames below `n` has at most `n` members.
pub(crate) proof fn lemma_distinct_bounded(list: Seq<FrameIndex>, n: int)
    requires
        list.no_duplicates(),
        n >= 0,
        forall|i: int| 0 <= i < list.len() ==> 0 <= (#[trigger] list[i]) < n,
    ensures
        list.len() <= n,
{
    let ints = list.map_values(|f: FrameIndex| f as int);
    assert(ints.no_duplicates());
    ints.unique_seq_to_set();
    vstd::set_lib::lemma_int_range(0, n);
    assert(ints.to_set().subset_of(vstd::set_lib::set_int_range(0, n)));
    vstd::set_lib::lemma_len_subset(ints.to_set(), vstd::set_lib::set_int_range(0, n));
}

/// Number of frames that a refill takes from a global list of length `len`.
pub open spec fn batch_of(len: nat) -> int {
    if len < SHARD_REFILL_BATCH {
        len as int
    } else {
        SHARD_REFILL_BATCH as int
    }
}

/// Move up to a batch of frames from the global list into `shard`.
fn refill_shard(pmm: &mut Pmm, shard: usize)
    requires
        shard < SHARD_COUNT,
        old(pmm).lists_wf(),
    ensures
        final(pmm).lists_wf(),
        old(pmm).list(pmm::global_list()).len() == 0 ==> *final(pmm) == *old(pmm),
        final(pmm).table == old(pmm).table,
        final(pmm).frames() == old(pmm).frames(),
        final(pmm).ram.span() == old(pmm).ram.span(),
        final(pmm).physmap == old(pmm).physmap,
        forall|k: int|
            0 <= k < SHARD_COUNT && k != shard ==> #[trigger] final(pmm).lists.shards@[k] == old(pmm).lists.shards@[k],
        ({
            let global = old(pmm).list(pmm::global_list());
            let batch = batch_of(global.len());
            &&& final(pmm).list(shard as int) == global.take(batch) + old(pmm).list(shard as int)
            &&& final(pmm).list(pmm::global_list()) == global.skip(batch)
        }),
        final(pmm).ram_words().len() == old(pmm).ram_words().len(),
        forall|i: int|
            0 <= i < old(pmm).ram_words().len() && !old(pmm).free(i / FRAME_WORDS as int)
                ==> #[trigger] final(pmm).ram_words()[i] == old(pmm).ram_words()[i],
{
    let ghost g = pmm.list(pmm::global_list());
    let ghost k0 = shard as int;
    let ghost local = pmm.list(k0);
    proof {
        assert(pmm::links(pmm.shard_at(pmm::global_list()), pmm.ram_words()));
        assert(pmm::links(pmm.shard_at(k0), pmm.ram_words()));
    }
    let count = pmm.lists.global.count;
    let batch: u32 = if count < SHARD_REFILL_BATCH {
        count
    } else {
        SHARD_REFILL_BATCH
    };
    if batch == 0 {
        assert(g.take(0) + local =~= local);
        assert(g.skip(0) =~= g);
        return;
    }
    // Peel `batch` frames off the head of the global list.

    let batch_head = pmm.lists.global.head;
    let mut tail = batch_head;
    proof {
        assert(pmm.free(g[0] as int));
    }
    let mut cur = list_next(pmm, batch_head);
    assert(pmm::next_of(pmm.ram_words(), g[0]) == pmm::chain_at(g, 1));
    for j in 1..batch
        invariant
            1 <= batch <= g.len(),
            g == pmm.list(pmm::global_list()),
            pmm.lists_wf(),
            tail == g[j - 1],
            cur == pmm::chain_at(g, j as int),
    {
        assert(pmm.free(g[j as int] as int));
        assert(pmm::links(pmm.shard_at(pmm::global_list()), pmm.ram_words()));
        tail = cur;
        cur = list_next(pmm, cur);
        assert(pmm::next_of(pmm.ram_words(), g[j as int]) == pmm::chain_at(g, j + 1));
    }
    let ghost head_part = g.take(batch as int);
    let ghost rest = g.skip(batch as int);
    pmm.lists.global = Shard { head: cur, count: count - batch, list: Ghost(rest) };

    // Splice the peeled chain onto the front of our shard.
    let shard_head = pmm.lists.shards[shard].head;
    let shard_count = pmm.lists.shards[shard].count;
    let ghost joined = head_part + local;
    proof {
        assert(pmm.free(g[batch - 1] as int));
        assert forall|i: int| 0 <= i < joined.len() implies old(pmm).free(
            (#[trigger] joined[i]) as int,
        ) && old(pmm).home(joined[i]) == (if i < batch {
            pmm::global_list()
        } else {
            k0
        }) by {
            if i < batch {
                assert(joined[i] == old(pmm).list(pmm::global_list())[i]);
            } else {
                assert(joined[i] == old(pmm).list(k0)[i - batch]);
            }
        }
        assert(joined.no_duplicates());
        lemma_distinct_bounded(joined, pmm.frames().len() as int);
    }
    set_list_next(pmm, tail, shard_head);
    pmm.lists.shards[shard] = Shard {
        head: batch_head,
        count: shard_count + batch,
        list: Ghost(joined),
    };
    let ghost home0 = pmm.lists.home@;
    pmm.lists.home = Ghost(
        Map::new(
            |f: FrameIndex| true,
            |f: FrameIndex|
                if head_part.contains(f) {
                    k0
                } else {
                    home0[f]
                },
        ),
    );
    proof {
        assert(forall|k: int|
            0 <= k < SHARD_COUNT && k != k0 ==> #[trigger] pmm.shard_at(k) == old(pmm).shard_at(k));
        // Links.
        assert forall|k: int| 0 <= k <= SHARD_COUNT implies pmm::links(
            #[trigger] pmm.shard_at(k),
            pmm.ram_words(),
        ) by {
            let sh = pmm.shard_at(k);
            let l = sh.list@;
            if k == k0 {
                assert forall|i: int| 0 <= i < l.len() implies #[trigger] pmm::next_of(
                    pmm.ram_words(),
                    l[i],
                ) == pmm::chain_at(l, i + 1) by {
                    assert(old(pmm).free(joined[i] as int));
                    if i < batch - 1 {
                        assert(joined[i] == g[i]);
                        assert(joined[i] != tail);
                        assert(pmm::next_of(old(pmm).ram_words(), g[i]) == pmm::chain_at(g, i + 1));
                    } else if i >= batch {
                        assert(joined[i] == local[i - batch]);
                        assert(pmm::next_of(old(pmm).ram_words(), local[i - batch]) == pmm::chain_at(
                            local,
                            i - batch + 1,
                        ));
                    }
                }
            } else if k == pmm::global_list() {
                assert forall|i: int| 0 <= i < l.len() implies #[trigger] pmm::next_of(
                    pmm.ram_words(),
                    l[i],
                ) == pmm::chain_at(l, i + 1) by {
                    assert(l[i] == g[i + batch]);
                    assert(old(pmm).free(old(pmm).list(pmm::global_list())[i + batch] as int));
                    assert(pmm::next_of(old(pmm).ram_words(), g[i + batch]) == pmm::chain_at(
                        g,
                        i + batch + 1,
                    ));
                }
            } else {
                assert(pmm::links(old(pmm).shard_at(k), old(pmm).ram_words()));
                assert forall|i: int| 0 <= i < l.len() implies #[trigger] pmm::next_of(
                    pmm.ram_words(),
                    l[i],
                ) == pmm::chain_at(l, i + 1) by {
                    assert(l[i] == old(pmm).list(k)[i]);
                    assert(old(pmm).free(old(pmm).list(k)[i] as int));
                    assert(old(pmm).home(g[batch - 1]) == pmm::global_list()) by {
                        assert(g[batch - 1] == old(pmm).list(pmm::global_list())[batch - 1]);
                    }
                    assert(pmm::next_of(old(pmm).ram_words(), l[i]) == pmm::chain_at(l, i + 1));
                }
            }
        }
        // Members.
        assert forall|k: int, i: int|
            0 <= k <= SHARD_COUNT && 0 <= i < pmm.list(k).len() implies pmm.free(
            (#[trigger] pmm.list(k)[i]) as int,
        ) && pmm.home(pmm.list(k)[i]) == k by {
            let f = pmm.list(k)[i];
            if k == k0 {
                assert(f == joined[i]);
                if i < batch {
                    assert(head_part[i] == f);
                } else {
                    assert(f == old(pmm).list(k0)[i - batch]);
                }
            } else if k == pmm::global_list() {
                assert(f == g[i + batch]);
                assert(old(pmm).list(pmm::global_list())[i + batch] == f);
                assert(!head_part.contains(f));
            } else {
                assert(f == old(pmm).list(k)[i]);
                if head_part.contains(f) {
                    let j = choose|j: int| 0 <= j < head_part.len() && head_part[j] == f;
                    assert(old(pmm).list(pmm::global_list())[j] == f);
                }
            }
        }
        assert forall|f: FrameIndex| #[trigger] pmm.free(f as int) implies 0 <= pmm.home(f)
            <= SHARD_COUNT && pmm.list(pmm.home(f)).contains(f) by {
            assert(old(pmm).free(f as int));
            let k = old(pmm).home(f);
            let j = choose|j: int| 0 <= j < old(pmm).list(k).len() && old(pmm).list(k)[j] == f;
            if k == pmm::global_list() {
                if j < batch {
                    assert(head_part[j] == f);
                    assert(joined[j] == f);
                } else {
                    assert(rest[j - batch] == f);
                    if head_part.contains(f) {
                        let m = choose|m: int| 0 <= m < head_part.len() && head_part[m] == f;
                        assert(g[m] == g[j]);
                    }
                }
            } else {
                if head_part.contains(f) {
                    let m = choose|m: int| 0 <= m < head_part.len() && head_part[m] == f;
                    assert(old(pmm).list(pmm::global_list())[m] == f);
                }
                if k == k0 {
                    assert(joined[j + batch] == f);
                }
            }
        }
    }
}

/// Allocate a frame into kernel-internal ownership. Returns the frame index,
/// or `None` if the free lists are empty.
pub fn alloc_frame(pmm: &mut Pmm) -> (r: Option<FrameIndex>)
    requires
        old(pmm).wf(),
    ensures
        final(pmm).wf(),
        final(pmm).physmap_at() == old(pmm).physmap_at(),
        final(pmm).table_at() == old(pmm).table_at(),
        r == old(pmm).next_alloc(),
        r is None <==> forall|f: int| !old(pmm).free(f),
        r is None ==> *final(pmm) == *old(pmm),
        r matches Some(f) ==> {
            &&& old(pmm).free(f as int)
            &&& final(pmm).frames() == old(pmm).frames().update(
                f as int,
                old(pmm).frames()[f as int].with_owner(FrameOwner::of(OwnerTag::Kernel, 0)),
            )
            &&& final(pmm).local_list() == old(pmm).local_after_refill().drop_first()
            &&& final(pmm).list(pmm::global_list()) == old(pmm).global_after_refill()
            &&& old(pmm).pool().has_head() && f == old(pmm).pool().head()
            &&& final(pmm).pool() == old(pmm).pool().take_head()
        },
        final(pmm).ram_words().len() == old(pmm).ram_words().len(),
        forall|i: int|
            0 <= i < old(pmm).ram_words().len() && !old(pmm).free(i / FRAME_WORDS as int)
                ==> #[trigger] final(pmm).ram_words()[i] == old(pmm).ram_words()[i],
{
    proof {
        reveal(Pmm::wf);
        pmm.lemma_no_free_frames();
    }
    let shard = current_cpu() % SHARD_COUNT;
    if let Some(frame) = pop_shard(pmm, shard) {
        proof {
            assert(old(pmm).free(old(pmm).list(0)[0] as int));
            assert forall|k: int| 0 < k < SHARD_COUNT implies (#[trigger] pmm.list(k)).len() == 0 by {
                assert(pmm.lists.shards@[k] == old(pmm).lists.shards@[k]);
                assert(old(pmm).list(k).len() == 0);
            }
        }
        return Some(frame);
    }
    refill_shard(pmm, shard);
    let ghost mid = *pmm;
    let r = pop_shard(pmm, shard);
    proof {
        assert(old(pmm).list(0).len() == 0);
        assert(mid.list(0) =~= old(pmm).local_after_refill());
        assert forall|k: int| 0 < k < SHARD_COUNT implies (#[trigger] pmm.list(k)).len() == 0 by {
            assert(pmm.lists.shards@[k] == mid.lists.shards@[k]);
            assert(mid.lists.shards@[k] == old(pmm).lists.shards@[k]);
            assert(old(pmm).list(k).len() == 0);
        }
        if r is Some {
            assert(mid.free(mid.list(0)[0] as int));
        }
    }
    r
}

/// What a release leaves of a frame's metadata: a frame that is still pinned
/// or mapped waits as `Pending`; any other becomes free, one generation on.
pub open spec fn released(info: FrameInfo) -> FrameInfo {
    if info.pinned() != 0 || info.mappings() != 0 {
        info.with_owner(FrameOwner::of(OwnerTag::Pending, 0))
    } else {
        info.with_owner(FrameOwner::of(OwnerTag::Free, 0)).next_gen()
    }
}

/// Release a frame back to the allocator.
///
/// If the frame is still pinned or mapped it is not released: it becomes
/// `Pending` and waits for the last pin or mapping to go.
pub fn release_frame(pmm: &mut Pmm, frame: FrameIndex)
    requires
        old(pmm).wf(),
        frame < old(pmm).frames().len(),
        old(pmm).frames()[frame as int].owner_tag() != OwnerTag::Reserved,
        old(pmm).frames()[frame as int].owner_tag() != OwnerTag::Free,
    ensures
        final(pmm).wf(),
        final(pmm).physmap_at() == old(pmm).physmap_at(),
        final(pmm).table_at() == old(pmm).table_at(),
        final(pmm).frames() == old(pmm).frames().update(
            frame as int,
            released(old(pmm).frames()[frame as int]),
        ),
        final(pmm).pool() == old(pmm).pool().release(frame),
        final(pmm).list(pmm::global_list()) == old(pmm).list(pmm::global_list()),
        final(pmm).local_list() == (if final(pmm).free(frame as int) {
            seq![frame] + old(pmm).local_list()
        } else {
            old(pmm).local_list()
        }),
        final(pmm).ram_words() == (if final(pmm).free(frame as int) {
            set_next(old(pmm).ram_words(), frame, pmm::chain_at(old(pmm).local_list(), 0))
        } else {
            old(pmm).ram_words()
        }),
{
    proof {
        reveal(Pmm::wf);
    }
    let shard = current_cpu() % SHARD_COUNT;
    let info = frame_info(pmm, frame);
    let owner = info.owner();
    assert(owner.valid());
    if info.pinned() != 0 || info.mappings() != 0 {
        if owner.tag() != OwnerTag::Pending {
            set_owner(pmm, frame, owner, FrameOwner::pending());
        }
        proof {
            assert(pmm.frames() =~= old(pmm).frames().update(frame as int, released(info)));
            assert(forall|k: int| #[trigger] pmm.shard_at(k) == old(pmm).shard_at(k));
            assert(forall|f: int| #[trigger] pmm.free(f) == old(pmm).free(f));
            assert(pmm.table_wf());
            assert forall|k: int| 0 <= k <= SHARD_COUNT implies pmm::links(
                #[trigger] pmm.shard_at(k),
                pmm.ram_words(),
            ) by {
                assert(pmm::links(old(pmm).shard_at(k), old(pmm).ram_words()));
            }
            assert forall|k: int, i: int|
                0 <= k <= SHARD_COUNT && 0 <= i < pmm.list(k).len() implies pmm.free(
                (#[trigger] pmm.list(k)[i]) as int,
            ) && pmm.home(pmm.list(k)[i]) == k by {
                assert(old(pmm).free(old(pmm).list(k)[i] as int));
            }
            assert forall|f: FrameIndex| #[trigger] pmm.free(f as int) implies 0 <= pmm.home(f)
                <= SHARD_COUNT && pmm.list(pmm.home(f)).contains(f) by {
                assert(old(pmm).free(f as int));
            }
            assert forall|k: int| 0 < k < SHARD_COUNT implies (#[trigger] pmm.list(k)).len() == 0 by {
                assert(old(pmm).list(k).len() == 0);
            }
        }
        return ;
    }
    set_owner(pmm, frame, owner, FrameOwner::free());
    let mut info1 = frame_info(pmm, frame);
    let _ = info1.bump_gen();
    pmm.ram.set_info(frame, info1);

    let ghost local = pmm.list(0);
    let ghost joined = seq![frame] + local;
    let ghost home0 = pmm.lists.home@;
    let head = pmm.lists.shards[shard].head;
    let count = pmm.lists.shards[shard].count;
    proof {
        assert(pmm::links(old(pmm).shard_at(0), old(pmm).ram_words()));
        assert forall|i: int| 0 <= i < joined.len() implies (#[trigger] joined[i])
            < pmm.frames().len() && (i > 0 ==> joined[i] != frame && joined[i] == old(pmm).list(
            0,
        )[i - 1]) by {
            if i > 0 {
                assert(old(pmm).free(old(pmm).list(0)[i - 1] as int));
            }
        }
        assert(joined.no_duplicates());
        lemma_distinct_bounded(joined, pmm.frames().len() as int);
    }
    set_list_next(pmm, frame, head);
    pmm.lists.shards[shard] = Shard { head: frame, count: count + 1, list: Ghost(joined) };
    pmm.lists.home = Ghost(home0.insert(frame, 0));
    proof {
        assert(forall|k: int|
            0 < k <= SHARD_COUNT ==> #[trigger] pmm.shard_at(k) == old(pmm).shard_at(k));
        assert(pmm.frames() =~= old(pmm).frames().update(frame as int, released(info)));
        assert forall|k: int| 0 < k < SHARD_COUNT implies (#[trigger] pmm.list(k)).len() == 0 by {
            assert(pmm.shard_at(k) == old(pmm).shard_at(k));
            assert(old(pmm).list(k).len() == 0);
        }
        assert forall|k: int| 0 <= k <= SHARD_COUNT implies pmm::links(
            #[trigger] pmm.shard_at(k),
            pmm.ram_words(),
        ) by {
            let l = pmm.shard_at(k).list@;
            assert(pmm::links(old(pmm).shard_at(k), old(pmm).ram_words()));
            assert forall|i: int| 0 <= i < l.len() implies #[trigger] pmm::next_of(
                pmm.ram_words(),
                l[i],
            ) == pmm::chain_at(l, i + 1) by {
                if k == 0 {
                    if i > 0 {
                        assert(joined[i] == local[i - 1]);
                        assert(old(pmm).free(old(pmm).list(0)[i - 1] as int));
                        assert(pmm::next_of(old(pmm).ram_words(), local[i - 1]) == pmm::chain_at(local, i));
                    }
                } else {
                    assert(old(pmm).free(old(pmm).list(k)[i] as int));
                    assert(pmm::next_of(old(pmm).ram_words(), l[i]) == pmm::chain_at(l, i + 1));
                }
            }
        }
        assert forall|k: int, i: int|
            0 <= k <= SHARD_COUNT && 0 <= i < pmm.list(k).len() implies pmm.free(
            (#[trigger] pmm.list(k)[i]) as int,
        ) && pmm.home(pmm.list(k)[i]) == k by {
            if k == 0 {
                if i > 0 {
                    assert(joined[i] == old(pmm).list(0)[i - 1]);
                    assert(old(pmm).free(old(pmm).list(0)[i - 1] as int));
                }
            } else {
                assert(pmm.list(k)[i] == old(pmm).list(k)[i]);
                assert(old(pmm).free(old(pmm).list(k)[i] as int));
            }
        }
        assert forall|f: FrameIndex| #[trigger] pmm.free(f as int) implies 0 <= pmm.home(f)
            <= SHARD_COUNT && pmm.list(pmm.home(f)).contains(f) by {
            if f == frame {
                assert(joined[0] == frame);
            } else {
                assert(old(pmm).free(f as int));
                let k = old(pmm).home(f);
                let j = choose|j: int| 0 <= j < old(pmm).list(k).len() && old(pmm).list(k)[j] == f;
                if k == 0 {
                    assert(joined[j + 1] == f);
                }
            }
        }
    }
}

/// True if a frame waits for release and nothing holds it back any more.
pub open spec fn drained(info: FrameInfo) -> bool {
    info.owner_tag() == OwnerTag::Pending && info.pinned() == 0 && info.mappings() == 0
}

/// Release a draining frame whose pins and mappings have all been removed.
pub(crate) fn drain_if_ready(pmm: &mut Pmm, frame: FrameIndex)
    requires
        old(pmm).wf(),
        frame < old(pmm).frames().len(),
    ensures
        final(pmm).wf(),
        final(pmm).physmap_at() == old(pmm).physmap_at(),
        final(pmm).table_at() == old(pmm).table_at(),
        !drained(old(pmm).frames()[frame as int]) ==> *final(pmm) == *old(pmm),
        drained(old(pmm).frames()[frame as int]) ==> {
            &&& final(pmm).frames() == old(pmm).frames().update(
                frame as int,
                released(old(pmm).frames()[frame as int]),
            )
            &&& final(pmm).list(pmm::global_list()) == old(pmm).list(pmm::global_list())
            &&& final(pmm).local_list() == seq![frame] + old(pmm).local_list()
            &&& final(pmm).ram_words() == set_next(
                old(pmm).ram_words(),
                frame,
                pmm::chain_at(old(pmm).local_list(), 0),
            )
        },
{
    proof {
        reveal(Pmm::wf);
    }
    let info = frame_info(pmm, frame);
    if info.owner_tag() == OwnerTag::Pending && info.pinned() == 0 && info.mappings() == 0 {
        release_frame(pmm, frame);
    }
}

/// The free frames among the first `n`, in ascending order.
pub open spec fn free_below(frames: Seq<FrameInfo>, n: int) -> Seq<FrameIndex>
    decreases n,
{
    if n <= 0 {
        Seq::empty()
    } else if frames[n - 1].is_free() {
        free_below(frames, n - 1).push((n - 1) as FrameIndex)
    } else {
        free_below(frames, n - 1)
    }
}

/// `free_below` holds exactly the free frames, each once.
pub(crate) proof fn lemma_free_below(frames: Seq<FrameInfo>, n: int)
    requires
        0 <= n <= frames.len(),
        frames.len() <= u32::MAX,
    ensures
        free_below(frames, n).len() <= n,
        free_below(frames, n).no_duplicates(),
        forall|i: int|
            0 <= i < free_below(frames, n).len() ==> 0 <= (#[trigger] free_below(frames, n)[i]) < n
                && frames[free_below(frames, n)[i] as int].is_free(),
        forall|f: FrameIndex|
            f < n && (#[trigger] frames[f as int]).is_free() ==> free_below(frames, n).contains(f),
    decreases n,
{
    if n > 0 {
        lemma_free_below(frames, n - 1);
        let l0 = free_below(frames, n - 1);
        let l = free_below(frames, n);
        assert forall|f: FrameIndex| f < n && (#[trigger] frames[f as int]).is_free() implies l.contains(
            f,
        ) by {
            if f == n - 1 {
                assert(l[l.len() - 1] == f);
            } else {
                let i = choose|i: int| 0 <= i < l0.len() && l0[i] == f;
                assert(l[i] == f);
            }
        }
    }
}

/// Build the global free list from every frame currently marked Free.
///
/// Boot-only: must run before any allocation. Returns the number of frames
/// placed on the list.
pub(crate) fn build_global_freelist(pmm: &mut Pmm) -> (r: u64)
    requires
        old(pmm).table_wf(),
        forall|k: int|
            0 <= k <= SHARD_COUNT ==> (#[trigger] old(pmm).shard_at(k)).head == LIST_END && old(pmm).shard_at(k).count == 0 && old(pmm).list(k).len() == 0,
    ensures
        final(pmm).wf(),
        final(pmm).physmap == old(pmm).physmap,
        final(pmm).table == old(pmm).table,
        final(pmm).frames() == old(pmm).frames(),
        final(pmm).ram.span() == old(pmm).ram.span(),
        final(pmm).local_list().len() == 0,
        final(pmm).list(pmm::global_list()) == free_below(
            old(pmm).frames(),
            old(pmm).frames().len() as int,
        ),
        r == final(pmm).list(pmm::global_list()).len(),
        final(pmm).ram_words().len() == old(pmm).ram_words().len(),
        forall|i: int|
            0 <= i < old(pmm).ram_words().len() && !old(pmm).free(i / FRAME_WORDS as int)
                ==> #[trigger] final(pmm).ram_words()[i] == old(pmm).ram_words()[i],
{
    proof {
        reveal(Pmm::wf);
    }
    let total = total_frames(pmm) as u32;
    let mut head = LIST_END;
    let mut prev = LIST_END;
    let mut count: u64 = 0;
    let ghost frames = pmm.frames();
    let ghost mut l = Seq::<FrameIndex>::empty();
    for idx in 0..total
        invariant
            total == frames.len(),
            pmm.table_wf(),
            pmm.table == old(pmm).table,
            pmm.ram.span() == old(pmm).ram.span(),
            pmm.physmap == old(pmm).physmap,
            pmm.lists == old(pmm).lists,
            frames == pmm.frames(),
            frames == old(pmm).frames(),
            l == free_below(frames, idx as int),
            count == l.len(),
            count <= idx,
            head == pmm::chain_at(l, 0),
            prev == pmm::chain_at(l, count - 1),
            forall|i: int|
                0 <= i < count - 1 ==> #[trigger] pmm::next_of(pmm.ram_words(), l[i]) == l[i + 1],
            pmm.ram_words().len() == old(pmm).ram_words().len(),
            forall|i: int|
                0 <= i < old(pmm).ram_words().len() && !old(pmm).free(i / FRAME_WORDS as int)
                    ==> #[trigger] pmm.ram_words()[i] == old(pmm).ram_words()[i],
    {
        let ghost l0 = l;
        let ghost l1 = free_below(frames, idx + 1);
        let ghost ram0 = pmm.ram_words();
        proof {
            lemma_free_below(frames, idx as int);
            lemma_free_below(frames, idx + 1);
        }
        if frame_info(pmm, idx).is_free() {
            if head == LIST_END {
                head = idx;
            } else {
                set_list_next(pmm, prev, idx);
            }
            prev = idx;
            count = count + 1;
            assert forall|i: int| 0 <= i < l1.len() - 1 implies #[trigger] pmm::next_of(
                pmm.ram_words(),
                l1[i],
            ) == l1[i + 1] by {
                assert(l1[i] == l0[i]);
                if i < l0.len() - 1 {
                    assert(l1[i + 1] == l0[i + 1]);
                    assert(pmm::next_of(ram0, l0[i]) == l0[i + 1]);
                }
            }
        }
        proof {
            l = l1;
        }
    }
    let ghost ram0 = pmm.ram_words();
    proof {
        lemma_free_below(frames, total as int);
    }
    if prev != LIST_END {
        set_list_next(pmm, prev, LIST_END);
    }
    pmm.lists.global = Shard { head, count: count as u32, list: Ghost(l) };
    pmm.lists.home = Ghost(Map::new(|f: FrameIndex| true, |f: FrameIndex| pmm::global_list()));
    proof {
        assert(forall|k: int|
            0 <= k < SHARD_COUNT ==> #[trigger] pmm.shard_at(k) == old(pmm).shard_at(k));
        assert forall|k: int| 0 <= k <= SHARD_COUNT implies pmm::links(
            #[trigger] pmm.shard_at(k),
            pmm.ram_words(),
        ) by {
            if k == pmm::global_list() {
                assert forall|i: int| 0 <= i < l.len() implies #[trigger] pmm::next_of(
                    pmm.ram_words(),
                    l[i],
                ) == pmm::chain_at(l, i + 1) by {
                    if i < l.len() - 1 {
                        assert(pmm::next_of(ram0, l[i]) == l[i + 1]);
                    }
                }
            } else {
                assert(old(pmm).list(k).len() == 0);
            }
        }
        assert forall|k: int, i: int|
            0 <= k <= SHARD_COUNT && 0 <= i < pmm.list(k).len() implies pmm.free(
            (#[trigger] pmm.list(k)[i]) as int,
        ) && pmm.home(pmm.list(k)[i]) == k by {
            if k == pmm::global_list() {
                assert(pmm.list(k)[i] == l[i]);
            } else {
                assert(pmm.shard_at(k) == old(pmm).shard_at(k));
                assert(old(pmm).list(k).len() == 0);
            }
        }
        assert forall|f: FrameIndex| #[trigger] pmm.free(f as int) implies 0 <= pmm.home(f)
            <= SHARD_COUNT && pmm.list(pmm.home(f)).contains(f) by {
            assert(frames[f as int].is_free());
        }
        assert forall|k: int| 0 < k < SHARD_COUNT implies (#[trigger] pmm.list(k)).len() == 0 by {
            assert(pmm.shard_at(k) == old(pmm).shard_at(k));
            assert(old(pmm).list(k).len() == 0);
        }
    }
    count
}

/// Total number of free frames across all lists.
pub fn free_frame_count(pmm: &Pmm) -> (r: usize)
    requires
        pmm.wf(),
    ensures
        r == pmm.free_count(),
{
    proof {
        reveal(Pmm::wf);
        pmm.lemma_free_count();
        assert(pmm::links(pmm.shard_at(0), pmm.ram_words()));
        assert(pmm::links(pmm.shard_at(pmm::global_list()), pmm.ram_words()));
    }
    let mut total: usize = 0;
    for k in 0..SHARD_COUNT
        invariant
            pmm.wf(),
            total == (if k == 0 {
                0
            } else {
                pmm.local_list().len()
            }),
            pmm.free_count() == pmm.local_list().len() + pmm.list(pmm::global_list()).len(),
            pmm.free_count() <= u32::MAX,
    {
        proof {
            reveal(Pmm::wf);
            assert(pmm::links(pmm.shard_at(k as int), pmm.ram_words()));
            assert(k > 0 ==> pmm.list(k as int).len() == 0);
        }
        total = total + pmm.lists.shards[k].count as usize;
    }
    total + pmm.lists.global.count as usize
}

/// Walk the list that starts at `head`; every frame on it is free. Returns
/// the number of frames walked.
fn walk_list(pmm: &Pmm, head: u32, Ghost(k): Ghost<int>) -> (r: usize)
    requires
        pmm.wf(),
        0 <= k <= SHARD_COUNT,
        head == pmm.shard_at(k).head,
    ensures
        r == pmm.list(k).len(),
{
    proof {
        reveal(Pmm::wf);
    }
    let ghost l = pmm.list(k);
    proof {
        assert(pmm::links(pmm.shard_at(k), pmm.ram_words()));
        assert forall|i: int| 0 <= i < l.len() implies 0 <= (#[trigger] l[i]) < pmm.frames().len() by {
            assert(pmm.free(pmm.list(k)[i] as int));
        }
        lemma_distinct_bounded(l, pmm.frames().len() as int);
    }
    let mut walked: usize = 0;
    let mut cur = head;
    while cur != LIST_END
        invariant
            pmm.wf(),
            0 <= k <= SHARD_COUNT,
            l == pmm.list(k),
            walked <= l.len() <= u32::MAX,
            cur == pmm::chain_at(l, walked as int),
        decreases l.len() - walked,
    {
        proof {
            reveal(Pmm::wf);
            assert(pmm::links(pmm.shard_at(k), pmm.ram_words()));
            assert(walked < l.len());
            assert(pmm.free(pmm.list(k)[walked as int] as int));
            assert(pmm::next_of(pmm.ram_words(), l[walked as int]) == pmm::chain_at(l, walked + 1));
        }
        let free = frame_info(pmm, cur).is_free();
        assert(free);
        walked = walked + 1;
        cur = list_next(pmm, cur);
    }
    proof {
        if walked < l.len() {
            assert(pmm.free(pmm.list(k)[walked as int] as int));
        }
    }
    walked
}

/// Diagnostics: walk every free list; each listed frame is still marked Free.
/// Returns the number of frames walked.
pub fn debug_validate_free_lists(pmm: &Pmm) -> (r: usize)
    requires
        pmm.wf(),
    ensures
        r == pmm.free_count(),
{
    proof {
        reveal(Pmm::wf);
        pmm.lemma_free_count();
    }
    let mut walked: usize = 0;
    for k in 0..SHARD_COUNT
        invariant
            pmm.wf(),
            walked == (if k == 0 {
                0
            } else {
                pmm.local_list().len()
            }),
            pmm.free_count() == pmm.local_list().len() + pmm.list(pmm::global_list()).len(),
            pmm.free_count() <= u32::MAX,
    {
        proof {
            reveal(Pmm::wf);
            assert(k > 0 ==> pmm.list(k as int).len() == 0);
        }
        walked = walked + walk_list(pmm, pmm.lists.shards[k].head, Ghost(k as int));
    }
    walked + walk_list(pmm, pmm.lists.global.head, Ghost(pmm::global_list()))
}

/// A frame is free exactly when it is on a free list, and then it is on one
/// list only, at one place.
pub proof fn law_free_iff_listed_once(pmm: Pmm, f: FrameIndex)
    requires
        pmm.wf(),
    ensures
        pmm.free(f as int) <==> exists|k: int|
            0 <= k <= SHARD_COUNT && (#[trigger] pmm.list(k)).contains(f),
        forall|k1: int, i1: int, k2: int, i2: int|
            0 <= k1 <= SHARD_COUNT && 0 <= k2 <= SHARD_COUNT && 0 <= i1 < pmm.list(k1).len() && 0
                <= i2 < pmm.list(k2).len() && #[trigger] pmm.list(k1)[i1] == f
                && #[trigger] pmm.list(k2)[i2] == f ==> k1 == k2 && i1 == i2,
{
    reveal(Pmm::wf);
    if pmm.free(f as int) {
        assert(pmm.list(pmm.home(f)).contains(f));
    }
    if exists|k: int| 0 <= k <= SHARD_COUNT && (#[trigger] pmm.list(k)).contains(f) {
        let k = choose|k: int| 0 <= k <= SHARD_COUNT && (#[trigger] pmm.list(k)).contains(f);
        let i = choose|i: int| 0 <= i < pmm.list(k).len() && pmm.list(k)[i] == f;
        assert(pmm.free(pmm.list(k)[i] as int));
    }
    assert forall|k1: int, i1: int, k2: int, i2: int|
        0 <= k1 <= SHARD_COUNT && 0 <= k2 <= SHARD_COUNT && 0 <= i1 < pmm.list(k1).len() && 0 <= i2
            < pmm.list(k2).len() && #[trigger] pmm.list(k1)[i1] == f && #[trigger] pmm.list(k2)[i2]
            == f implies k1 == k2 && i1 == i2 by {
        assert(pmm::links(pmm.shard_at(k1), pmm.ram_words()));
    }
}

/// A released frame that nothing held back is the next one to be allocated.
pub proof fn law_release_then_alloc(before: Pmm, after: Pmm, frame: FrameIndex)
    requires
        before.wf(),
        after.wf(),
        frame < before.frames().len(),
        before.frames()[frame as int].pinned() == 0,
        before.frames()[frame as int].mappings() == 0,
        after.frames() == before.frames().update(
            frame as int,
            released(before.frames()[frame as int]),
        ),
        after.local_list() == (if after.free(frame as int) {
            seq![frame] + before.local_list()
        } else {
            before.local_list()
        }),
    ensures
        after.free(frame as int),
        after.next_alloc() == Some(frame),
        after.frames()[frame as int].gen() == frame::wrapping_inc(before.frames()[frame as int].gen()),
{
    reveal(Pmm::wf);
    assert(after.frames()[frame as int] == released(before.frames()[frame as int]));
}

/// A frame that is pinned or mapped is not handed out: after its release it
/// is neither free nor the next frame to be allocated.
pub proof fn law_held_frame_is_deferred(info: FrameInfo)
    requires
        info.pinned() != 0 || info.mappings() != 0,
    ensures
        released(info).owner_tag() == OwnerTag::Pending,
        !released(info).is_free(),
        released(info).pinned() == info.pinned(),
        released(info).mappings() == info.mappings(),
        released(info).gen() == info.gen(),
{
}

/// Each allocation takes one frame out of the pool, and each release that
/// goes through puts one back.
pub proof fn law_free_count_steps(before: Pmm, after: Pmm, frame: FrameIndex, info: FrameInfo)
    requires
        before.wf(),
        after.wf(),
        frame < before.frames().len(),
        after.frames() == before.frames().update(frame as int, info),
    ensures
        before.free(frame as int) && !info.is_free() ==> after.free_count() + 1
            == before.free_count(),
        !before.free(frame as int) && info.is_free() ==> after.free_count() == before.free_count()
            + 1,
        before.free(frame as int) == info.is_free() ==> after.free_count() == before.free_count(),
{
    reveal(Pmm::wf);
    before.lemma_free_count();
    after.lemma_free_count();
    let f = frame as int;
    if before.free(f) && !info.is_free() {
        assert(after.free_set() =~= before.free_set().remove(f));
    } else if !before.free(f) && info.is_free() {
        assert(after.free_set() =~= before.free_set().insert(f));
    } else {
        assert(after.free_set() =~= before.free_set());
    }
}

/// A refill takes what there is, but no more than 64 frames at a time.
pub proof fn law_refill_is_a_batch(len: nat)
    ensures
        0 <= batch_of(len) <= len,
        batch_of(len) <= 64,
        batch_of(len) == len || batch_of(len) == 64,
        len > 0 ==> batch_of(len) > 0,
{
}

/// The pool starts out with every free frame, lowest first, and no other.
pub proof fn law_pool_starts_in_order(frames: Seq<FrameInfo>, n: int, f: FrameIndex)
    requires
        0 <= n <= frames.len(),
        frames.len() <= u32::MAX,
    ensures
        free_below(frames, n).contains(f) <==> f < n && frames[f as int].owner_tag()
            == OwnerTag::Free,
        forall|i: int, j: int|
            0 <= i < j < free_below(frames, n).len() ==> (#[trigger] free_below(frames, n)[i]) < (
            #[trigger] free_below(frames, n)[j]),
    decreases n,
{
    lemma_free_below(frames, n);
    if f < n && frames[f as int].owner_tag() == OwnerTag::Free {
        assert(frames[f as int].is_free());
    }
    if n > 0 {
        law_pool_starts_in_order(frames, n - 1, f);
        lemma_free_below(frames, n - 1);
        let before = free_below(frames, n - 1);
        let all = free_below(frames, n);
        assert forall|i: int, j: int| 0 <= i < j < all.len() implies (#[trigger] all[i]) < (
        #[trigger] all[j]) by {
            assert(all[i] == before[i]);
            if j < before.len() {
                assert(all[j] == before[j]);
            }
        }
    }
}

/// The CPU's own list comes first, from its head; where it is empty, the head
/// of the global list does. Only where both are empty is there nothing.
pub proof fn law_allocation_order(pmm: Pmm)
    ensures
        pmm.local_list().len() > 0 ==> pmm.next_alloc() == Some(pmm.local_list()[0]),
        pmm.local_list().len() == 0 && pmm.list(pmm::global_list()).len() > 0 ==> pmm.next_alloc()
            == Some(pmm.list(pmm::global_list())[0]),
        pmm.local_list().len() == 0 && pmm.list(pmm::global_list()).len() == 0
            ==> pmm.next_alloc() is None,
        pmm.pool().has_head() <==> pmm.next_alloc() is Some,
        pmm.pool().has_head() ==> pmm.next_alloc() == Some(pmm.pool().head()),
{
}

/// Nothing is lost between the lists: what an allocation leaves on them is
/// what was there, in the same order, without the frame that it took.
pub proof fn law_allocation_keeps_the_rest(pmm: Pmm)
    requires
        pmm.pool().has_head(),
    ensures
        ({
            let before = pmm.pool();
            let after = pmm.pool().take_head();
            &&& before.local.len() > 0 ==> after.local == before.local.drop_first() && after.global
                == before.global
            &&& before.local.len() == 0 ==> after.local + after.global
                == before.global.drop_first()
            &&& after.frames[before.head() as int].owner_tag() == OwnerTag::Kernel
                || before.head() >= before.frames.len()
        }),
{
    let before = pmm.pool();
    let after = pmm.pool().take_head();
    FrameOwner::law_encoding_round_trip(OwnerTag::Kernel, 0);
    if before.local.len() == 0 {
        assert(after.local + after.global =~= before.global.drop_first());
    }
}

/// Releasing a frame that nothing holds and allocating again gives that frame
/// back, and leaves the lists as they were.
pub proof fn law_released_frame_comes_back(pool: pmm::Pool, f: FrameIndex)
    requires
        f < pool.frames.len(),
        pool.frames[f as int].pinned() == 0,
        pool.frames[f as int].mappings() == 0,
    ensures
        pool.release(f).has_head(),
        pool.release(f).head() == f,
        pool.release(f).take_head().local == pool.local,
        pool.release(f).take_head().global == pool.global,
        pool.release(f).frames[f as int].owner_tag() == OwnerTag::Free,
        pool.release(f).frames[f as int].gen() as int == (pool.frames[f as int].gen() + 1)
            % 0x1_0000_0000,
{
    FrameOwner::law_encoding_round_trip(OwnerTag::Free, 0);
    assert(pool.release(f).take_head().local =~= pool.local);
}

/// Releasing a frame that is pinned or mapped puts it on no list.
pub proof fn law_held_frame_stays_off_the_lists(pool: pmm::Pool, f: FrameIndex)
    requires
        f < pool.frames.len(),
        pool.frames[f as int].pinned() > 0 || pool.frames[f as int].mappings() > 0,
    ensures
        pool.release(f).local == pool.local,
        pool.release(f).global == pool.global,
        pool.release(f).frames[f as int].owner_tag() == OwnerTag::Pending,
{
    FrameOwner::law_encoding_round_trip(OwnerTag::Pending, 0);
}

/// The link in a free frame is its first four bytes: writing it changes no
/// other, and no word but the first of that frame.
pub proof fn law_link_is_in_its_frame(ram: Seq<u64>, frame: FrameIndex, next: u32, i: int)
    requires
        frame * 512 < ram.len(),
    ensures
        pmm::next_of(set_next(ram, frame, next), frame) == next,
        set_next(ram, frame, next).len() == ram.len(),
        0 <= i < ram.len() && i != frame * 512 ==> set_next(ram, frame, next)[i] == ram[i],
        set_next(ram, frame, next)[frame * 512] / 0x1_0000_0000 == ram[frame * 512]
            / 0x1_0000_0000,
        set_next(ram, frame, next)[frame * 512] % 0x1_0000_0000 == next,
{
}

} // verus!
