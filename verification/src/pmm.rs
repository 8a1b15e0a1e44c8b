//! The state of the physical memory manager and its invariant.

use crate::allocator::{self, Allocator, Shard};
use crate::arch::{PhysMap, FRAME_WORDS, SHARD_COUNT};
use crate::frame::{FrameIndex, FrameInfo, FrameOwner, OwnerTag};
use crate::memory::Memory;
use crate::ram::Ram;
use vstd::prelude::*;

verus! {

/// The frame table: one [`FrameInfo`] per frame, indexed by frame number.
/// Established once at boot, in RAM.
pub struct FrameTable {
    /// Physmap virtual address of the table; 0 means uninitialized.
    pub(crate) base: u64,
}

/// The physical memory manager: RAM with the frame table in it, and the free
/// lists.
pub struct Pmm {
    pub(crate) physmap: PhysMap,
    pub(crate) ram: Ram,
    pub(crate) table: FrameTable,
    pub(crate) lists: Allocator,
}

/// End-of-list marker.
pub const LIST_END: u32 = 0xffff_ffff;

/// Number of the global free list; the per-CPU lists are numbered from 0.
pub open spec fn global_list() -> int {
    SHARD_COUNT as int
}

/// The `i`th member of `list`, or the end marker past its end.
pub open spec fn chain_at(list: Seq<FrameIndex>, i: int) -> u32 {
    if 0 <= i < list.len() {
        list[i]
    } else {
        LIST_END
    }
}

/// The link stored in the first four bytes of frame `frame`.
pub open spec fn next_of(ram: Seq<u64>, frame: FrameIndex) -> u32 {
    (ram[frame as int * FRAME_WORDS as int] % 0x1_0000_0000) as u32
}

/// True if `shard` is the list that starts at its head and runs through the
/// links stored in RAM.
pub open(crate) spec fn links(shard: Shard, ram: Seq<u64>) -> bool {
    &&& shard.count == shard.list@.len()
    &&& shard.head == chain_at(shard.list@, 0)
    &&& shard.list@.no_duplicates()
    &&& forall|i: int|
        0 <= i < shard.list@.len() ==> #[trigger] next_of(ram, shard.list@[i]) == chain_at(
            shard.list@,
            i + 1,
        )
}

/// What allocation and release work on: the frame table, the free list of the
/// CPU that is executing, and the global one.
#[verifier::ext_equal]
pub struct Pool {
    pub frames: Seq<FrameInfo>,
    pub local: Seq<FrameIndex>,
    pub global: Seq<FrameIndex>,
}

impl Pool {
    /// An empty local list gets a batch from the global one.
    pub open spec fn refilled(self) -> Pool {
        if self.local.len() > 0 {
            self
        } else {
            let n = allocator::batch_of(self.global.len());
            Pool { frames: self.frames, local: self.global.take(n), global: self.global.skip(n) }
        }
    }

    /// The frame that the next allocation returns, if any is free.
    pub open spec fn head(self) -> FrameIndex {
        self.refilled().local[0]
    }

    /// True if an allocation finds a frame.
    pub open spec fn has_head(self) -> bool {
        self.refilled().local.len() > 0
    }

    /// After the next allocation.
    pub open spec fn take_head(self) -> Pool {
        Pool {
            frames: self.frames.update(
                self.head() as int,
                self.frames[self.head() as int].with_owner(FrameOwner::of(OwnerTag::Kernel, 0)),
            ),
            local: self.refilled().local.drop_first(),
            global: self.refilled().global,
        }
    }

    /// After the next `n` allocations.
    pub open spec fn take_heads(self, n: nat) -> Pool
        decreases n,
    {
        if n == 0 {
            self
        } else {
            self.take_heads((n - 1) as nat).take_head()
        }
    }

    /// After frame `f` has been released.
    pub open spec fn release(self, f: FrameIndex) -> Pool {
        let info = allocator::released(self.frames[f as int]);
        Pool {
            frames: self.frames.update(f as int, info),
            local: if info.is_free() {
                seq![f] + self.local
            } else {
                self.local
            },
            global: self.global,
        }
    }

    /// With the metadata of frame `f` set to `info`.
    pub open spec fn with_info(self, f: FrameIndex, info: FrameInfo) -> Pool {
        Pool { frames: self.frames.update(f as int, info), ..self }
    }

    pub proof fn lemma_take_one(self)
        ensures
            self.take_heads(1) == self.take_head(),
    {
        reveal_with_fuel(Pool::take_heads, 2);
    }

    /// Which frames allocations take depends on the lists alone.
    pub proof fn lemma_same_lists(self, other: Pool, n: nat)
        requires
            self.local == other.local,
            self.global == other.global,
        ensures
            self.take_heads(n).local == other.take_heads(n).local,
            self.take_heads(n).global == other.take_heads(n).global,
        decreases n,
    {
        if n > 0 {
            self.lemma_same_lists(other, (n - 1) as nat);
        }
    }

    /// Allocations in a row add up.
    pub proof fn lemma_take_heads_add(self, m: nat, n: nat)
        ensures
            self.take_heads(m).take_heads(n) == self.take_heads(m + n),
        decreases n,
    {
        if n > 0 {
            self.lemma_take_heads_add(m, (n - 1) as nat);
        }
    }
}

/// True if word `i` of RAM lies in frame `f`.
pub open spec fn in_frame(i: int, f: int) -> bool {
    f * FRAME_WORDS <= i < (f + 1) * FRAME_WORDS
}

impl Pmm {
    /// The frame table.
    pub open(crate) spec fn frames(self) -> Seq<FrameInfo> {
        self.ram.frames()
    }

    /// The words of RAM, with zeroes in place of the frame table.
    pub open(crate) spec fn ram_words(self) -> Seq<u64> {
        self.ram.words()
    }

    /// Word `i` of RAM, the frame table included.
    pub open(crate) spec fn shown(self, i: int) -> u64 {
        self.ram.shown(i)
    }

    /// The words of RAM that the frame table takes up: from the first number on,
    /// up to the second.
    pub open(crate) spec fn table_words(self) -> (int, int) {
        self.ram.span()
    }

    /// The physmap base; 0 until it is set.
    pub open(crate) spec fn physmap_at(self) -> u64 {
        self.physmap@
    }

    /// Virtual address of the frame table; 0 until it is initialized.
    pub open(crate) spec fn table_at(self) -> u64 {
        self.table.base
    }

    pub open(crate) spec fn shard_at(self, k: int) -> Shard {
        if k < SHARD_COUNT {
            self.lists.shards@[k]
        } else {
            self.lists.global
        }
    }

    /// Free list number `k`, head first.
    pub open(crate) spec fn list(self, k: int) -> Seq<FrameIndex> {
        self.shard_at(k).list@
    }

    /// True if frame `f` exists and is free.
    pub open spec fn free(self, f: int) -> bool {
        0 <= f < self.frames().len() && self.frames()[f].is_free()
    }

    /// The frame table covers RAM and holds valid owners, and the frames that it
    /// lies in are reserved.
    pub open(crate) spec fn table_wf(self) -> bool {
        &&& self.frames().len() <= u32::MAX
        &&& self.frames().len() * FRAME_WORDS <= self.ram_words().len()
        &&& self.table.base == 0 ==> self.frames().len() == 0
        &&& forall|f: int|
            0 <= f < self.frames().len() ==> (#[trigger] self.frames()[f]).owner().valid()
        &&& forall|i: int, f: int|
            0 <= f < self.frames().len() && #[trigger] in_frame(i, f) && self.ram.in_table(i)
                ==> self.frames()[f].owner_tag() == OwnerTag::Reserved
    }

    /// Every list is linked through the frames on it.
    pub open(crate) spec fn links_wf(self) -> bool {
        forall|k: int|
            0 <= k <= SHARD_COUNT ==> links(#[trigger] self.shard_at(k), self.ram_words())
    }

    /// The number of the list that the free frame `f` is on.
    pub open(crate) spec fn home(self, f: FrameIndex) -> int {
        self.lists.home@[f]
    }

    /// Every listed frame is free, and on one list only.
    pub open spec fn members_wf(self) -> bool {
        forall|k: int, i: int|
            0 <= k <= SHARD_COUNT && 0 <= i < self.list(k).len() ==> self.free(
                (#[trigger] self.list(k)[i]) as int,
            ) && self.home(self.list(k)[i]) == k
    }

    /// Every free frame is listed.
    pub open spec fn covering_wf(self) -> bool {
        forall|f: FrameIndex| #[trigger]
            self.free(f as int) ==> 0 <= self.home(f) <= SHARD_COUNT && self.list(
                self.home(f),
            ).contains(f)
    }

    /// A frame is on a free list, and on one only, iff its owner is `Free`.
    pub open(crate) spec fn lists_wf(self) -> bool {
        &&& self.table_wf()
        &&& self.links_wf()
        &&& self.members_wf()
        &&& self.covering_wf()
    }

    /// The invariant of the physical memory manager. Every CPU is routed
    /// through shard 0, so the other shards stay empty.
    #[verifier::opaque]
    pub open(crate) spec fn wf(self) -> bool {
        &&& self.lists_wf()
        &&& forall|k: int| 0 < k < SHARD_COUNT ==> (#[trigger] self.list(k)).len() == 0
    }

    /// The frame table fits its index type and covers RAM.
    pub proof fn lemma_wf(self)
        requires
            self.wf(),
        ensures
            self.frames().len() <= u32::MAX,
            self.frames().len() * FRAME_WORDS <= self.ram_words().len(),
    {
        reveal(Pmm::wf);
    }

    /// What allocation and release work on.
    pub open spec fn pool(self) -> Pool {
        Pool {
            frames: self.frames(),
            local: self.local_list(),
            global: self.list(global_list()),
        }
    }

    /// The free list of the CPU that is executing.
    pub open spec fn local_list(self) -> Seq<FrameIndex> {
        self.list(0)
    }

    /// The local list as the next allocation finds it: an empty one is
    /// refilled from the global list first.
    pub open spec fn local_after_refill(self) -> Seq<FrameIndex> {
        if self.local_list().len() > 0 {
            self.local_list()
        } else {
            self.list(global_list()).take(allocator::batch_of(self.list(global_list()).len()))
        }
    }

    /// The global list as the next allocation leaves it.
    pub open spec fn global_after_refill(self) -> Seq<FrameIndex> {
        if self.local_list().len() > 0 {
            self.list(global_list())
        } else {
            self.list(global_list()).skip(allocator::batch_of(self.list(global_list()).len()))
        }
    }

    /// The frame that the next allocation returns.
    pub open spec fn next_alloc(self) -> Option<FrameIndex> {
        if self.local_after_refill().len() > 0 {
            Some(self.local_after_refill()[0])
        } else {
            None
        }
    }

    /// The set of free frames.
    pub open spec fn free_set(self) -> Set<int> {
        vstd::set_lib::set_int_range(0, self.frames().len() as int).filter(|f: int| self.free(f))
    }

    /// Number of free frames.
    pub open spec fn free_count(self) -> nat {
        self.free_set().len()
    }

    /// Free list `k` as a set.
    pub open(crate) spec fn list_set(self, k: int) -> Set<int> {
        self.list(k).map_values(|f: FrameIndex| f as int).to_set()
    }

    proof fn lemma_list_set(self, k: int)
        requires
            self.wf(),
            0 <= k <= SHARD_COUNT,
        ensures
            self.list_set(k).finite(),
            self.list_set(k).len() == self.list(k).len(),
            forall|f: int| #[trigger]
                self.list_set(k).contains(f) <==> self.free(f) && self.home(f as FrameIndex) == k,
    {
        reveal(Pmm::wf);
        let ints = self.list(k).map_values(|f: FrameIndex| f as int);
        assert(links(self.shard_at(k), self.ram_words()));
        assert(ints.no_duplicates());
        ints.unique_seq_to_set();
        assert forall|f: int| #[trigger] self.list_set(k).contains(f) implies self.free(f)
            && self.home(f as FrameIndex) == k by {
            let i = choose|i: int| 0 <= i < ints.len() && ints[i] == f;
            assert(self.list(k)[i] as int == f);
        }
        assert forall|f: int|
            self.free(f) && self.home(f as FrameIndex) == k implies #[trigger] self.list_set(
            k,
        ).contains(f) by {
            let frame = f as FrameIndex;
            assert(self.free(frame as int));
            let i = choose|i: int| 0 <= i < self.list(k).len() && self.list(k)[i] == frame;
            assert(ints[i] == f);
        }
    }

    /// The free frames are those on the local and the global list.
    pub proof fn lemma_free_count(self)
        requires
            self.wf(),
        ensures
            self.free_set().finite(),
            self.free_count() == self.local_list().len() + self.list(global_list()).len(),
            self.free_count() <= self.frames().len(),
    {
        reveal(Pmm::wf);
        let g = global_list();
        self.lemma_list_set(0);
        self.lemma_list_set(g);
        vstd::set_lib::lemma_int_range(0, self.frames().len() as int);
        vstd::set_lib::lemma_len_subset(
            self.free_set(),
            vstd::set_lib::set_int_range(0, self.frames().len() as int),
        );
        assert forall|f: int| #[trigger] self.free_set().contains(f) implies self.list_set(
            0,
        ).contains(f) || self.list_set(g).contains(f) by {
            let frame = f as FrameIndex;
            assert(self.free(frame as int));
            let k = self.home(frame);
            assert(self.list(k).len() > 0);
        }
        assert(self.free_set() =~= self.list_set(0) + self.list_set(g));
        assert(self.list_set(0).disjoint(self.list_set(g)));
        vstd::set_lib::lemma_set_disjoint_lens(self.list_set(0), self.list_set(g));
    }

    /// Allocation finds no frame exactly when none is free.
    pub proof fn lemma_no_free_frames(self)
        requires
            self.wf(),
        ensures
            self.next_alloc() is None <==> forall|f: int| !self.free(f),
            self.next_alloc() matches Some(f) ==> self.free(f as int),
    {
        reveal(Pmm::wf);
        if self.next_alloc() is None {
            assert forall|f: int| !self.free(f) by {
                if self.free(f) {
                    let frame = f as FrameIndex;
                    assert(self.free(frame as int));
                    let k = self.home(frame);
                    assert(self.list(k).contains(frame));
                }
            }
        } else if self.local_list().len() > 0 {
            assert(self.free(self.list(0)[0] as int));
        } else {
            assert(self.free(self.list(global_list())[0] as int));
        }
    }

    /// A memory manager over `ram`, before [`crate::boot::pmm_init`]: no
    /// frame table and empty free lists.
    pub fn new(ram: Memory) -> (r: Pmm)
        ensures
            r.wf(),
            r.ram_words() == ram@,
            r.frames().len() == 0,
            r.table_at() == 0,
            r.physmap_at() == 0,
    {
        proof {
            reveal(Pmm::wf);
        }
        Pmm {
            physmap: PhysMap::new(),
            ram: Ram::new(ram),
            table: FrameTable { base: 0 },
            lists: Allocator::new(),
        }
    }

    /// Writing to frames that are not free leaves the lists as they are.
    pub(crate) proof fn lemma_writes_keep_wf(a: Pmm, b: Pmm)
        requires
            a.wf(),
            b.table == a.table,
            b.frames() == a.frames(),
            b.ram.span() == a.ram.span(),
            b.lists == a.lists,
            b.ram_words().len() == a.ram_words().len(),
            forall|f: FrameIndex| #[trigger]
                a.free(f as int) ==> next_of(b.ram_words(), f) == next_of(a.ram_words(), f),
        ensures
            b.wf(),
    {
        reveal(Pmm::wf);
        assert(forall|k: int| #[trigger] b.shard_at(k) == a.shard_at(k));
        assert(forall|f: int| #[trigger] b.free(f) == a.free(f));
        assert forall|k: int| 0 <= k <= SHARD_COUNT implies links(
            #[trigger] b.shard_at(k),
            b.ram_words(),
        ) by {
            assert(links(a.shard_at(k), a.ram_words()));
            let list = a.list(k);
            assert forall|i: int| 0 <= i < list.len() implies #[trigger] next_of(
                b.ram_words(),
                list[i],
            ) == chain_at(list, i + 1) by {
                assert(a.free(a.list(k)[i] as int));
                assert(next_of(a.ram_words(), list[i]) == chain_at(list, i + 1));
            }
        }
        assert forall|k: int, i: int|
            0 <= k <= SHARD_COUNT && 0 <= i < b.list(k).len() implies b.free(
            (#[trigger] b.list(k)[i]) as int,
        ) && b.home(b.list(k)[i]) == k by {
            assert(a.free(a.list(k)[i] as int));
        }
        assert forall|f: FrameIndex| #[trigger] b.free(f as int) implies 0 <= b.home(f)
            <= SHARD_COUNT && b.list(b.home(f)).contains(f) by {
            assert(a.free(f as int));
        }
        assert forall|k: int| 0 < k < SHARD_COUNT implies (#[trigger] b.list(k)).len() == 0 by {
            assert(a.list(k).len() == 0);
        }
    }

    /// A frame that is not reserved holds no part of the frame table.
    pub(crate) proof fn lemma_no_table(self, f: int)
        requires
            self.wf(),
            0 <= f < self.frames().len(),
            self.frames()[f].owner_tag() != OwnerTag::Reserved,
        ensures
            forall|i: int| #[trigger]
                in_frame(i, f) ==> self.shown(i) == self.ram_words()[i] && !self.ram.in_table(i),
    {
        reveal(Pmm::wf);
    }

    /// The word at index `i` of frame `frame`, seen through the physmap.
    pub fn read_word(&self, frame: FrameIndex, i: usize) -> (r: u64)
        requires
            (frame + 1) * FRAME_WORDS <= self.ram_words().len(),
            i < FRAME_WORDS,
        ensures
            r == self.shown(frame as int * FRAME_WORDS + i),
            self.wf() && frame < self.frames().len() && self.frames()[frame as int].owner_tag()
                != OwnerTag::Reserved ==> r == self.ram_words()[frame as int * FRAME_WORDS + i],
    {
        proof {
            self.ram.lemma_len();
            if self.wf() && frame < self.frames().len() && self.frames()[frame as int].owner_tag()
                != OwnerTag::Reserved {
                self.lemma_no_table(frame as int);
                assert(in_frame(frame as int * FRAME_WORDS + i, frame as int));
            }
        }
        self.ram.read(frame as usize * FRAME_WORDS + i)
    }

    /// Replace the word at index `i` of frame `frame`, which is neither free nor
    /// reserved.
    pub fn write_word(&mut self, frame: FrameIndex, i: usize, value: u64)
        requires
            old(self).wf(),
            frame < old(self).frames().len(),
            !old(self).free(frame as int),
            old(self).frames()[frame as int].owner_tag() != OwnerTag::Reserved,
            i < FRAME_WORDS,
        ensures
            final(self).wf(),
            same_but_ram(*old(self), *final(self)),
            final(self).ram_words() == old(self).ram_words().update(
                frame as int * FRAME_WORDS + i,
                value,
            ),
    {
        proof {
            reveal(Pmm::wf);
            self.ram.lemma_len();
            self.lemma_no_table(frame as int);
            assert(in_frame(frame as int * FRAME_WORDS + i, frame as int));
        }
        self.ram.write(frame as usize * FRAME_WORDS + i, value);
        proof {
            Pmm::lemma_writes_keep_wf(*old(self), *self);
        }
    }

    /// Zero frame `frame`, which is neither free nor reserved.
    pub fn zero_frame(&mut self, frame: FrameIndex)
        requires
            old(self).wf(),
            frame < old(self).frames().len(),
            !old(self).free(frame as int),
            old(self).frames()[frame as int].owner_tag() != OwnerTag::Reserved,
        ensures
            final(self).wf(),
            same_but_ram(*old(self), *final(self)),
            final(self).ram_words().len() == old(self).ram_words().len(),
            forall|i: int|
                0 <= i < final(self).ram_words().len() ==> #[trigger] final(self).ram_words()[i]
                    == (if in_frame(i, frame as int) {
                    0
                } else {
                    old(self).ram_words()[i]
                }),
    {
        proof {
            reveal(Pmm::wf);
            self.ram.lemma_len();
            self.lemma_no_table(frame as int);
            assert forall|i: int|
                frame as int * FRAME_WORDS <= i < frame as int * FRAME_WORDS
                    + FRAME_WORDS implies !self.ram.in_table(i) by {
                assert(in_frame(i, frame as int));
            }
        }
        self.ram.zero(frame as usize * FRAME_WORDS, FRAME_WORDS);
        proof {
            Pmm::lemma_writes_keep_wf(*old(self), *self);
        }
    }

    /// The byte at offset `off` of frame `frame`, seen through the physmap.
    pub fn read_byte(&self, frame: FrameIndex, off: usize) -> (r: u8)
        requires
            (frame + 1) * FRAME_WORDS <= self.ram_words().len(),
            off < 4096,
        ensures
            r == byte_of(
                self.shown(frame as int * FRAME_WORDS + off as int / 8),
                off as int % 8,
            ),
            self.wf() && frame < self.frames().len() && self.frames()[frame as int].owner_tag()
                != OwnerTag::Reserved ==> r == byte_at(self.ram_words(), frame, off as int),
    {
        let word = self.read_word(frame, off / 8);
        let shift: u64 = (off % 8) as u64 * 8;
        ((word >> shift) & 0xff) as u8
    }

    /// Replace the byte at offset `off` of frame `frame`, which is neither free
    /// nor reserved.
    pub fn write_byte(&mut self, frame: FrameIndex, off: usize, value: u8)
        requires
            old(self).wf(),
            frame < old(self).frames().len(),
            !old(self).free(frame as int),
            old(self).frames()[frame as int].owner_tag() != OwnerTag::Reserved,
            off < 4096,
        ensures
            final(self).wf(),
            same_but_ram(*old(self), *final(self)),
            final(self).ram_words().len() == old(self).ram_words().len(),
            forall|w: int|
                0 <= w < old(self).ram_words().len() && w / FRAME_WORDS as int != frame
                    ==> #[trigger] final(self).ram_words()[w] == old(self).ram_words()[w],
            forall|o: int|
                0 <= o < 4096 ==> #[trigger] byte_at(final(self).ram_words(), frame, o) == (if o
                    == off {
                    value
                } else {
                    byte_at(old(self).ram_words(), frame, o)
                }),
    {
        proof {
            self.lemma_wf();
        }
        let i = off / 8;
        let k: u64 = (off % 8) as u64;
        let word = self.read_word(frame, i);
        let shift: u64 = k * 8;
        let new = (word & !(0xffu64 << shift)) | ((value as u64) << shift);
        self.write_word(frame, i, new);
        proof {
            let ram0 = old(self).ram_words();
            assert forall|o: int| 0 <= o < 4096 implies #[trigger] byte_at(
                self.ram_words(),
                frame,
                o,
            ) == (if o == off {
                value
            } else {
                byte_at(ram0, frame, o)
            }) by {
                lemma_set_byte(word, value as u64, k, (o % 8) as u64);
                if o / 8 != i {
                    assert(self.ram_words()[frame as int * FRAME_WORDS + o / 8] == ram0[frame as int
                        * FRAME_WORDS + o / 8]);
                }
            }
        }
    }
}

/// Byte `k` of a word, the least significant first.
pub open spec fn byte_of(word: u64, k: int) -> u8 {
    ((word >> (k as u64 * 8) as u64) & 0xff) as u8
}

/// The byte at offset `off` of frame `f`.
pub open spec fn byte_at(ram: Seq<u64>, f: FrameIndex, off: int) -> u8 {
    byte_of(ram[f as int * FRAME_WORDS + off / 8], off % 8)
}

proof fn lemma_set_byte(word: u64, value: u64, k: u64, j: u64)
    by (bit_vector)
    requires
        value <= 0xff,
        k < 8,
        j < 8,
    ensures
        ({
            let ks = (k * 8) as u64;
            let js = (j * 8) as u64;
            let new = (word & !(0xffu64 << ks)) | (value << ks);
            (((new >> js) & 0xff) as u8) == (if j == k {
                value as u8
            } else {
                ((word >> js) & 0xff) as u8
            })
        }),
{
}

/// Everything but the contents of RAM is the same in `a` and `b`.
pub open spec fn same_but_ram(a: Pmm, b: Pmm) -> bool {
    &&& b.frames() == a.frames()
    &&& b.physmap_at() == a.physmap_at()
    &&& b.table_at() == a.table_at()
    &&& forall|k: int| #[trigger] b.list(k) == a.list(k)
}

/// A word is its eight bytes, the first counting least.
pub proof fn law_word_is_its_bytes(word: u64)
    ensures
        byte_of(word, 0) == word % 0x100,
        byte_of(word, 1) == (word / 0x100) % 0x100,
        byte_of(word, 2) == (word / 0x1_0000) % 0x100,
        byte_of(word, 3) == (word / 0x100_0000) % 0x100,
        byte_of(word, 4) == (word / 0x1_0000_0000) % 0x100,
        byte_of(word, 5) == (word / 0x100_0000_0000) % 0x100,
        byte_of(word, 6) == (word / 0x1_0000_0000_0000) % 0x100,
        byte_of(word, 7) == word / 0x100_0000_0000_0000,
{
    lemma_bytes(word);
}

proof fn lemma_bytes(word: u64)
    by (bit_vector)
    ensures
        (word >> 0u64) & 0xff == word % 0x100,
        (word >> 8u64) & 0xff == (word / 0x100) % 0x100,
        (word >> 16u64) & 0xff == (word / 0x1_0000) % 0x100,
        (word >> 24u64) & 0xff == (word / 0x100_0000) % 0x100,
        (word >> 32u64) & 0xff == (word / 0x1_0000_0000) % 0x100,
        (word >> 40u64) & 0xff == (word / 0x100_0000_0000) % 0x100,
        (word >> 48u64) & 0xff == (word / 0x1_0000_0000_0000) % 0x100,
        (word >> 56u64) & 0xff == word / 0x100_0000_0000_0000,
{
}

/// A frame is 4096 bytes of RAM, eight to a word.
pub proof fn law_frame_is_512_words(ram: Seq<u64>, f: FrameIndex, off: int)
    requires
        0 <= off < 4096,
    ensures
        byte_at(ram, f, off) == byte_of(ram[(f * 4096 + off) / 8], (f * 4096 + off) % 8),
{
}

/// A list ends with a marker that is no frame. The global list comes behind
/// those of 64 shards.
pub proof fn law_list_ends_with_a_marker(list: Seq<FrameIndex>, i: int)
    ensures
        chain_at(list, list.len() as int) == u32::MAX,
        global_list() == 64,
        0 <= i < list.len() ==> chain_at(list, i) == list[i],
{
}

} // verus!
