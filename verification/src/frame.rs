//! Per-frame metadata: who owns a frame, and what still refers to it.

use crate::allocator::{self, drain_if_ready};
use crate::arch::{FRAME_WORDS, SHARD_COUNT};
use crate::pmm::{self, Pmm};
use crate::ram::INFO_WORDS;
use vstd::prelude::*;

verus! {

/// Index of a physical frame. `u32` bounds the addressable space at
/// 4 KiB * 2^32 = 16 TiB of RAM.
pub type FrameIndex = u32;

/// Identifier of a protection domain (a process).
pub type DomainId = u32;

/// Identifier of an untyped memory region.
pub type UntypedId = u32;

/// Tag identifying the class of owner of a frame.
///
/// `Reserved` is encoded as 0, so that zeroed metadata is the safe default.
#[derive(Clone, Copy, PartialEq, Eq, Debug, Structural)]
pub enum OwnerTag {
    /// Physically reserved: kernel image, frame table, MMIO, memory holes.
    Reserved,
    /// On some free list; available for allocation.
    Free,
    /// Held by kernel-internal code.
    Kernel,
    /// Ownerless and draining: pins and mappings must reach zero before the
    /// frame returns to a free list.
    Pending,
    /// Covered by an untyped region; not yet retyped into a typed object.
    Untyped,
    /// Owned by a protection domain.
    Domain,
}

/// The low byte of the encoding of an owner with tag `tag`.
pub open spec fn tag_code(tag: OwnerTag) -> int {
    match tag {
        OwnerTag::Reserved => 0,
        OwnerTag::Free => 1,
        OwnerTag::Kernel => 2,
        OwnerTag::Pending => 3,
        OwnerTag::Untyped => 4,
        OwnerTag::Domain => 5,
    }
}

/// True if owners with tag `tag` name a region or a domain.
pub open spec fn tag_has_id(tag: OwnerTag) -> bool {
    tag == OwnerTag::Untyped || tag == OwnerTag::Domain
}

/// The owner of a frame, encoded as a tagged `u64`: the tag in the low byte,
/// the region or domain id in the upper 32 bits.
#[derive(Clone, Copy, PartialEq, Eq, Debug, Structural)]
pub struct FrameOwner {
    pub(crate) raw: u64,
}

impl FrameOwner {
    /// The encoding of `tag` and `id`.
    pub open spec fn encoding(tag: OwnerTag, id: u32) -> int {
        tag_code(tag) + id * 0x1_0000_0000
    }

    /// The owner with tag `tag` and id `id`.
    pub open(crate) spec fn of(tag: OwnerTag, id: u32) -> FrameOwner {
        FrameOwner { raw: FrameOwner::encoding(tag, id) as u64 }
    }

    pub open(crate) spec fn raw_spec(self) -> u64 {
        self.raw
    }

    pub open(crate) spec fn tag_spec(self) -> OwnerTag {
        let code = self.raw % 256;
        if code == 0 {
            OwnerTag::Reserved
        } else if code == 1 {
            OwnerTag::Free
        } else if code == 2 {
            OwnerTag::Kernel
        } else if code == 3 {
            OwnerTag::Pending
        } else if code == 4 {
            OwnerTag::Untyped
        } else {
            OwnerTag::Domain
        }
    }

    pub open(crate) spec fn id_spec(self) -> u32 {
        (self.raw / 0x1_0000_0000) as u32
    }

    /// True of every owner that can be built: it is the encoding of its tag
    /// and id, and only untyped and domain owners carry an id.
    #[verifier::type_invariant]
    pub open(crate) spec fn valid(self) -> bool {
        &&& self.raw == FrameOwner::encoding(self.tag_spec(), self.id_spec())
        &&& tag_has_id(self.tag_spec()) || self.id_spec() == 0
    }

    /// The encoding loses nothing: tag and id of an owner are those it was
    /// built from, and owners with equal tag and id are equal.
    pub proof fn law_encoding_round_trip(tag: OwnerTag, id: u32)
        requires
            tag_has_id(tag) || id == 0,
        ensures
            FrameOwner::of(tag, id).valid(),
            FrameOwner::of(tag, id).tag() == tag,
            FrameOwner::of(tag, id).id() == id,
            FrameOwner::of(tag, id).raw() == FrameOwner::encoding(tag, id),
    {
    }

    /// A valid owner is determined by its tag and id.
    pub proof fn law_valid_owner_is_determined(owner: FrameOwner)
        requires
            owner.valid(),
        ensures
            owner == FrameOwner::of(owner.tag(), owner.id()),
    {
    }

    /// The owner of a reserved frame.
    pub fn reserved() -> (r: FrameOwner)
        ensures
            r == FrameOwner::of(OwnerTag::Reserved, 0),
            r.raw() == 0,
    {
        FrameOwner { raw: 0 }
    }

    /// The owner of a free frame.
    pub fn free() -> (r: FrameOwner)
        ensures
            r == FrameOwner::of(OwnerTag::Free, 0),
    {
        FrameOwner { raw: 1 }
    }

    /// The owner of a frame held by the kernel.
    pub fn kernel() -> (r: FrameOwner)
        ensures
            r == FrameOwner::of(OwnerTag::Kernel, 0),
    {
        FrameOwner { raw: 2 }
    }

    /// The owner of a draining frame.
    pub fn pending() -> (r: FrameOwner)
        ensures
            r == FrameOwner::of(OwnerTag::Pending, 0),
    {
        FrameOwner { raw: 3 }
    }

    /// The owner of a frame covered by untyped region `id`.
    pub fn untyped(id: UntypedId) -> (r: FrameOwner)
        ensures
            r == FrameOwner::of(OwnerTag::Untyped, id),
    {
        FrameOwner { raw: 4 + id as u64 * 0x1_0000_0000 }
    }

    /// The owner of a frame owned by domain `id`.
    pub fn domain(id: DomainId) -> (r: FrameOwner)
        ensures
            r == FrameOwner::of(OwnerTag::Domain, id),
    {
        FrameOwner { raw: 5 + id as u64 * 0x1_0000_0000 }
    }

    /// Tag of the owner.
    #[verifier::when_used_as_spec(tag_spec)]
    pub fn tag(self) -> (r: OwnerTag)
        ensures
            r == self.tag(),
    {
        let code: u64 = self.raw % 256;
        match code {
            0 => OwnerTag::Reserved,
            1 => OwnerTag::Free,
            2 => OwnerTag::Kernel,
            3 => OwnerTag::Pending,
            4 => OwnerTag::Untyped,
            _ => OwnerTag::Domain,
        }
    }

    /// Region or domain id of the owner; 0 where the tag carries none.
    #[verifier::when_used_as_spec(id_spec)]
    pub fn id(self) -> (r: u32)
        ensures
            r == self.id(),
    {
        (self.raw / 0x1_0000_0000) as u32
    }

    /// The encoded owner.
    #[verifier::when_used_as_spec(raw_spec)]
    pub fn raw(self) -> (r: u64)
        ensures
            r == self.raw(),
    {
        self.raw
    }
}

/// `n + 1`, wrapping around to 0.
pub open spec fn wrapping_inc(n: u32) -> u32 {
    if n == u32::MAX {
        0
    } else {
        (n + 1) as u32
    }
}

/// Per-frame metadata. This is the single source of truth for physical
/// memory ownership; the free lists are a derived view.
#[derive(Clone, Copy)]
pub struct FrameInfo {
    pub(crate) owner: FrameOwner,
    pub(crate) mappings: u32,
    pub(crate) pinned: u32,
    pub(crate) gen: u32,
}

impl FrameInfo {
    pub open(crate) spec fn owner_spec(&self) -> FrameOwner {
        self.owner
    }

    pub open(crate) spec fn mappings_spec(&self) -> u32 {
        self.mappings
    }

    pub open(crate) spec fn pinned_spec(&self) -> u32 {
        self.pinned
    }

    pub open(crate) spec fn gen_spec(&self) -> u32 {
        self.gen
    }

    pub open spec fn owner_tag_spec(&self) -> OwnerTag {
        self.owner().tag()
    }

    pub open spec fn is_free_spec(&self) -> bool {
        self.owner_tag() == OwnerTag::Free
    }

    /// The same metadata with another owner.
    pub open(crate) spec fn with_owner(self, owner: FrameOwner) -> FrameInfo {
        FrameInfo { owner, ..self }
    }

    /// The same metadata with another pin count.
    pub open(crate) spec fn with_pinned(self, pinned: u32) -> FrameInfo {
        FrameInfo { pinned, ..self }
    }

    /// The same metadata with another mapping count.
    pub open(crate) spec fn with_mappings(self, mappings: u32) -> FrameInfo {
        FrameInfo { mappings, ..self }
    }

    /// The same metadata one generation on.
    pub open(crate) spec fn next_gen(self) -> FrameInfo {
        FrameInfo { gen: wrapping_inc(self.gen), ..self }
    }

    /// The metadata of every frame at boot: reserved, with nothing counted.
    pub open(crate) spec fn zeroed_spec() -> FrameInfo {
        FrameInfo {
            owner: FrameOwner::of(OwnerTag::Reserved, 0),
            mappings: 0,
            pinned: 0,
            gen: 0,
        }
    }

    /// Current owner of the frame.
    #[verifier::when_used_as_spec(owner_spec)]
    pub fn owner(&self) -> (r: FrameOwner)
        ensures
            r == self.owner(),
    {
        self.owner
    }

    /// Tag of the current owner.
    #[verifier::when_used_as_spec(owner_tag_spec)]
    pub fn owner_tag(&self) -> (r: OwnerTag)
        ensures
            r == self.owner_tag(),
    {
        self.owner().tag()
    }

    /// True if the frame is on a free list.
    #[verifier::when_used_as_spec(is_free_spec)]
    pub fn is_free(&self) -> (r: bool)
        ensures
            r == self.is_free(),
    {
        self.owner_tag() == OwnerTag::Free
    }

    /// Number of address spaces currently mapping this frame.
    #[verifier::when_used_as_spec(mappings_spec)]
    pub fn mappings(&self) -> (r: u32)
        ensures
            r == self.mappings(),
    {
        self.mappings
    }

    /// Number of in-flight pins (DMA, TLB shootdown, held syscall refs).
    #[verifier::when_used_as_spec(pinned_spec)]
    pub fn pinned(&self) -> (r: u32)
        ensures
            r == self.pinned(),
    {
        self.pinned
    }

    /// Generation counter, bumped on every release.
    #[verifier::when_used_as_spec(gen_spec)]
    pub fn gen(&self) -> (r: u32)
        ensures
            r == self.gen(),
    {
        self.gen
    }

    /// Move the frame to a new owner iff the current owner equals `expected`.
    /// Returns whether the transition happened.
    pub(crate) fn transition(&mut self, expected: FrameOwner, new: FrameOwner) -> (r: bool)
        ensures
            r == (old(self).owner() == expected),
            *final(self) == (if r {
                old(self).with_owner(new)
            } else {
                *old(self)
            }),
    {
        if self.owner == expected {
            self.owner = new;
            true
        } else {
            false
        }
    }

    pub(crate) fn bump_gen(&mut self) -> (r: u32)
        ensures
            *final(self) == old(self).next_gen(),
            r == final(self).gen(),
    {
        self.gen = self.gen.wrapping_add(1);
        self.gen
    }

    pub(crate) fn pin(&mut self) -> (r: u32)
        ensures
            *final(self) == old(self).with_pinned(wrapping_inc(old(self).pinned())),
            r == final(self).pinned(),
    {
        self.pinned = self.pinned.wrapping_add(1);
        self.pinned
    }

    pub(crate) fn unpin(&mut self) -> (r: u32)
        requires
            old(self).pinned() > 0,
        ensures
            *final(self) == old(self).with_pinned((old(self).pinned() - 1) as u32),
            r == final(self).pinned(),
    {
        self.pinned = self.pinned - 1;
        self.pinned
    }

    pub(crate) fn add_mapping(&mut self) -> (r: u32)
        ensures
            *final(self) == old(self).with_mappings(wrapping_inc(old(self).mappings())),
            r == final(self).mappings(),
    {
        self.mappings = self.mappings.wrapping_add(1);
        self.mappings
    }

    pub(crate) fn remove_mapping(&mut self) -> (r: u32)
        requires
            old(self).mappings() > 0,
        ensures
            *final(self) == old(self).with_mappings((old(self).mappings() - 1) as u32),
            r == final(self).mappings(),
    {
        self.mappings = self.mappings - 1;
        self.mappings
    }
}

/// Establish the frame table: `num_frames` zeroed entries, which makes every
/// frame reserved. `base_va` is the physmap address of the `bytes` bytes set
/// aside for it, from physical address `base_phys` on.
pub(crate) fn init_table_zeroed(
    pmm: &mut Pmm,
    base_va: u64,
    base_phys: u64,
    num_frames: usize,
    bytes: u64,
) -> (r: Result<(), &'static str>)
    requires
        old(pmm).table_at() == 0 ==> old(pmm).wf(),
        base_va != 0,
        base_phys % 8 == 0,
        bytes == num_frames * INFO_WORDS * 8,
        base_phys + bytes <= old(pmm).ram_words().len() * 8,
        num_frames <= u32::MAX,
        num_frames * FRAME_WORDS <= old(pmm).ram_words().len(),
    ensures
        final(pmm).physmap == old(pmm).physmap,
        r is Err <==> old(pmm).table_at() != 0,
        r matches Err(e) ==> e@ == "frame table already initialized"@ && *final(pmm) == *old(pmm),
        r is Ok ==> {
            &&& final(pmm).wf()
            &&& final(pmm).table_at() == base_va
            &&& final(pmm).ram.span() == (base_phys as int / 8, base_phys as int / 8 + num_frames
                * INFO_WORDS)
            &&& final(pmm).frames() == Seq::new(num_frames as nat, |i: int| FrameInfo::zeroed_spec())
            &&& final(pmm).lists == old(pmm).lists
            &&& forall|k: int| 0 <= k <= SHARD_COUNT ==> (#[trigger] final(pmm).list(k)).len() == 0
            &&& final(pmm).ram_words().len() == old(pmm).ram_words().len()
            &&& forall|w: int|
                0 <= w < old(pmm).ram_words().len() ==> #[trigger] final(pmm).ram_words()[w] == (if base_phys
                    <= w * 8 < base_phys + bytes {
                    0
                } else {
                    old(pmm).ram_words()[w]
                })
        },
{
    if pmm.table.base != 0 {
        return Err("frame table already initialized");
    }
    proof {
        pmm.ram.lemma_len();
    }
    proof {
        reveal(Pmm::wf);
    }
    pmm.table.base = base_va;
    pmm.ram.place_table((base_phys / 8) as usize, num_frames);
    proof {
        let a = *old(pmm);
        let b = *pmm;
        assert(a.frames().len() == 0);
        assert(forall|k: int| #[trigger] b.shard_at(k) == a.shard_at(k));
        assert forall|k: int| 0 <= k <= SHARD_COUNT implies (#[trigger] b.list(k)).len() == 0 by {
            if a.list(k).len() > 0 {
                assert(a.free(a.list(k)[0] as int));
            }
        }
        assert forall|k: int| 0 <= k <= SHARD_COUNT implies pmm::links(
            #[trigger] b.shard_at(k),
            b.ram_words(),
        ) by {
            assert(pmm::links(a.shard_at(k), a.ram_words()));
            assert(b.list(k).len() == 0);
        }
        FrameOwner::law_encoding_round_trip(OwnerTag::Reserved, 0);
        assert(forall|f: int| !#[trigger] b.free(f));
        assert(b.wf());
    }
    Ok(())
}

/// Number of frames tracked by the frame table.
pub fn total_frames(pmm: &Pmm) -> (r: usize)
    ensures
        r == pmm.frames().len(),
{
    pmm.ram.count()
}

/// Look up the metadata for a frame.
pub fn frame_info(pmm: &Pmm, idx: FrameIndex) -> (r: FrameInfo)
    requires
        idx < pmm.frames().len(),
    ensures
        r == pmm.frames()[idx as int],
{
    pmm.ram.info(idx)
}

/// Owner transition where the expected owner is known.
pub(crate) fn set_owner(pmm: &mut Pmm, frame: FrameIndex, expected: FrameOwner, new: FrameOwner)
    requires
        frame < old(pmm).frames().len(),
        old(pmm).frames()[frame as int].owner() == expected,
    ensures
        final(pmm).ram.same_words(old(pmm).ram),
        final(pmm).lists == old(pmm).lists,
        final(pmm).physmap == old(pmm).physmap,
        final(pmm).table.base == old(pmm).table.base,
        final(pmm).frames() == old(pmm).frames().update(
            frame as int,
            old(pmm).frames()[frame as int].with_owner(new),
        ),
        new.valid(),
{
    proof {
        use_type_invariant(&new);
    }
    let mut info = pmm.ram.info(frame);
    let _ = info.transition(expected, new);
    pmm.ram.set_info(frame, info);
}

/// Owner transition; returns whether it happened.
pub(crate) fn try_set_owner(
    pmm: &mut Pmm,
    frame: FrameIndex,
    expected: FrameOwner,
    new: FrameOwner,
) -> (r: bool)
    requires
        frame < old(pmm).frames().len(),
    ensures
        r == (old(pmm).frames()[frame as int].owner() == expected),
        final(pmm).ram.same_words(old(pmm).ram),
        final(pmm).lists == old(pmm).lists,
        final(pmm).physmap == old(pmm).physmap,
        final(pmm).table.base == old(pmm).table.base,
        final(pmm).frames() == (if r {
            old(pmm).frames().update(
                frame as int,
                old(pmm).frames()[frame as int].with_owner(new),
            )
        } else {
            old(pmm).frames()
        }),
        new.valid(),
{
    proof {
        use_type_invariant(&new);
    }
    let mut info = pmm.ram.info(frame);
    let r = info.transition(expected, new);
    if r {
        pmm.ram.set_info(frame, info);
    }
    r
}

/// What is left of a frame's metadata once a release that waited for it has
/// gone through: a drained frame is free, any other is as it was.
pub open spec fn settled(info: FrameInfo) -> FrameInfo {
    if allocator::drained(info) {
        allocator::released(info)
    } else {
        info
    }
}

/// Everything but the metadata of single frames is the same in `a` and `b`.
pub open spec fn same_lists_and_ram(a: Pmm, b: Pmm) -> bool {
    &&& b.ram_words() == a.ram_words()
    &&& b.physmap_at() == a.physmap_at()
    &&& b.table_at() == a.table_at()
    &&& forall|k: int| #[trigger] b.list(k) == a.list(k)
}

/// `b` is `a` with the metadata of `frame` set to `info`, released if that
/// leaves it drained.
pub open spec fn counted(a: Pmm, b: Pmm, frame: FrameIndex, info: FrameInfo) -> bool {
    &&& b.frames() == a.frames().update(frame as int, settled(info))
    &&& b.physmap_at() == a.physmap_at()
    &&& b.table_at() == a.table_at()
    &&& b.list(pmm::global_list()) == a.list(pmm::global_list())
    &&& b.local_list() == (if allocator::drained(info) {
        seq![frame] + a.local_list()
    } else {
        a.local_list()
    })
    &&& b.ram_words() == (if allocator::drained(info) {
        allocator::set_next(a.ram_words(), frame, pmm::chain_at(a.local_list(), 0))
    } else {
        a.ram_words()
    })
}

/// Changing the metadata of a frame, but not whether it is free, leaves the
/// lists as they are.
pub(crate) proof fn lemma_counts_keep_wf(a: Pmm, b: Pmm, frame: FrameIndex, info: FrameInfo)
    requires
        a.wf(),
        frame < a.frames().len(),
        info.owner().valid(),
        info.is_free() == a.frames()[frame as int].is_free(),
        a.frames()[frame as int].owner_tag() == OwnerTag::Reserved ==> info.owner_tag()
            == OwnerTag::Reserved,
        b.frames() == a.frames().update(frame as int, info),
        b.lists == a.lists,
        b.ram.same_words(a.ram),
        b.table.base == a.table.base,
    ensures
        b.wf(),
{
    reveal(Pmm::wf);
    assert(forall|k: int| #[trigger] b.shard_at(k) == a.shard_at(k));
    assert(forall|f: int| #[trigger] b.free(f) == a.free(f));
    assert forall|k: int| 0 <= k <= SHARD_COUNT implies pmm::links(
        #[trigger] b.shard_at(k),
        b.ram_words(),
    ) by {
        assert(pmm::links(a.shard_at(k), a.ram_words()));
    }
    assert forall|k: int, i: int| 0 <= k <= SHARD_COUNT && 0 <= i < b.list(k).len() implies b.free(
        (#[trigger] b.list(k)[i]) as int,
    ) && b.home(b.list(k)[i]) == k by {
        assert(a.free(a.list(k)[i] as int));
    }
    assert forall|f: FrameIndex| #[trigger] b.free(f as int) implies 0 <= b.home(f) <= SHARD_COUNT
        && b.list(b.home(f)).contains(f) by {
        assert(a.free(f as int));
    }
    assert forall|k: int| 0 < k < SHARD_COUNT implies (#[trigger] b.list(k)).len() == 0 by {
        assert(a.list(k).len() == 0);
    }
}

/// Increment the in-flight pin count. Returns the new count.
pub fn pin_frame(pmm: &mut Pmm, frame: FrameIndex) -> (r: u32)
    requires
        old(pmm).wf(),
        frame < old(pmm).frames().len(),
    ensures
        final(pmm).wf(),
        r == wrapping_inc(old(pmm).frames()[frame as int].pinned()),
        final(pmm).frames() == old(pmm).frames().update(
            frame as int,
            old(pmm).frames()[frame as int].with_pinned(r),
        ),
        same_lists_and_ram(*old(pmm), *final(pmm)),
{
    proof {
        reveal(Pmm::wf);
    }
    let mut info = pmm.ram.info(frame);
    let r = info.pin();
    pmm.ram.set_info(frame, info);
    proof {
        lemma_counts_keep_wf(*old(pmm), *pmm, frame, pmm.frames()[frame as int]);
    }
    r
}

/// Decrement the in-flight pin count; if the frame is draining and no pins or
/// mappings remain, release it. Returns the new pin count.
pub fn unpin_frame(pmm: &mut Pmm, frame: FrameIndex) -> (r: u32)
    requires
        old(pmm).wf(),
        frame < old(pmm).frames().len(),
        old(pmm).frames()[frame as int].pinned() > 0,
    ensures
        final(pmm).wf(),
        r == old(pmm).frames()[frame as int].pinned() - 1,
        counted(
            *old(pmm),
            *final(pmm),
            frame,
            old(pmm).frames()[frame as int].with_pinned(r),
        ),
{
    proof {
        reveal(Pmm::wf);
    }
    let mut entry = pmm.ram.info(frame);
    let n = entry.unpin();
    pmm.ram.set_info(frame, entry);
    let ghost info = pmm.frames()[frame as int];
    proof {
        lemma_counts_keep_wf(*old(pmm), *pmm, frame, info);
    }
    drain_if_ready(pmm, frame);
    assert(pmm.frames() =~= old(pmm).frames().update(frame as int, settled(info)));
    n
}

/// Record a new mapping of this frame. Returns the new mapping count.
pub fn add_mapping(pmm: &mut Pmm, frame: FrameIndex) -> (r: u32)
    requires
        old(pmm).wf(),
        frame < old(pmm).frames().len(),
    ensures
        final(pmm).wf(),
        r == wrapping_inc(old(pmm).frames()[frame as int].mappings()),
        final(pmm).frames() == old(pmm).frames().update(
            frame as int,
            old(pmm).frames()[frame as int].with_mappings(r),
        ),
        same_lists_and_ram(*old(pmm), *final(pmm)),
{
    proof {
        reveal(Pmm::wf);
    }
    let mut info = pmm.ram.info(frame);
    let r = info.add_mapping();
    pmm.ram.set_info(frame, info);
    proof {
        lemma_counts_keep_wf(*old(pmm), *pmm, frame, pmm.frames()[frame as int]);
    }
    r
}

/// Remove a mapping of this frame; if the frame is draining and no pins or
/// mappings remain, release it. Returns the new mapping count.
pub fn remove_mapping(pmm: &mut Pmm, frame: FrameIndex) -> (r: u32)
    requires
        old(pmm).wf(),
        frame < old(pmm).frames().len(),
        old(pmm).frames()[frame as int].mappings() > 0,
    ensures
        final(pmm).wf(),
        r == old(pmm).frames()[frame as int].mappings() - 1,
        counted(
            *old(pmm),
            *final(pmm),
            frame,
            old(pmm).frames()[frame as int].with_mappings(r),
        ),
{
    proof {
        reveal(Pmm::wf);
    }
    let mut entry = pmm.ram.info(frame);
    let n = entry.remove_mapping();
    pmm.ram.set_info(frame, entry);
    let ghost info = pmm.frames()[frame as int];
    proof {
        lemma_counts_keep_wf(*old(pmm), *pmm, frame, info);
    }
    drain_if_ready(pmm, frame);
    assert(pmm.frames() =~= old(pmm).frames().update(frame as int, settled(info)));
    n
}

/// Current generation of a frame.
pub fn frame_gen(pmm: &Pmm, frame: FrameIndex) -> (r: u32)
    requires
        frame < pmm.frames().len(),
    ensures
        r == pmm.frames()[frame as int].gen(),
{
    frame_info(pmm, frame).gen()
}

/// A frame that waits for release goes back to the pool with its last pin or
/// mapping, one generation on, and is the next to be handed out; as long as one
/// is left it waits.
pub proof fn law_last_hold_releases(a: Pmm, b: Pmm, frame: FrameIndex, info: FrameInfo)
    requires
        counted(a, b, frame, info),
        frame < a.frames().len(),
        info.owner_tag() == OwnerTag::Pending,
    ensures
        info.pinned() == 0 && info.mappings() == 0 ==> b.free(frame as int) && b.next_alloc()
            == Some(frame) && b.frames()[frame as int].gen() == wrapping_inc(info.gen()),
        info.pinned() != 0 || info.mappings() != 0 ==> !b.free(frame as int) && b.local_list()
            == a.local_list() && b.frames()[frame as int] == info,
{
    FrameOwner::law_encoding_round_trip(OwnerTag::Free, 0);
    if info.pinned() == 0 && info.mappings() == 0 {
        assert(b.local_list()[0] == frame);
    }
}

/// An owner is encoded with its tag in the low byte, where zero is reserved,
/// and the region or domain in the upper half.
pub proof fn law_owner_encoding(tag: OwnerTag, id: u32)
    requires
        tag_has_id(tag) || id == 0,
    ensures
        FrameOwner::of(tag, id).raw() % 0x1_0000_0000 == (match tag {
            OwnerTag::Reserved => 0int,
            OwnerTag::Free => 1,
            OwnerTag::Kernel => 2,
            OwnerTag::Pending => 3,
            OwnerTag::Untyped => 4,
            OwnerTag::Domain => 5,
        }),
        FrameOwner::of(tag, id).raw() / 0x1_0000_0000 == id,
        tag_has_id(tag) <==> tag is Untyped || tag is Domain,
{
}

/// Owners of different tags, or of different regions or domains, differ.
pub proof fn law_owners_differ(tag: OwnerTag, id: u32, other: OwnerTag, other_id: u32)
    requires
        tag_has_id(tag) || id == 0,
        tag_has_id(other) || other_id == 0,
        tag != other || id != other_id,
    ensures
        FrameOwner::of(tag, id) != FrameOwner::of(other, other_id),
{
    FrameOwner::law_encoding_round_trip(tag, id);
    FrameOwner::law_encoding_round_trip(other, other_id);
}

/// A count goes up by one, and around to zero behind its last value.
pub proof fn law_counts_wrap(n: u32)
    ensures
        wrapping_inc(n) as int == (n + 1) % 0x1_0000_0000,
{
}

/// Dropping a count of a frame that does not wait for release leaves the frame
/// where it is: only its metadata changes, and no list does.
pub proof fn law_only_waiting_frames_are_released(a: Pmm, b: Pmm, frame: FrameIndex, info: FrameInfo)
    requires
        counted(a, b, frame, info),
        frame < a.frames().len(),
        info.owner_tag() != OwnerTag::Pending || info.pinned() > 0 || info.mappings() > 0,
    ensures
        b.frames()[frame as int] == info,
        b.local_list() == a.local_list(),
        b.list(pmm::global_list()) == a.list(pmm::global_list()),
        b.ram_words() == a.ram_words(),
{
}

/// Dropping a count of one frame leaves every other as it was.
pub proof fn law_counts_are_per_frame(
    a: Pmm,
    b: Pmm,
    frame: FrameIndex,
    info: FrameInfo,
    other: int,
)
    requires
        counted(a, b, frame, info),
        frame < a.frames().len(),
        0 <= other < a.frames().len(),
        other != frame,
    ensures
        b.frames().len() == a.frames().len(),
        b.frames()[other] == a.frames()[other],
{
}

} // verus!
