//! Frames owned by kernel code.

use crate::allocator::{self, alloc_frame, release_frame};
use crate::arch::{frame_phys, phys_to_virt, FRAME_SIZE, FRAME_WORDS};
use crate::frame::{FrameIndex, FrameInfo, FrameOwner, OwnerTag};
use crate::pmm::{self, Pmm};
use vstd::prelude::*;

verus! {

/// An owned physical frame, for kernel-internal allocations only.
///
/// Deliberately scoped away from the capability tree: kernel page tables and
/// transient kernel buffers are owned by kernel code paths and given back by
/// [`OwnedFrame::release`], never by domain teardown. It is not `Copy` or
/// `Clone`: an `OwnedFrame` is a unique owner.
pub struct OwnedFrame {
    pub(crate) frame: FrameIndex,
}

impl OwnedFrame {
    pub open(crate) spec fn frame_spec(&self) -> FrameIndex {
        self.frame
    }

    /// Allocate a frame from the kernel pool.
    pub fn allocate(pmm: &mut Pmm) -> (r: Option<OwnedFrame>)
        requires
            old(pmm).wf(),
        ensures
            final(pmm).wf(),
            final(pmm).physmap_at() == old(pmm).physmap_at(),
            final(pmm).table_at() == old(pmm).table_at(),
            r is None <==> old(pmm).free_count() == 0,
            r is None ==> *final(pmm) == *old(pmm),
            r matches Some(f) ==> {
                &&& old(pmm).next_alloc() == Some(f.frame())
                &&& old(pmm).free(f.frame() as int)
                &&& final(pmm).frames() == old(pmm).frames().update(
                    f.frame() as int,
                    old(pmm).frames()[f.frame() as int].with_owner(
                        FrameOwner::of(OwnerTag::Kernel, 0),
                    ),
                )
                &&& final(pmm).local_list() == old(pmm).local_after_refill().drop_first()
                &&& final(pmm).list(pmm::global_list()) == old(pmm).global_after_refill()
                &&& forall|owned: Seq<FrameIndex>| #[trigger]
                    live(*old(pmm), owned) ==> live(*final(pmm), owned.push(f.frame()))
            },
            final(pmm).ram_words().len() == old(pmm).ram_words().len(),
            forall|i: int|
                0 <= i < old(pmm).ram_words().len() && !old(pmm).free(i / FRAME_WORDS as int)
                    ==> #[trigger] final(pmm).ram_words()[i] == old(pmm).ram_words()[i],
    {
        proof {
            pmm.lemma_free_count();
        }
        match alloc_frame(pmm) {
            None => {
                assert(pmm.free_set() =~= Set::empty());
                None
            },
            Some(frame) => {
                proof {
                    assert(old(pmm).free_set().contains(frame as int));
                    assert forall|owned: Seq<FrameIndex>| #[trigger]
                        live(*old(pmm), owned) implies live(*pmm, owned.push(frame)) by {
                        law_new_owner(*old(pmm), *pmm, owned, frame);
                    }
                }
                Some(OwnedFrame { frame })
            },
        }
    }

    /// The frame index backing this allocation.
    #[verifier::when_used_as_spec(frame_spec)]
    pub fn frame(&self) -> (r: FrameIndex)
        ensures
            r == self.frame(),
    {
        self.frame
    }

    /// Physical address of the frame.
    pub fn phys(&self) -> (r: u64)
        ensures
            r == self.frame() * FRAME_SIZE,
    {
        frame_phys(self.frame)
    }

    /// Physmap address of the frame's memory (kernel-internal use only).
    pub fn as_ptr(&self, pmm: &Pmm) -> (r: u64)
        requires
            pmm.physmap_at() != 0,
            pmm.physmap_at() + self.frame() * FRAME_SIZE <= u64::MAX,
        ensures
            r == pmm.physmap_at() + self.frame() * FRAME_SIZE,
    {
        phys_to_virt(&pmm.physmap, frame_phys(self.frame))
    }

    /// Give the frame back: it returns to the kernel pool, or becomes
    /// `Pending` while pins or mappings are left.
    pub fn release(self, pmm: &mut Pmm)
        requires
            old(pmm).wf(),
            self.frame() < old(pmm).frames().len(),
            old(pmm).frames()[self.frame() as int].owner_tag() != OwnerTag::Reserved,
            old(pmm).frames()[self.frame() as int].owner_tag() != OwnerTag::Free,
        ensures
            final(pmm).wf(),
            final(pmm).physmap_at() == old(pmm).physmap_at(),
            final(pmm).table_at() == old(pmm).table_at(),
            final(pmm).frames() == old(pmm).frames().update(
                self.frame() as int,
                allocator::released(old(pmm).frames()[self.frame() as int]),
            ),
            final(pmm).list(pmm::global_list()) == old(pmm).list(pmm::global_list()),
            final(pmm).local_list() == (if final(pmm).free(self.frame() as int) {
                seq![self.frame()] + old(pmm).local_list()
            } else {
                old(pmm).local_list()
            }),
            final(pmm).ram_words() == (if final(pmm).free(self.frame() as int) {
                allocator::set_next(
                    old(pmm).ram_words(),
                    self.frame(),
                    pmm::chain_at(old(pmm).local_list(), 0),
                )
            } else {
                old(pmm).ram_words()
            }),
            forall|owned: Seq<FrameIndex>, i: int|
                live(*old(pmm), owned) && 0 <= i < owned.len() && #[trigger] owned[i]
                    == self.frame() ==> live(*final(pmm), owned.remove(i)),
    {
        release_frame(pmm, self.frame);
        proof {
            assert forall|owned: Seq<FrameIndex>, i: int|
                live(*old(pmm), owned) && 0 <= i < owned.len() && #[trigger] owned[i]
                    == self.frame() implies live(*pmm, owned.remove(i)) by {
                law_owner_gone(
                    *old(pmm),
                    *pmm,
                    owned,
                    i,
                    allocator::released(old(pmm).frames()[self.frame() as int]),
                );
            }
        }
    }
}

/// The frames `owned` can have their owners at the same time: they are the
/// kernel's, and no two of them are the same.
pub open spec fn live(pmm: Pmm, owned: Seq<FrameIndex>) -> bool {
    &&& owned.no_duplicates()
    &&& forall|i: int|
        0 <= i < owned.len() ==> (#[trigger] owned[i]) < pmm.frames().len()
            && pmm.frames()[owned[i] as int].owner() == FrameOwner::of(OwnerTag::Kernel, 0)
}

/// A frame that is allocated has no owner yet, so it can have one beside all
/// others that do.
pub proof fn law_new_owner(before: Pmm, after: Pmm, owned: Seq<FrameIndex>, frame: FrameIndex)
    requires
        live(before, owned),
        before.free(frame as int),
        after.frames() == before.frames().update(
            frame as int,
            before.frames()[frame as int].with_owner(FrameOwner::of(OwnerTag::Kernel, 0)),
        ),
    ensures
        live(after, owned.push(frame)),
{
    FrameOwner::law_encoding_round_trip(OwnerTag::Kernel, 0);
    assert forall|i: int| 0 <= i < owned.len() implies (#[trigger] owned[i]) != frame by {}
}

/// Giving one frame back leaves all other owners theirs.
pub proof fn law_owner_gone(
    before: Pmm,
    after: Pmm,
    owned: Seq<FrameIndex>,
    i: int,
    info: FrameInfo,
)
    requires
        live(before, owned),
        0 <= i < owned.len(),
        after.frames() == before.frames().update(owned[i] as int, info),
    ensures
        live(after, owned.remove(i)),
{
    let left = owned.remove(i);
    assert forall|k: int| 0 <= k < left.len() implies (#[trigger] left[k]) == owned[if k < i {
        k
    } else {
        k + 1
    }] by {}
}

/// Owned frames share no memory: no byte that the physmap shows of one is a
/// byte of another, and all of them are in RAM.
pub proof fn law_owned_frames_share_no_memory(pmm: Pmm, owned: Seq<FrameIndex>, i: int, j: int)
    requires
        pmm.wf(),
        live(pmm, owned),
        0 <= i < owned.len(),
        0 <= j < owned.len(),
        i != j,
    ensures
        ({
            let a = pmm.physmap_at() + owned[i] * FRAME_SIZE;
            let b = pmm.physmap_at() + owned[j] * FRAME_SIZE;
            &&& a + FRAME_SIZE <= b || b + FRAME_SIZE <= a
            &&& owned[i] * FRAME_SIZE + FRAME_SIZE <= pmm.ram_words().len() * 8
            &&& owned[j] * FRAME_SIZE + FRAME_SIZE <= pmm.ram_words().len() * 8
        }),
{
    pmm.lemma_wf();
    assert(owned[i] != owned[j]);
}

} // verus!
