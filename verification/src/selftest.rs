//! The checks that run once at boot, before the shell: each exercises a part
//! of the kernel and puts back what it took.

use crate::allocator::{self, alloc_frame, release_frame};
use crate::arch::{frame_phys, physmap_base, FRAME_SIZE, FRAME_WORDS};
use crate::frame::{
    self, add_mapping, frame_info, pin_frame, remove_mapping, unpin_frame, DomainId, FrameIndex,
    FrameInfo, FrameOwner, OwnerTag,
};
use crate::page_tree::{self, Nodes};
use crate::pmm::{self, Pmm, Pool};
use crate::process;
use crate::untyped::{self, retype_frame, UntypedCap};
use crate::vmm::{self, Flags, PageTable};
use vstd::prelude::*;

verus! {

/// An address high in the canonical upper half, outside the identity and
/// physmap windows, that the address-space test maps.
pub const TEST_VA: u64 = 0xffff_9000_0000_0000;

/// Another, under the next table.
pub const TEST_VA2: u64 = 0xffff_9000_0020_0000;

/// The domain that the test grants frames to.
pub const TEST_DOMAIN: DomainId = 7;

/// Why a self-test could not run to its end.
#[derive(Clone, Copy, Debug, PartialEq, Eq, Structural)]
pub enum SelfTestError {
    /// The kernel pool has not enough frames.
    OutOfFrames,
    /// The untyped region has no frame left to grant.
    NoUntyped,
    /// The identity window does not map its second page to itself.
    IdentityWindow,
    /// The physmap window does not start at physical address 0.
    PhysmapWindow,
    /// A test page is mapped already.
    TestPageMapped,
    /// The memory manager did not do what it should have.
    Mismatch,
}

/// Nothing pins the frame and nothing maps it.
pub open spec fn quiet(info: FrameInfo) -> bool {
    info.pinned() == 0 && info.mappings() == 0
}

/// Nothing pins or maps a frame of the pool.
pub open spec fn pool_quiet(pmm: Pmm) -> bool {
    forall|f: int| #[trigger] pmm.free(f) ==> quiet(pmm.frames()[f])
}

/// Between `a` and `b` nothing changed but what free frames hold, and how
/// often they have been released: what was free is free, and every other
/// frame is as it was.
pub open spec fn only_pool_used(a: Pmm, b: Pmm) -> bool {
    &&& b.frames().len() == a.frames().len()
    &&& b.ram_words().len() == a.ram_words().len()
    &&& b.physmap_at() == a.physmap_at()
    &&& b.table_at() == a.table_at()
    &&& forall|f: int| #[trigger] b.free(f) == a.free(f)
    &&& forall|f: int|
        0 <= f < a.frames().len() && !a.free(f) ==> #[trigger] b.frames()[f] == a.frames()[f]
    &&& forall|i: int|
        0 <= i < a.ram_words().len() && !a.free(i / FRAME_WORDS as int)
            ==> #[trigger] b.ram_words()[i] == a.ram_words()[i]
}

/// Between `a` and `b` every frame that was not free has been left alone.
pub open spec fn rest_kept(a: Pmm, b: Pmm) -> bool {
    &&& b.frames().len() == a.frames().len()
    &&& b.ram_words().len() == a.ram_words().len()
    &&& b.physmap_at() == a.physmap_at()
    &&& b.table_at() == a.table_at()
    &&& forall|f: int|
        0 <= f < a.frames().len() && !a.free(f) ==> #[trigger] b.frames()[f] == a.frames()[f]
    &&& forall|i: int|
        0 <= i < a.ram_words().len() && !a.free(i / FRAME_WORDS as int)
            ==> #[trigger] b.ram_words()[i] == a.ram_words()[i]
}

/// Where the frames that were not free are left alone, so are page tables.
proof fn lemma_rest_keeps_table(pt: PageTable, a: Pmm, b: Pmm)
    requires
        pt.wf(a),
        a.wf(),
        rest_kept(a, b),
    ensures
        pt.wf(b),
        vmm::same_pages(pt, a, b),
{
    a.lemma_wf();
    let nodes = pt.tables();
    FrameOwner::law_encoding_round_trip(OwnerTag::Kernel, 0);
    assert forall|x: (int, int)| nodes.contains_key(x) implies b.frames()[(
    #[trigger] nodes[x]) as int].owner() == FrameOwner::of(OwnerTag::Kernel, 0) && !a.free(
        nodes[x] as int,
    ) && nodes[x] < a.frames().len() by {
        page_tree::lemma_node(pt.root_frame(), nodes, a.ram_words(), a.frames(), x.0, x.1, 0);
    }
    assert forall|x: (int, int), j: int|
        nodes.contains_key(x) && 0 <= j < 512 implies #[trigger] page_tree::entry(
        b.ram_words(),
        nodes[x],
        j,
    ) == page_tree::entry(a.ram_words(), nodes[x], j) by {
        let w = nodes[x] as int * FRAME_WORDS + j;
        assert(w / FRAME_WORDS as int == nodes[x]);
        assert(b.ram_words()[w] == a.ram_words()[w]);
    }
    page_tree::lemma_tree_frame(
        pt.root_frame(),
        nodes,
        a.ram_words(),
        a.frames(),
        b.ram_words(),
        b.frames(),
    );
}

/// The kernel's own frames are not free.
proof fn lemma_tags()
    ensures
        forall|info: FrameInfo| #[trigger]
            info.with_owner(FrameOwner::of(OwnerTag::Kernel, 0)).owner_tag() == OwnerTag::Kernel,
        forall|info: FrameInfo| #[trigger]
            info.with_owner(FrameOwner::of(OwnerTag::Pending, 0)).owner_tag() == OwnerTag::Pending,
        forall|info: FrameInfo| #[trigger]
            info.with_owner(FrameOwner::of(OwnerTag::Free, 0)).owner_tag() == OwnerTag::Free,
        forall|info: FrameInfo| #[trigger]
            info.next_gen().owner_tag() == info.owner_tag(),
{
    FrameOwner::law_encoding_round_trip(OwnerTag::Kernel, 0);
    FrameOwner::law_encoding_round_trip(OwnerTag::Pending, 0);
    FrameOwner::law_encoding_round_trip(OwnerTag::Free, 0);
}

/// A free frame is nobody's: owners given to it and taken back leave it as it
/// was.
proof fn lemma_free_owner(pmm: Pmm, f: int)
    requires
        pmm.wf(),
        pmm.free(f),
    ensures
        pmm.frames()[f].owner() == FrameOwner::of(OwnerTag::Free, 0),
        forall|owner: FrameOwner| #[trigger]
            pmm.frames()[f].with_owner(owner).with_owner(FrameOwner::of(OwnerTag::Free, 0))
                == pmm.frames()[f],
{
    reveal(Pmm::wf);
    FrameOwner::law_valid_owner_is_determined(pmm.frames()[f].owner());
}

/// A frame that has gone back to the pool is the next to be handed out, and
/// that leaves the lists as they were before its release.
proof fn lemma_reused(p: Pool, f: FrameIndex)
    requires
        allocator::released(p.frames[f as int]).is_free(),
        f < p.frames.len(),
    ensures
        p.release(f).has_head(),
        p.release(f).head() == f,
        p.release(f).take_head() == p.with_info(
            f,
            allocator::released(p.frames[f as int]).with_owner(FrameOwner::of(OwnerTag::Kernel, 0)),
        ),
{
    let q = p.release(f);
    assert(q.local[0] == f);
    assert(q.local.drop_first() =~= p.local);
    assert(q.take_head().frames =~= p.with_info(
        f,
        allocator::released(p.frames[f as int]).with_owner(FrameOwner::of(OwnerTag::Kernel, 0)),
    ).frames);
}

/// What [`pool_check`] makes of the pool: the frames `a` and `b` that were
/// first have been released, `a` twice and `b` once, and are first again.
pub open spec fn pool_checked(p: Pool) -> Pool {
    let a = p.head();
    let b = p.take_head().head();
    let rest = p.take_head().take_head();
    Pool {
        frames: p.frames.update(a as int, p.frames[a as int].next_gen().next_gen()).update(
            b as int,
            p.frames[b as int].next_gen(),
        ),
        local: seq![a, b] + rest.local,
        global: rest.global,
    }
}

/// The pool after the frame that was first has been taken, pinned and
/// released: it waits for its pin.
pub open spec fn waiting(p: Pool) -> Pool {
    let d = p.head();
    p.take_head().with_info(
        d,
        p.frames[d as int].with_pinned(1).with_owner(FrameOwner::of(OwnerTag::Pending, 0)),
    )
}

/// What [`deferral_check`] makes of the pool: the frame `d` that was first has
/// been released once and is the kernel's, and the one after it has been
/// released once and is first.
pub open spec fn deferral_checked(p: Pool) -> Pool {
    let d = p.head();
    let e = p.take_head().head();
    let rest = p.take_head().take_head();
    Pool {
        frames: p.frames.update(
            d as int,
            p.frames[d as int].next_gen().with_owner(FrameOwner::of(OwnerTag::Kernel, 0)),
        ).update(e as int, p.frames[e as int].next_gen()),
        local: seq![e] + rest.local,
        global: rest.global,
    }
}

/// What [`mapping_check`] makes of the pool: the frame that was first has been
/// released once, and is first again.
pub open spec fn mapping_checked(p: Pool) -> Pool {
    let m = p.head();
    Pool {
        frames: p.frames.update(m as int, p.frames[m as int].next_gen()),
        local: seq![m] + p.take_head().local,
        global: p.take_head().global,
    }
}

/// Fewer than `n` frames are free when allocation has failed after `n - 1`
/// others.
proof fn lemma_none_free(pmm: Pmm)
    requires
        pmm.wf(),
    ensures
        pmm.next_alloc() is None <==> pmm.free_count() == 0,
        pmm.next_alloc() matches Some(f) ==> pmm.free(f as int),
{
    pmm.lemma_free_count();
    pmm.lemma_no_free_frames();
    if pmm.next_alloc() is None {
        assert(pmm.free_set() =~= Set::empty());
    } else {
        assert(pmm.free_set().contains(pmm.next_alloc()->0 as int));
    }
}

/// Allocate two frames, write to one, and check that a released frame is the
/// next to be handed out.
pub fn pool_check(pmm: &mut Pmm) -> (r: Result<(), SelfTestError>)
    requires
        old(pmm).wf(),
        pool_quiet(*old(pmm)),
    ensures
        final(pmm).wf(),
        r is Ok <==> old(pmm).free_count() >= 2,
        r is Err ==> r == Err::<(), SelfTestError>(SelfTestError::OutOfFrames),
        r is Ok ==> {
            &&& final(pmm).pool() == pool_checked(old(pmm).pool())
            &&& only_pool_used(*old(pmm), *final(pmm))
            &&& pool_quiet(*final(pmm))
            &&& final(pmm).free_count() == old(pmm).free_count()
        },
        r is Err ==> final(pmm).pool() == old(pmm).pool().take_heads(old(pmm).free_count()),
        rest_kept(*old(pmm), *final(pmm)),
{
    let ghost p0 = *pmm;
    proof {
        lemma_tags();
        lemma_none_free(p0);
        pmm.lemma_wf();
        p0.pool().lemma_take_one();
    }
    let a = match alloc_frame(pmm) {
        None => {
            return Err(SelfTestError::OutOfFrames);
        },
        Some(a) => a,
    };
    let ghost p1 = *pmm;
    proof {
        allocator::law_free_count_steps(p0, p1, a, p1.frames()[a as int]);
        lemma_none_free(p1);
    }
    pmm.write_byte(a, 0, 0xAB);
    if pmm.read_byte(a, 0) != 0xAB {
        return Err(SelfTestError::Mismatch);
    }
    if frame_info(pmm, a).owner_tag() != OwnerTag::Kernel {
        return Err(SelfTestError::Mismatch);
    }
    let ghost p2 = *pmm;
    proof {
        assert(p2.free_set() =~= p1.free_set());
        lemma_none_free(p2);
        assert forall|i: int|
            0 <= i < p0.ram_words().len() && !p0.free(i / FRAME_WORDS as int)
                implies #[trigger] p2.ram_words()[i] == p0.ram_words()[i] by {
            assert(p1.ram_words()[i] == p0.ram_words()[i]);
        }
    }
    let b = match alloc_frame(pmm) {
        None => {
            return Err(SelfTestError::OutOfFrames);
        },
        Some(b) => b,
    };
    let ghost p3 = *pmm;
    if a == b {
        return Err(SelfTestError::Mismatch);
    }
    proof {
        assert(p2.pool() == p1.pool());
        allocator::law_free_count_steps(p2, p3, b, p3.frames()[b as int]);
        assert(p1.free(b as int) && p0.free(b as int));
        assert(quiet(p3.frames()[a as int]) && quiet(p3.frames()[b as int]));
    }
    release_frame(pmm, a);
    let ghost p4 = *pmm;
    proof {
        allocator::law_release_then_alloc(p3, p4, a);
        allocator::law_free_count_steps(p3, p4, a, p4.frames()[a as int]);
    }
    if alloc_frame(pmm) != Some(a) {
        return Err(SelfTestError::Mismatch);
    }
    let ghost p5 = *pmm;
    proof {
        allocator::law_free_count_steps(p4, p5, a, p5.frames()[a as int]);
        lemma_reused(p3.pool(), a);
        lemma_free_owner(p0, a as int);
        lemma_free_owner(p0, b as int);
    }
    release_frame(pmm, b);
    let ghost p6 = *pmm;
    proof {
        allocator::law_free_count_steps(p5, p6, b, p6.frames()[b as int]);
    }
    release_frame(pmm, a);
    proof {
        allocator::law_free_count_steps(p6, *pmm, a, pmm.frames()[a as int]);
        assert forall|f: int| #[trigger] pmm.free(f) == p0.free(f) by {
            assert(p1.free(f) == (p0.free(f) && f != a));
            assert(p2.free(f) == p1.free(f));
        }
        assert forall|i: int|
            0 <= i < p0.ram_words().len() && !p0.free(i / FRAME_WORDS as int)
                implies #[trigger] pmm.ram_words()[i] == p0.ram_words()[i] by {
            let f = i / FRAME_WORDS as int;
            assert(p1.ram_words()[i] == p0.ram_words()[i]);
            assert(p2.ram_words()[i] == p1.ram_words()[i]);
            assert(!p2.free(f));
            assert(p3.ram_words()[i] == p2.ram_words()[i]);
            assert(p4.ram_words()[i] == p3.ram_words()[i]);
            assert(!p4.free(f));
            assert(p5.ram_words()[i] == p4.ram_words()[i]);
            assert(p6.ram_words()[i] == p5.ram_words()[i]);
        }
        assert forall|f: int| 0 <= f < p0.frames().len() && f != a && f
            != b implies #[trigger] pmm.frames()[f] == p0.frames()[f] by {
            assert(p1.frames()[f] == p0.frames()[f]);
            assert(p3.frames()[f] == p2.frames()[f]);
            assert(p5.frames()[f] == p4.frames()[f]);
        }
        assert(pmm.pool() =~= pool_checked(p0.pool())) by {
            assert(pmm.pool().local =~= seq![a, b] + p3.pool().local);
            assert(pmm.frames() =~= pool_checked(p0.pool()).frames);
        }
        assert(quiet(pmm.frames()[a as int]) && quiet(pmm.frames()[b as int]));
        assert forall|f: int| #[trigger] pmm.free(f) implies quiet(pmm.frames()[f]) by {
            assert(p0.free(f));
        }
    }
    Ok(())
}

/// The frames that the region of `cap` can still grant.
pub open spec fn grantable(pmm: Pmm, cap: UntypedCap) -> Set<int> {
    vstd::set_lib::set_int_range(0, pmm.frames().len() as int).filter(
        |f: int| cap.covers(f) && untyped::untaken(pmm, cap.id(), f),
    )
}

/// `frame` is the first in `cap`'s order that the region can grant.
pub open spec fn first_grantable(pmm: Pmm, cap: UntypedCap, frame: FrameIndex) -> bool {
    exists|t: int|
        0 <= t < cap.num_frames() && #[trigger] cap.try_order(t) == frame && untyped::untaken(
            pmm,
            cap.id(),
            frame as int,
        ) && forall|s: int|
            0 <= s < t ==> !untyped::untaken(pmm, cap.id(), #[trigger] cap.try_order(s))
}

/// `frame` is the last in `cap`'s order that the region can grant.
pub open spec fn last_grantable(pmm: Pmm, cap: UntypedCap, frame: int) -> bool {
    exists|t: int|
        0 <= t < cap.num_frames() && #[trigger] cap.try_order(t) == frame && untyped::untaken(
            pmm,
            cap.id(),
            frame,
        ) && forall|s: int|
            t < s < cap.num_frames() ==> !untyped::untaken(
                pmm,
                cap.id(),
                #[trigger] cap.try_order(s),
            )
}

/// Frame `info`, granted to `domain`.
pub open spec fn granted(info: FrameInfo, domain: DomainId) -> FrameInfo {
    info.with_owner(FrameOwner::of(OwnerTag::Domain, domain))
}

/// The region covers frames that exist.
pub open spec fn cap_fits(pmm: Pmm, cap: UntypedCap) -> bool {
    cap.num_frames() > 0 ==> cap.base_frame() + cap.num_frames() <= pmm.frames().len()
}

/// `b` is `a` after the frames that were in `all`, and are not in `left`,
/// have been granted.
pub open spec fn granting(
    a: Pmm,
    b: Pmm,
    all: Set<int>,
    left: Set<int>,
    domain: DomainId,
) -> bool {
    &&& b.frames().len() == a.frames().len()
    &&& left.subset_of(all)
    &&& frame::same_lists_and_ram(a, b)
    &&& forall|f: int|
        0 <= f < a.frames().len() ==> #[trigger] b.frames()[f] == (if all.contains(f)
            && !left.contains(f) {
            granted(a.frames()[f], domain)
        } else {
            a.frames()[f]
        })
}

/// Grant one frame of the region, and count it out of those left.
fn grant_one(pmm: &mut Pmm, cap: &mut UntypedCap, domain: DomainId, Ghost(a): Ghost<Pmm>, Ghost(
    all,
): Ghost<Set<int>>) -> (r: Option<FrameIndex>)
    requires
        old(pmm).wf(),
        cap_fits(*old(pmm), *old(cap)),
        granting(a, *old(pmm), all, grantable(*old(pmm), *old(cap)), domain),
    ensures
        final(pmm).wf(),
        final(cap).id() == old(cap).id(),
        final(cap).base_frame() == old(cap).base_frame(),
        final(cap).num_frames() == old(cap).num_frames(),
        granting(a, *final(pmm), all, grantable(*final(pmm), *final(cap)), domain),
        r is None <==> grantable(*old(pmm), *old(cap)).len() == 0,
        r is None ==> *final(pmm) == *old(pmm) && *final(cap) == *old(cap),
        r matches Some(f) ==> {
            &&& first_grantable(*old(pmm), *old(cap), f)
            &&& final(cap).next_try() == f + 1
            &&& final(pmm).frames() == old(pmm).frames().update(
                f as int,
                granted(old(pmm).frames()[f as int], domain),
            )
            &&& grantable(*old(pmm), *old(cap)).contains(f as int)
            &&& grantable(*final(pmm), *final(cap)) == grantable(*old(pmm), *old(cap)).remove(
                f as int,
            )
            &&& grantable(*final(pmm), *final(cap)).len() + 1 == grantable(
                *old(pmm),
                *old(cap),
            ).len()
        },
{
    let ghost p0 = *pmm;
    let ghost cap0 = *cap;
    let ghost left = grantable(p0, cap0);
    proof {
        vstd::set_lib::lemma_int_range(0, p0.frames().len() as int);
    }
    match retype_frame(pmm, cap, domain) {
        Err(_) => {
            assert(left =~= Set::empty());
            None
        },
        Ok(f) => {
            proof {
                FrameOwner::law_encoding_round_trip(OwnerTag::Untyped, cap0.id());
                FrameOwner::law_encoding_round_trip(OwnerTag::Domain, domain);
                let t = choose|t: int|
                    0 <= t < cap0.num_frames() && #[trigger] cap0.try_order(t) == f && forall|s: int|
                        0 <= s < t ==> !untyped::untaken(p0, cap0.id(), #[trigger] cap0.try_order(s));
                cap0.lemma_try_order_covers(t);
                assert(left.contains(f as int));
                assert(grantable(*pmm, *cap) =~= left.remove(f as int));
            }
            Some(f)
        },
    }
}

/// The frames up to number `t` in the order of `cap0` have been gone through:
/// none of them is left to grant, and the others are as they were in `a`.
spec fn gone_through(a: Pmm, b: Pmm, cap0: UntypedCap, t: int) -> bool {
    &&& 0 <= t < cap0.num_frames()
    &&& untyped::untaken(a, cap0.id(), cap0.try_order(t))
    &&& forall|s: int|
        0 <= s <= t ==> !untyped::untaken(b, cap0.id(), #[trigger] cap0.try_order(s))
    &&& forall|s: int|
        t < s < cap0.num_frames() ==> untyped::untaken(b, cap0.id(), #[trigger] cap0.try_order(s))
            == untyped::untaken(a, cap0.id(), cap0.try_order(s))
}

/// Granting `f` goes through the frames up to it. Returns its number in the
/// order of `cap0`.
proof fn lemma_gone_through(
    a: Pmm,
    b: Pmm,
    c: Pmm,
    cap0: UntypedCap,
    cap: UntypedCap,
    t: int,
    f: FrameIndex,
    domain: DomainId,
) -> (u: int)
    requires
        cap_fits(b, cap0),
        b.frames().len() == c.frames().len(),
        t == -1 && a == b && cap == cap0 || gone_through(a, b, cap0, t) && cap.next_try()
            == cap0.try_order(t) + 1,
        cap.id() == cap0.id(),
        cap.base_frame() == cap0.base_frame(),
        cap.num_frames() == cap0.num_frames(),
        first_grantable(b, cap, f),
        c.frames() == b.frames().update(f as int, granted(b.frames()[f as int], domain)),
    ensures
        gone_through(a, c, cap0, u),
        cap0.try_order(u) == f,
{
    FrameOwner::law_encoding_round_trip(OwnerTag::Untyped, cap0.id());
    FrameOwner::law_encoding_round_trip(OwnerTag::Domain, domain);
    let n = cap0.num_frames() as int;
    let s0 = choose|s: int|
        0 <= s < cap.num_frames() && #[trigger] cap.try_order(s) == f && untyped::untaken(
            b,
            cap.id(),
            f as int,
        ) && forall|r: int|
            0 <= r < s ==> !untyped::untaken(b, cap.id(), #[trigger] cap.try_order(r));
    let u = t + 1 + s0;
    assert forall|s: int| 0 <= s < n implies cap.try_order(s) == #[trigger] cap0.try_order(
        t + 1 + s,
    ) by {
        if t >= 0 {
            cap0.lemma_try_order_continues(cap, t, s);
        }
    }
    assert(cap.try_order(s0) == cap0.try_order(t + 1 + s0));
    if u >= n {
        cap0.lemma_try_order_continues(cap, t, u);
        assert(cap0.try_order(u - n) == f);
        assert(false);
    }
    assert forall|s: int| 0 <= s < n implies untyped::untaken(
        c,
        cap0.id(),
        #[trigger] cap0.try_order(s),
    ) == (s != u && untyped::untaken(b, cap0.id(), cap0.try_order(s))) by {
        cap0.lemma_try_order_covers(s);
        if s < u {
            cap0.lemma_try_order_distinct(s, u);
        } else if s > u {
            cap0.lemma_try_order_distinct(u, s);
        }
    }
    assert forall|s: int| 0 <= s <= u implies !untyped::untaken(
        c,
        cap0.id(),
        #[trigger] cap0.try_order(s),
    ) by {
        if t < s < u {
            assert(cap.try_order(s - t - 1) == cap0.try_order(t + 1 + (s - t - 1)));
        }
    }
    u
}

/// Grant every frame of the region, release the first, and check that it goes
/// to the pool and not back to the region. Returns how many frames were
/// granted, and the first.
pub fn grant_check(pmm: &mut Pmm, cap: &mut UntypedCap, domain: DomainId) -> (r: Result<
    (u32, FrameIndex),
    SelfTestError,
>)
    requires
        old(pmm).wf(),
        cap_fits(*old(pmm), *old(cap)),
        forall|f: int| #[trigger]
            grantable(*old(pmm), *old(cap)).contains(f) ==> quiet(old(pmm).frames()[f]),
    ensures
        final(pmm).wf(),
        final(cap).id() == old(cap).id(),
        final(cap).base_frame() == old(cap).base_frame(),
        final(cap).num_frames() == old(cap).num_frames(),
        r is Ok <==> grantable(*old(pmm), *old(cap)).len() > 0,
        r is Err ==> r == Err::<(u32, FrameIndex), SelfTestError>(SelfTestError::NoUntyped),
        r is Err ==> *final(pmm) == *old(pmm) && *final(cap) == *old(cap),
        r matches Ok((count, first)) ==> {
            &&& count == grantable(*old(pmm), *old(cap)).len()
            &&& last_grantable(*old(pmm), *old(cap), final(cap).next_try() - 1)
            &&& first_grantable(*old(pmm), *old(cap), first)
            &&& grantable(*old(pmm), *old(cap)).contains(first as int)
            &&& final(pmm).pool().local == seq![first] + old(pmm).pool().local
            &&& final(pmm).pool().global == old(pmm).pool().global
            &&& final(pmm).frames().len() == old(pmm).frames().len()
            &&& forall|f: int|
                0 <= f < old(pmm).frames().len() ==> #[trigger] final(pmm).frames()[f] == (if f
                    == first {
                    allocator::released(granted(old(pmm).frames()[f], domain))
                } else if grantable(*old(pmm), *old(cap)).contains(f) {
                    granted(old(pmm).frames()[f], domain)
                } else {
                    old(pmm).frames()[f]
                })
            &&& final(pmm).free(first as int)
            &&& final(pmm).next_alloc() == Some(first)
            &&& final(pmm).physmap_at() == old(pmm).physmap_at()
            &&& final(pmm).table_at() == old(pmm).table_at()
            &&& final(pmm).ram_words().len() == old(pmm).ram_words().len()
            &&& forall|i: int|
                0 <= i < old(pmm).ram_words().len() && i / FRAME_WORDS as int != first
                    ==> #[trigger] final(pmm).ram_words()[i] == old(pmm).ram_words()[i]
        },
{
    let ghost p0 = *pmm;
    let ghost cap0 = *cap;
    let ghost all = grantable(p0, *cap);
    proof {
        lemma_tags();
        pmm.lemma_wf();
        vstd::set_lib::lemma_int_range(0, p0.frames().len() as int);
        vstd::set_lib::lemma_len_subset(
            all,
            vstd::set_lib::set_int_range(0, p0.frames().len() as int),
        );
        FrameOwner::law_encoding_round_trip(OwnerTag::Domain, domain);
    }
    let first = match grant_one(pmm, cap, domain, Ghost(p0), Ghost(all)) {
        None => {
            return Err(SelfTestError::NoUntyped);
        },
        Some(f) => f,
    };
    if frame_info(pmm, first).owner_tag() != OwnerTag::Domain {
        return Err(SelfTestError::Mismatch);
    }
    let mut count: u32 = 1;
    let mut more = true;
    let ghost mut t = lemma_gone_through(p0, p0, *pmm, cap0, cap0, -1, first, domain);
    while more
        invariant
            gone_through(p0, *pmm, cap0, t),
            cap.next_try() == cap0.try_order(t) + 1,
            cap0 == *old(cap),
            pmm.wf(),
            cap_fits(*pmm, *cap),
            granting(p0, *pmm, all, grantable(*pmm, *cap), domain),
            cap.id() == old(cap).id(),
            cap.base_frame() == old(cap).base_frame(),
            cap.num_frames() == old(cap).num_frames(),
            count + grantable(*pmm, *cap).len() == all.len(),
            all.len() <= u32::MAX,
            !grantable(*pmm, *cap).contains(first as int),
            !more ==> grantable(*pmm, *cap).len() == 0,
        decreases grantable(*pmm, *cap).len() + if more {
            1int
        } else {
            0int
        },
    {
        let ghost before = *pmm;
        let ghost cap_before = *cap;
        match grant_one(pmm, cap, domain, Ghost(p0), Ghost(all)) {
            None => {
                more = false;
            },
            Some(f) => {
                proof {
                    t = lemma_gone_through(p0, before, *pmm, cap0, cap_before, t, f, domain);
                }
                count = count + 1;
            },
        }
    }
    let ghost p1 = *pmm;
    proof {
        assert(last_grantable(p0, cap0, cap.next_try() - 1)) by {
            assert forall|s: int| t < s < cap0.num_frames() implies !untyped::untaken(
                p0,
                cap0.id(),
                #[trigger] cap0.try_order(s),
            ) by {
                cap0.lemma_try_order_covers(s);
                assert(grantable(p1, *cap).len() == 0);
                vstd::set_lib::lemma_int_range(0, p1.frames().len() as int);
                assert(!grantable(p1, *cap).contains(cap0.try_order(s)));
            }
            assert(cap0.try_order(t) == cap.next_try() - 1);
        }
        assert(grantable(p1, *cap) =~= Set::empty()) by {
            vstd::set_lib::lemma_int_range(0, p1.frames().len() as int);
        }
    }
    release_frame(pmm, first);
    proof {
        allocator::law_release_then_alloc(p1, *pmm, first);
    }
    if frame_info(pmm, first).owner_tag() != OwnerTag::Free {
        return Err(SelfTestError::Mismatch);
    }
    let ghost p2 = *pmm;
    let again = retype_frame(pmm, cap, domain);
    assert(again is Err) by {
        FrameOwner::law_encoding_round_trip(OwnerTag::Free, 0);
        FrameOwner::law_encoding_round_trip(OwnerTag::Untyped, cap.id());
        assert forall|f: int| #[trigger] cap.covers(f) implies !untyped::untaken(
            p2,
            cap.id(),
            f,
        ) by {
            assert(!grantable(p1, *cap).contains(f));
        }
    }
    if again.is_ok() {
        return Err(SelfTestError::Mismatch);
    }
    Ok((count, first))
}

/// Release a pinned frame and check that it waits for its pin, then goes back
/// to the pool and is the next to be handed out. Returns the frame, which is
/// the kernel's afterwards.
pub fn deferral_check(pmm: &mut Pmm) -> (r: Result<FrameIndex, SelfTestError>)
    requires
        old(pmm).wf(),
        pool_quiet(*old(pmm)),
    ensures
        final(pmm).wf(),
        r is Ok <==> old(pmm).free_count() >= 2,
        r is Err ==> r == Err::<FrameIndex, SelfTestError>(SelfTestError::OutOfFrames),
        r is Err ==> final(pmm).pool() == (if old(pmm).free_count() == 0 {
            old(pmm).pool()
        } else {
            waiting(old(pmm).pool())
        }),
        rest_kept(*old(pmm), *final(pmm)),
        r matches Ok(d) ==> {
            &&& old(pmm).next_alloc() == Some(d)
            &&& old(pmm).free(d as int)
            &&& final(pmm).pool() == deferral_checked(old(pmm).pool())
            &&& final(pmm).frames().len() == old(pmm).frames().len()
            &&& final(pmm).frames()[d as int] == old(pmm).frames()[d as int].next_gen().with_owner(
                FrameOwner::of(OwnerTag::Kernel, 0),
            )
            &&& forall|f: int| #[trigger] final(pmm).free(f) == (old(pmm).free(f) && f != d)
            &&& forall|f: int|
                0 <= f < old(pmm).frames().len() && !old(pmm).free(f)
                    ==> #[trigger] final(pmm).frames()[f] == old(pmm).frames()[f]
            &&& final(pmm).free_count() + 1 == old(pmm).free_count()
            &&& pool_quiet(*final(pmm))
            &&& final(pmm).physmap_at() == old(pmm).physmap_at()
            &&& final(pmm).table_at() == old(pmm).table_at()
            &&& final(pmm).ram_words().len() == old(pmm).ram_words().len()
            &&& forall|i: int|
                0 <= i < old(pmm).ram_words().len() && !old(pmm).free(i / FRAME_WORDS as int)
                    ==> #[trigger] final(pmm).ram_words()[i] == old(pmm).ram_words()[i]
        },
{
    let ghost p0 = *pmm;
    proof {
        lemma_tags();
        lemma_none_free(p0);
        pmm.lemma_wf();
    }
    let d = match alloc_frame(pmm) {
        None => {
            return Err(SelfTestError::OutOfFrames);
        },
        Some(d) => d,
    };
    let ghost p1 = *pmm;
    proof {
        allocator::law_free_count_steps(p0, p1, d, p1.frames()[d as int]);
        assert(quiet(p0.frames()[d as int]));
    }
    let _ = pin_frame(pmm, d);
    let ghost p2 = *pmm;
    proof {
        allocator::law_free_count_steps(p1, p2, d, p2.frames()[d as int]);
    }
    release_frame(pmm, d);
    let ghost p3 = *pmm;
    if frame_info(pmm, d).owner_tag() != OwnerTag::Pending {
        return Err(SelfTestError::Mismatch);
    }
    assert(p3.pool() =~= waiting(p0.pool())) by {
        assert(p3.frames() =~= waiting(p0.pool()).frames);
    }
    proof {
        allocator::law_free_count_steps(p2, p3, d, p3.frames()[d as int]);
        lemma_none_free(p3);
    }
    let e = match alloc_frame(pmm) {
        None => {
            return Err(SelfTestError::OutOfFrames);
        },
        Some(e) => e,
    };
    let ghost p4 = *pmm;
    if e == d {
        return Err(SelfTestError::Mismatch);
    }
    proof {
        assert(p3.free(e as int) && p0.free(e as int));
        allocator::law_free_count_steps(p3, p4, e, p4.frames()[e as int]);
        assert(quiet(p0.frames()[e as int]));
    }
    let _ = unpin_frame(pmm, d);
    let ghost p5 = *pmm;
    if frame_info(pmm, d).owner_tag() != OwnerTag::Free {
        return Err(SelfTestError::Mismatch);
    }
    proof {
        allocator::law_free_count_steps(p4, p5, d, p5.frames()[d as int]);
        assert(p5.local_list()[0] == d);
    }
    if alloc_frame(pmm) != Some(d) {
        return Err(SelfTestError::Mismatch);
    }
    let ghost p6 = *pmm;
    proof {
        lemma_free_owner(p0, d as int);
        lemma_free_owner(p0, e as int);
        assert(p6.pool().local =~= p4.pool().local);
        allocator::law_free_count_steps(p5, p6, d, p6.frames()[d as int]);
    }
    release_frame(pmm, e);
    proof {
        allocator::law_free_count_steps(p6, *pmm, e, pmm.frames()[e as int]);
        assert forall|f: int| 0 <= f < p0.frames().len() && f != d && f
            != e implies #[trigger] pmm.frames()[f] == p0.frames()[f] by {
            assert(p1.frames()[f] == p0.frames()[f]);
            assert(p4.frames()[f] == p3.frames()[f]);
        }
        assert(pmm.pool() =~= deferral_checked(p0.pool())) by {
            assert(p3.pool().local == p1.pool().local && p3.pool().global == p1.pool().global);
            assert(pmm.pool().local =~= seq![e] + p4.pool().local);
            assert(pmm.frames() =~= deferral_checked(p0.pool()).frames);
        }
        assert forall|f: int| #[trigger] pmm.free(f) == (p0.free(f) && f != d) by {
            if 0 <= f < p0.frames().len() && f != d && f != e {
                assert(pmm.frames()[f] == p0.frames()[f]);
            }
        }
        assert forall|f: int| #[trigger] pmm.free(f) implies quiet(pmm.frames()[f]) by {
            assert(p0.free(f));
        }
        assert forall|i: int|
            0 <= i < p0.ram_words().len() && !p0.free(i / FRAME_WORDS as int)
                implies #[trigger] pmm.ram_words()[i] == p0.ram_words()[i] by {
            let f = i / FRAME_WORDS as int;
            assert(p1.ram_words()[i] == p0.ram_words()[i]);
            assert(p3.ram_words()[i] == p1.ram_words()[i]);
            assert(!p3.free(f));
            assert(p4.ram_words()[i] == p3.ram_words()[i]);
            assert(p5.ram_words()[i] == p4.ram_words()[i]);
            assert(!p5.free(f));
            assert(p6.ram_words()[i] == p5.ram_words()[i]);
        }
    }
    Ok(d)
}

/// Count a mapping of a frame and take it back.
pub fn mapping_check(pmm: &mut Pmm) -> (r: Result<(), SelfTestError>)
    requires
        old(pmm).wf(),
        pool_quiet(*old(pmm)),
    ensures
        final(pmm).wf(),
        r is Ok <==> old(pmm).free_count() >= 1,
        r is Err ==> r == Err::<(), SelfTestError>(SelfTestError::OutOfFrames),
        r is Ok ==> {
            &&& final(pmm).pool() == mapping_checked(old(pmm).pool())
            &&& only_pool_used(*old(pmm), *final(pmm))
            &&& pool_quiet(*final(pmm))
            &&& final(pmm).free_count() == old(pmm).free_count()
        },
        r is Err ==> *final(pmm) == *old(pmm),
{
    let ghost p0 = *pmm;
    proof {
        lemma_tags();
        lemma_none_free(p0);
        pmm.lemma_wf();
    }
    let m = match alloc_frame(pmm) {
        None => {
            return Err(SelfTestError::OutOfFrames);
        },
        Some(m) => m,
    };
    let ghost p1 = *pmm;
    proof {
        allocator::law_free_count_steps(p0, p1, m, p1.frames()[m as int]);
        assert(quiet(p0.frames()[m as int]));
    }
    if add_mapping(pmm, m) != 1 {
        return Err(SelfTestError::Mismatch);
    }
    let ghost p2 = *pmm;
    if remove_mapping(pmm, m) != 0 {
        return Err(SelfTestError::Mismatch);
    }
    let ghost p3 = *pmm;
    proof {
        allocator::law_free_count_steps(p1, p2, m, p2.frames()[m as int]);
        allocator::law_free_count_steps(p2, p3, m, p3.frames()[m as int]);
    }
    release_frame(pmm, m);
    proof {
        allocator::law_free_count_steps(p3, *pmm, m, pmm.frames()[m as int]);
        lemma_free_owner(p0, m as int);
        assert(pmm.pool() =~= mapping_checked(p0.pool())) by {
            assert(pmm.frames() =~= mapping_checked(p0.pool()).frames);
        }
        assert forall|f: int| 0 <= f < p0.frames().len() && f
            != m implies #[trigger] pmm.frames()[f] == p0.frames()[f] by {
            assert(p1.frames()[f] == p0.frames()[f]);
        }
        assert forall|f: int| #[trigger] pmm.free(f) == p0.free(f) by {
            if 0 <= f < p0.frames().len() && f != m {
                assert(pmm.frames()[f] == p0.frames()[f]);
            }
        }
        assert forall|f: int| #[trigger] pmm.free(f) implies quiet(pmm.frames()[f]) by {
            assert(p0.free(f));
        }
        assert forall|i: int|
            0 <= i < p0.ram_words().len() && !p0.free(i / FRAME_WORDS as int)
                implies #[trigger] pmm.ram_words()[i] == p0.ram_words()[i] by {
            assert(p1.ram_words()[i] == p0.ram_words()[i]);
        }
    }
    Ok(())
}

/// Mapping a frame that is held counts one mapping of it, and takes frames out
/// of the pool only for tables.
proof fn lemma_mapped_once(a: Pmm, b: Pmm, before: Nodes, after: Nodes, f: FrameIndex)
    requires
        a.wf(),
        vmm::mapped_from(a, b, before, after, f),
        process::held(a, before, f as int),
    ensures
        b.frames()[f as int] == a.frames()[f as int].with_mappings(
            frame::wrapping_inc(a.frames()[f as int].mappings()),
        ),
        forall|g: int| #[trigger] b.free(g) ==> a.free(g) && b.frames()[g] == a.frames()[g],
        before.submap_of(after),
        b.free_count() + after.dom().len() == a.free_count() + before.dom().len(),
        before.dom().len() <= after.dom().len(),
        ({
            let q = a.pool().take_heads((after.dom().len() - before.dom().len()) as nat);
            &&& q.frames.len() == a.frames().len()
            &&& q.frames[f as int] == a.frames()[f as int]
            &&& b.pool() == q.with_info(f, b.frames()[f as int])
        }),
{
    let mid = choose|mid: Pmm| #[trigger] vmm::mapped_between(a, mid, b, before, after, f);
    a.lemma_wf();
    process::lemma_grown_untouched(a, mid, before, after);
    lemma_tags();
    assert forall|g: int| #[trigger] b.free(g) implies a.free(g) && b.frames()[g]
        == a.frames()[g] by {
        reveal(page_tree::grown);
        assert(process::held(mid, after, f as int));
        assert(mid.frames()[g] == mid.frames()[g]);
    }
    reveal(page_tree::grown);
    assert(process::held(mid, after, f as int));
    assert(b.free_set() =~= mid.free_set());
}

/// Unmapping a kernel-owned frame counts one mapping less, and changes nothing
/// else but tables.
proof fn lemma_unmapped(a: Pmm, b: Pmm, tables: Nodes, f: FrameIndex)
    requires
        a.wf(),
        b.wf(),
        vmm::unmapped_from(a, b, tables, f),
        f < a.frames().len(),
        a.frames()[f as int].owner() == FrameOwner::of(OwnerTag::Kernel, 0),
        a.frames()[f as int].mappings() == 1,
    ensures
        b.frames() == a.frames().update(f as int, a.frames()[f as int].with_mappings(0)),
        b.ram_words().len() == a.ram_words().len(),
        forall|g: int, j: int|
            process::held(a, tables, g) && 0 <= j < 512 ==> #[trigger] b.ram_words()[g * FRAME_WORDS
                + j] == a.ram_words()[g * FRAME_WORDS + j],
        b.free_count() == a.free_count(),
        b.pool() == a.pool().with_info(f, b.frames()[f as int]),
{
    let mid = choose|mid: Pmm| #[trigger] vmm::unmapped_between(a, mid, b, tables, f);
    a.lemma_wf();
    process::lemma_grown_untouched(a, mid, tables, tables);
    FrameOwner::law_encoding_round_trip(OwnerTag::Kernel, 0);
    allocator::law_free_count_steps(a, b, f, b.frames()[f as int]);
}

/// The tables on the path of page `n`, below the root.
pub open spec fn path_tables(n: int) -> Set<(int, int)> {
    set![(0int, vmm::key_of(n, 0)), (1int, vmm::key_of(n, 1)), (2int, vmm::key_of(n, 2))]
}

/// Tables that have grown by as many as were missing on the path of page `n`,
/// and now reach it, have grown along that path only.
proof fn lemma_grown_along_path(before: PageTable, a: Pmm, after: PageTable, b: Pmm, n: int)
    requires
        before.wf(a),
        after.wf(b),
        before.tables().submap_of(after.tables()),
        0 <= n < vmm::PAGES,
        before.leaf(a, n) is None,
        page_tree::on_path(after.tables(), n, 0),
        after.tables().dom().len() == before.tables().dom().len() + page_tree::missing(
            a.ram_words(),
            before.root_frame(),
            n,
        ),
    ensures
        after.tables().dom() == before.tables().dom().union(path_tables(n)),
{
    let old = before.tables().dom();
    let new = after.tables().dom();
    let k0 = (0int, vmm::key_of(n, 0));
    let k1 = (1int, vmm::key_of(n, 1));
    let k2 = (2int, vmm::key_of(n, 2));
    let d = page_tree::depth(before.tables(), n);
    reveal(page_tree::tree_wf);
    page_tree::lemma_walk(before.root_frame(), before.tables(), a.ram_words(), a.frames(), n);
    page_tree::lemma_walk(after.root_frame(), after.tables(), b.ram_words(), b.frames(), n);
    let s2 = old.insert(k2);
    let s1 = s2.insert(k1);
    let s0 = s1.insert(k0);
    assert(s0 =~= old.union(path_tables(n)));
    assert(s0.subset_of(new)) by {
        assert forall|x: (int, int)| s0.contains(x) implies new.contains(x) by {
            if old.contains(x) {
                assert(before.tables().contains_key(x));
                assert(after.tables().contains_key(x));
            }
        }
    }
    assert(s0.len() >= old.len() + d);
    vstd::set_lib::lemma_len_subset(s0, new);
    vstd::set_lib::lemma_subset_equality(s0, new);
}

/// What [`page_check`] makes of the pool, where `n` tables are missing: the
/// frame that was first has been released once and is first again, and the
/// `n` after it have been taken.
pub open spec fn page_checked(p: Pool, n: nat) -> Pool {
    p.take_head().take_heads(n).release(p.head())
}

/// Of the pool `p` as many frames have been taken as are missing between `a`
/// and `b`.
pub open spec fn some_taken(a: Pmm, b: Pmm, p: Pool) -> bool {
    &&& b.free_count() <= a.free_count()
    &&& b.pool() == p.take_heads((a.free_count() - b.free_count()) as nat)
}

/// Map a frame of the pool at `va`, write to it and read back, unmap it and
/// check that it goes back to the pool.
pub fn page_check(pmm: &mut Pmm, pt: &mut PageTable, va: u64) -> (r: Result<(), SelfTestError>)
    requires
        old(pmm).wf(),
        old(pt).wf(*old(pmm)),
        pool_quiet(*old(pmm)),
        vmm::canonical(va),
        va % 4096 == 0,
        old(pt).translates(*old(pmm), va) is None,
    ensures
        final(pmm).wf(),
        final(pt).wf(*final(pmm)),
        final(pt).root_frame() == old(pt).root_frame(),
        r is Ok <==> old(pmm).free_count() >= 1 + page_tree::missing(
            old(pmm).ram_words(),
            old(pt).root_frame(),
            vmm::page_of(va),
        ),
        r is Err ==> r == Err::<(), SelfTestError>(SelfTestError::OutOfFrames),
        forall|n: int|
            0 <= n < vmm::PAGES ==> #[trigger] final(pt).leaf(*final(pmm), n) == old(pt).leaf(
                *old(pmm),
                n,
            ),
        r is Err ==> some_taken(*old(pmm), *final(pmm), old(pmm).pool()),
        process::untouched(*old(pmm), *final(pmm), old(pt).tables(), final(pt).tables()),
        r is Ok ==> {
            &&& pool_quiet(*final(pmm))
            &&& final(pmm).free_count() + page_tree::missing(
                old(pmm).ram_words(),
                old(pt).root_frame(),
                vmm::page_of(va),
            ) == old(pmm).free_count()
            &&& final(pt).tables().dom() == old(pt).tables().dom().union(
                path_tables(vmm::page_of(va)),
            )
            &&& old(pt).tables().submap_of(final(pt).tables())
            &&& final(pmm).pool() == page_checked(
                old(pmm).pool(),
                page_tree::missing(
                    old(pmm).ram_words(),
                    old(pt).root_frame(),
                    vmm::page_of(va),
                ) as nat,
            )
        },
{
    let ghost p0 = *pmm;
    let ghost pt0 = *pt;
    let ghost n = vmm::page_of(va);
    let ghost nodes0 = pt.tables();
    proof {
        lemma_tags();
        lemma_none_free(p0);
        pmm.lemma_wf();
        assert(pt0.leaf(p0, n) is None);
        page_tree::lemma_grown_refl_wf(pt0.root_frame(), nodes0, p0);
        process::lemma_grown_untouched(p0, p0, nodes0, nodes0);
    }
    let f = match alloc_frame(pmm) {
        None => {
            return Err(SelfTestError::OutOfFrames);
        },
        Some(f) => f,
    };
    let ghost p1 = *pmm;
    proof {
        pmm.lemma_wf();
        allocator::law_free_count_steps(p0, p1, f, p1.frames()[f as int]);
        process::law_allocation_keeps_tables(pt0, p0, p1, f);
        page_tree::lemma_walk(pt0.root_frame(), nodes0, p0.ram_words(), p0.frames(), n);
        page_tree::lemma_walk(pt0.root_frame(), nodes0, p1.ram_words(), p1.frames(), n);
        assert(pt0.leaf(p1, n) == pt0.leaf(p0, n));
        assert(quiet(p0.frames()[f as int]));
        assert(process::held(p1, nodes0, f as int));
    }
    let flags = Flags::present().with(Flags::writable());
    let pa = frame_phys(f);
    match pt.map(pmm, va, pa, flags) {
        Err(e) => {
            proof {
                assert(vmm::mappable(p1, va, pa));
                assert(pt0.translates(p1, va) is None);
                assert(e == vmm::MapError::AllocFailed);
                process::lemma_grown_untouched(p1, *pmm, nodes0, pt.tables());
                process::lemma_untouched_trans(p0, p1, *pmm, nodes0, nodes0, pt.tables());
                reveal(page_tree::grown);
                p0.pool().lemma_take_one();
                p0.pool().lemma_take_heads_add(1, (p1.free_count() - pmm.free_count()) as nat);
                assert forall|m: int| 0 <= m < vmm::PAGES implies #[trigger] pt.leaf(*pmm, m)
                    == pt0.leaf(p0, m) by {
                    assert(pt0.leaf(p1, m) == pt0.leaf(p0, m));
                }
            }
            return Err(SelfTestError::OutOfFrames);
        },
        Ok(()) => {},
    }
    let ghost p2 = *pmm;
    let ghost pt2 = *pt;
    proof {
        use_type_invariant(&flags);
        process::lemma_mapped(p1, p2, nodes0, pt2.tables(), f);
        lemma_mapped_once(p1, p2, nodes0, pt2.tables(), f);
        vmm::law_map_then_translate(pt0, p1, pt2, p2, va, pa, flags, va);
        assert(pt2.leaf(p2, n) is Some);
        page_tree::lemma_walk(pt2.root_frame(), pt2.tables(), p2.ram_words(), p2.frames(), n);
        lemma_grown_along_path(pt0, p1, pt2, p2, n);
    }
    // Write and read through the mapping: at the address that `va` leads to.
    let at = match pt.translate(pmm, va) {
        None => {
            return Err(SelfTestError::Mismatch);
        },
        Some(at) => at,
    };
    if at != pa {
        return Err(SelfTestError::Mismatch);
    }
    let frame = (at / FRAME_SIZE) as FrameIndex;
    let word = (at % FRAME_SIZE / 8) as usize;
    pmm.write_word(frame, word, 0xDEAD_BEEF);
    let ghost p3 = *pmm;
    if pmm.read_word(frame, word) != 0xDEAD_BEEF {
        return Err(SelfTestError::Mismatch);
    }
    proof {
        process::lemma_other_frame(pt2, p2, p3, f);
        assert(pt2.leaf(p3, n) == pt2.leaf(p2, n));
        assert(pt2.mapped_frame(p3, n) == f);
    }
    if pt.unmap(pmm, va).is_err() {
        return Err(SelfTestError::Mismatch);
    }
    let ghost p4 = *pmm;
    let ghost pt4 = *pt;
    proof {
        lemma_unmapped(p3, p4, pt2.tables(), f);
        assert(pt4.leaf(p4, n) is None);
    }
    if pt.translate(pmm, va).is_some() {
        return Err(SelfTestError::Mismatch);
    }
    if frame_info(pmm, f).mappings() != 0 {
        return Err(SelfTestError::Mismatch);
    }
    release_frame(pmm, f);
    if frame_info(pmm, f).owner_tag() != OwnerTag::Free {
        return Err(SelfTestError::Mismatch);
    }
    proof {
        assert(p4.pool() =~= p1.pool().take_heads(
            page_tree::missing(p0.ram_words(), pt0.root_frame(), n) as nat,
        )) by {
            let q = p1.pool().take_heads(
                page_tree::missing(p0.ram_words(), pt0.root_frame(), n) as nat,
            );
            assert(p3.pool() == p2.pool());
            assert(q.frames[f as int] == p1.frames()[f as int]);
            assert(p4.frames() =~= q.frames);
        }
        assert(p3.free_set() =~= p2.free_set());
        allocator::law_free_count_steps(p4, *pmm, f, pmm.frames()[f as int]);
        process::lemma_other_frame(pt4, p4, *pmm, f);
        let p5 = *pmm;
        assert forall|g: int| #[trigger] process::held(p0, nodes0, g) implies process::held(
            p5,
            pt4.tables(),
            g,
        ) && p5.frames()[g] == p0.frames()[g] by {
            assert(process::held(p1, nodes0, g));
            assert(process::held(p2, pt2.tables(), g));
            assert(p4.frames()[g] == p3.frames()[g]);
        }
        assert forall|g: int, j: int|
            process::held(p0, nodes0, g) && 0 <= j < 512 implies #[trigger] p5.ram_words()[g
            * FRAME_WORDS + j] == p0.ram_words()[g * FRAME_WORDS + j] by {
            assert(process::held(p1, nodes0, g));
            assert(process::held(p2, pt2.tables(), g));
            assert(process::held(p3, pt2.tables(), g));
            let w = g * FRAME_WORDS + j;
            assert(w / FRAME_WORDS as int == g);
            assert(p1.ram_words()[w] == p0.ram_words()[w]);
            assert(p2.ram_words()[w] == p1.ram_words()[w]);
            assert(p4.ram_words()[w] == p3.ram_words()[w]);
        }
        assert forall|g: int| #[trigger] p5.free(g) implies quiet(p5.frames()[g]) by {
            if g != f {
                assert(p4.frames()[g] == p3.frames()[g]);
                assert(p2.free(g));
                assert(p1.free(g));
                assert(p0.free(g));
            }
        }
        assert forall|m: int| 0 <= m < vmm::PAGES implies #[trigger] pt.leaf(*pmm, m) == pt0.leaf(
            p0,
            m,
        ) by {
            assert(pt4.leaf(*pmm, m) == pt4.leaf(p4, m));
            assert(pt2.leaf(p3, m) == pt2.leaf(p2, m));
            assert(pt0.leaf(p1, m) == pt0.leaf(p0, m));
        }
    }
    Ok(())
}

/// What [`memory_self_test`] makes of the pool, where the region could grant
/// `grants`, frame `first` before the others: those have been granted, but for
/// `first`, which has been released twice and is the kernel's; the two frames
/// that were first have been released, `x` four times and `y` once, and are
/// first again.
pub open spec fn memory_tested(p: Pool, grants: Set<int>, first: FrameIndex) -> Pool {
    let x = p.head();
    let y = p.take_head().head();
    let rest = p.take_head().take_head();
    Pool {
        frames: Seq::new(
            p.frames.len(),
            |f: int|
                if f == first {
                    p.frames[f].next_gen().next_gen().with_owner(
                        FrameOwner::of(OwnerTag::Kernel, 0),
                    )
                } else if f == x {
                    p.frames[f].next_gen().next_gen().next_gen().next_gen()
                } else if f == y {
                    p.frames[f].next_gen()
                } else if grants.contains(f) {
                    granted(p.frames[f], TEST_DOMAIN)
                } else {
                    p.frames[f]
                },
        ),
        local: seq![x, y] + rest.local,
        global: rest.global,
    }
}

/// Between `a` and `b` every frame that the region could grant was granted,
/// frame `first` before the others, and that one has become the kernel's;
/// every other frame that was not free is as it was.
pub open spec fn memory_checked(a: Pmm, b: Pmm, cap: UntypedCap, first: FrameIndex) -> bool {
    &&& first_grantable(a, cap, first)
    &&& grantable(a, cap).contains(first as int)
    &&& b.pool() == memory_tested(a.pool(), grantable(a, cap), first)
    &&& b.frames().len() == a.frames().len()
    &&& b.ram_words().len() == a.ram_words().len()
    &&& b.physmap_at() == a.physmap_at()
    &&& b.table_at() == a.table_at()
    &&& forall|f: int| #[trigger] b.free(f) == a.free(f)
    &&& b.free_count() == a.free_count()
    &&& b.frames()[first as int] == a.frames()[first as int].next_gen().next_gen().with_owner(
        FrameOwner::of(OwnerTag::Kernel, 0),
    )
    &&& forall|f: int|
        0 <= f < a.frames().len() && !a.free(f) && f != first ==> #[trigger] b.frames()[f] == (
        if grantable(a, cap).contains(f) {
            granted(a.frames()[f], TEST_DOMAIN)
        } else {
            a.frames()[f]
        })
    &&& forall|i: int|
        0 <= i < a.ram_words().len() && !a.free(i / FRAME_WORDS as int) && i / FRAME_WORDS as int
            != first ==> #[trigger] b.ram_words()[i] == a.ram_words()[i]
    &&& pool_quiet(b)
}

/// Exercise the allocator, the untyped region and the deferred release.
/// Returns how many frames were granted, and the first of them, which the
/// kernel keeps.
pub fn memory_self_test(pmm: &mut Pmm, cap: &mut UntypedCap) -> (r: Result<
    (u32, FrameIndex),
    SelfTestError,
>)
    requires
        old(pmm).wf(),
        pool_quiet(*old(pmm)),
        cap_fits(*old(pmm), *old(cap)),
        forall|f: int| #[trigger]
            grantable(*old(pmm), *old(cap)).contains(f) ==> quiet(old(pmm).frames()[f]),
    ensures
        final(pmm).wf(),
        final(cap).id() == old(cap).id(),
        final(cap).base_frame() == old(cap).base_frame(),
        final(cap).num_frames() == old(cap).num_frames(),
        r == Err::<(u32, FrameIndex), SelfTestError>(SelfTestError::OutOfFrames) <==> old(pmm).free_count() < 2,
        r == Err::<(u32, FrameIndex), SelfTestError>(SelfTestError::NoUntyped) <==> old(pmm).free_count() >= 2 && grantable(*old(pmm), *old(cap)).len() == 0,
        r is Ok <==> old(pmm).free_count() >= 2 && grantable(*old(pmm), *old(cap)).len() > 0,
        r matches Ok((count, first)) ==> {
            &&& count == grantable(*old(pmm), *old(cap)).len()
            &&& last_grantable(*old(pmm), *old(cap), final(cap).next_try() - 1)
            &&& memory_checked(*old(pmm), *final(pmm), *old(cap), first)
        },
        r is Err ==> *final(cap) == *old(cap) && rest_kept(*old(pmm), *final(pmm)),
        old(pmm).free_count() < 2 ==> final(pmm).pool() == old(pmm).pool().take_heads(
            old(pmm).free_count(),
        ),
        r == Err::<(u32, FrameIndex), SelfTestError>(SelfTestError::NoUntyped) ==> final(pmm).pool()
            == pool_checked(old(pmm).pool()),
        r != Err::<(u32, FrameIndex), SelfTestError>(SelfTestError::Mismatch),
{
    let ghost p0 = *pmm;
    let ghost cap0 = *cap;
    match pool_check(pmm) {
        Err(e) => {
            return Err(e);
        },
        Ok(()) => {},
    }
    let ghost p1 = *pmm;
    proof {
        lemma_tags();
        FrameOwner::law_encoding_round_trip(OwnerTag::Untyped, cap0.id());
        FrameOwner::law_encoding_round_trip(OwnerTag::Domain, TEST_DOMAIN);
        FrameOwner::law_encoding_round_trip(OwnerTag::Free, 0);
        lemma_grantable_kept(p0, p1, cap0);
        assert forall|f: int| #[trigger] grantable(p1, cap0).contains(f) implies quiet(
            p1.frames()[f],
        ) by {
            assert(grantable(p0, cap0).contains(f));
        }
    }
    let (count, first) = match grant_check(pmm, cap, TEST_DOMAIN) {
        Err(e) => {
            return Err(e);
        },
        Ok(g) => g,
    };
    let ghost p2 = *pmm;
    proof {
        assert(first_grantable(p0, cap0, first)) by {
            let t = choose|t: int|
                0 <= t < cap0.num_frames() && #[trigger] cap0.try_order(t) == first
                    && untyped::untaken(p1, cap0.id(), first as int) && forall|s: int|
                    0 <= s < t ==> !untyped::untaken(p1, cap0.id(), #[trigger] cap0.try_order(s));
            assert forall|s: int| 0 <= s < t implies !untyped::untaken(
                p0,
                cap0.id(),
                #[trigger] cap0.try_order(s),
            ) by {
                cap0.lemma_try_order_covers(s);
                assert(!grantable(p1, cap0).contains(cap0.try_order(s)));
                assert(!grantable(p0, cap0).contains(cap0.try_order(s)));
            }
            assert(cap0.try_order(t) == first);
        }
        lemma_last_grantable_kept(p0, p1, cap0, cap.next_try() - 1);
        assert(grantable(p0, cap0).contains(first as int));
        assert(p1.frames()[first as int] == p0.frames()[first as int]);
        assert forall|f: int| #[trigger] p2.free(f) == (p0.free(f) || f == first) by {
            assert(p1.free(f) == p0.free(f));
            if 0 <= f < p0.frames().len() && f != first {
                if grantable(p1, cap0).contains(f) {
                    assert(p2.frames()[f] == granted(p1.frames()[f], TEST_DOMAIN));
                    assert(!p1.free(f));
                }
            }
        }
        assert forall|f: int| #[trigger] p2.free(f) implies quiet(p2.frames()[f]) by {
            if f != first {
                assert(p1.free(f));
                assert(!grantable(p1, cap0).contains(f));
                assert(p2.frames()[f] == p1.frames()[f]);
            }
        }
        assert(p2.free_set() =~= p1.free_set().insert(first as int)) by {
            assert(forall|f: int| #[trigger] p1.free(f) == p0.free(f));
        }
        p1.lemma_free_count();
        assert(!p1.free(first as int));
        assert(p2.free_count() == p1.free_count() + 1);
    }
    let d = match deferral_check(pmm) {
        Err(e) => {
            return Err(e);
        },
        Ok(d) => d,
    };
    if d != first {
        return Err(SelfTestError::Mismatch);
    }
    let ghost p3 = *pmm;
    match mapping_check(pmm) {
        Err(e) => {
            return Err(e);
        },
        Ok(()) => {},
    }
    proof {
        let p4 = *pmm;
        assert(!p3.free(first as int));
        lemma_memory_tested(p0, p1.pool(), p2.pool(), p3.pool(), grantable(p0, cap0), first);
        assert(p4.frames()[first as int] == p3.frames()[first as int]);
        assert forall|f: int| #[trigger] p4.free(f) == p0.free(f) by {
            assert(p4.free(f) == p3.free(f));
            assert(p2.free(f) == (p0.free(f) || f == first));
        }
        assert forall|f: int|
            0 <= f < p0.frames().len() && !p0.free(f) && f != first implies #[trigger] p4.frames()[f]
            == (if grantable(p0, cap0).contains(f) {
            granted(p0.frames()[f], TEST_DOMAIN)
        } else {
            p0.frames()[f]
        }) by {
            assert(p1.frames()[f] == p0.frames()[f]);
            assert(!p2.free(f));
            assert(p3.frames()[f] == p2.frames()[f]);
            assert(!p3.free(f));
        }
        assert forall|i: int|
            0 <= i < p0.ram_words().len() && !p0.free(i / FRAME_WORDS as int) && i
                / FRAME_WORDS as int != first implies #[trigger] p4.ram_words()[i]
            == p0.ram_words()[i] by {
            let f = i / FRAME_WORDS as int;
            assert(p1.ram_words()[i] == p0.ram_words()[i]);
            assert(p2.ram_words()[i] == p1.ram_words()[i]);
            assert(!p2.free(f));
            assert(p3.ram_words()[i] == p2.ram_words()[i]);
            assert(!p3.free(f));
        }
    }
    Ok((count, first))
}

/// The four checks together make of the pool what [`memory_tested`] says.
proof fn lemma_memory_tested(
    a: Pmm,
    p1: Pool,
    p2: Pool,
    p3: Pool,
    grants: Set<int>,
    first: FrameIndex,
)
    requires
        a.wf(),
        a.free_count() >= 2,
        p1 == pool_checked(a.pool()),
        p2.local == seq![first] + p1.local,
        p2.global == p1.global,
        p2.frames.len() == p1.frames.len(),
        first < p1.frames.len(),
        forall|f: int| grants.contains(f) ==> !a.free(f),
        grants.contains(first as int),
        quiet(a.frames()[first as int]),
        forall|f: int|
            0 <= f < p1.frames.len() ==> #[trigger] p2.frames[f] == (if f == first {
                allocator::released(granted(p1.frames[f], TEST_DOMAIN))
            } else if grants.contains(f) {
                granted(p1.frames[f], TEST_DOMAIN)
            } else {
                p1.frames[f]
            }),
        p3 == deferral_checked(p2),
    ensures
        mapping_checked(p3) == memory_tested(a.pool(), grants, first),
{
    let p0 = a.pool();
    let x = p0.head();
    let y = p0.take_head().head();
    law_first_two_frames_are_free(a);
    let rest = p0.take_head().take_head();
    lemma_tags();
    assert(p2.local[0] == first);
    assert(p2.take_head().local =~= p1.local);
    assert(p1.local =~= seq![x, y] + rest.local);
    assert(p1.local[0] == x);
    assert(p2.take_head().head() == x);
    assert(p2.take_head().take_head().local =~= seq![y] + rest.local);
    assert(p3.local =~= seq![x, y] + rest.local);
    assert(p3.local[0] == x);
    assert(p3.take_head().local =~= seq![y] + rest.local);
    let got = mapping_checked(p3);
    let want = memory_tested(p0, grants, first);
    assert(got.local =~= want.local);
    assert(got.global == want.global);
    assert(got.frames =~= want.frames) by {
        assert forall|f: int| 0 <= f < p0.frames.len() implies got.frames[f] == want.frames[f] by {
            assert(p2.frames[f] == p2.frames[f]);
        }
    }
    assert(got =~= want);
}

/// Where two frames are free, the first two of the pool are different free
/// frames.
pub proof fn law_first_two_frames_are_free(a: Pmm)
    requires
        a.wf(),
        a.free_count() >= 2,
    ensures
        a.pool().has_head(),
        a.pool().take_head().has_head(),
        a.pool().head() != a.pool().take_head().head(),
        a.free(a.pool().head() as int),
        a.free(a.pool().take_head().head() as int),
{
    reveal(Pmm::wf);
    let g = pmm::global_list();
    a.lemma_free_count();
    lemma_none_free(a);
    assert(pmm::links(a.shard_at(0), a.ram_words()));
    assert(pmm::links(a.shard_at(g), a.ram_words()));
    assert(a.list(0).no_duplicates() && a.list(g).no_duplicates());
    let p = a.pool();
    let q = p.take_head();
    assert forall|i: int| 0 <= i < a.list(0).len() implies a.free((#[trigger] a.list(0)[i]) as int)
        && a.home(a.list(0)[i]) == 0 by {}
    assert forall|i: int| 0 <= i < a.list(g).len() implies a.free((#[trigger] a.list(g)[i]) as int)
        && a.home(a.list(g)[i]) == g by {}
    if p.local.len() == 0 {
        assert(p.refilled().local[0] == a.list(g)[0]);
        assert(q.local[0] == a.list(g)[1]);
    } else if p.local.len() == 1 {
        assert(q.local.len() == 0);
        assert(q.refilled().local[0] == a.list(g)[0]);
        assert(p.head() == a.list(0)[0]);
    } else {
        assert(q.local[0] == a.list(0)[1]);
        assert(p.head() == a.list(0)[0]);
    }
}

/// What the pool was used for does not change which frame a region grants
/// last.
proof fn lemma_last_grantable_kept(a: Pmm, b: Pmm, cap: UntypedCap, f: int)
    requires
        only_pool_used(a, b),
        cap_fits(a, cap),
        last_grantable(b, cap, f),
    ensures
        last_grantable(a, cap, f),
{
    lemma_grantable_kept(a, b, cap);
    let t = choose|t: int|
        0 <= t < cap.num_frames() && #[trigger] cap.try_order(t) == f && untyped::untaken(
            b,
            cap.id(),
            f,
        ) && forall|s: int|
            t < s < cap.num_frames() ==> !untyped::untaken(
                b,
                cap.id(),
                #[trigger] cap.try_order(s),
            );
    assert forall|s: int| 0 <= s < cap.num_frames() implies untyped::untaken(
        a,
        cap.id(),
        #[trigger] cap.try_order(s),
    ) == untyped::untaken(b, cap.id(), cap.try_order(s)) by {
        cap.lemma_try_order_covers(s);
        assert(grantable(a, cap).contains(cap.try_order(s)) == grantable(b, cap).contains(
            cap.try_order(s),
        ));
    }
    assert(cap.try_order(t) == f);
}

/// What the pool was used for does not change what a region can grant.
proof fn lemma_grantable_kept(a: Pmm, b: Pmm, cap: UntypedCap)
    requires
        only_pool_used(a, b),
    ensures
        grantable(b, cap) == grantable(a, cap),
{
    FrameOwner::law_encoding_round_trip(OwnerTag::Untyped, cap.id());
    assert forall|f: int| 0 <= f < a.frames().len() implies untyped::untaken(b, cap.id(), f)
        == untyped::untaken(a, cap.id(), f) by {
        assert(a.free(f) == b.free(f));
        if !a.free(f) {
            assert(b.frames()[f] == a.frames()[f]);
        }
    }
    assert(grantable(b, cap) =~= grantable(a, cap));
}

/// Tables that are missing for the first test page.
pub open spec fn first_tables(pt: PageTable, pmm: Pmm) -> nat {
    page_tree::missing(pmm.ram_words(), pt.root_frame(), vmm::page_of(TEST_VA)) as nat
}

/// Tables that are missing for the second test page once those for the first
/// are there.
pub open spec fn second_tables(pt: PageTable, pmm: Pmm) -> nat {
    if page_tree::missing(pmm.ram_words(), pt.root_frame(), vmm::page_of(TEST_VA2)) > 0 {
        1
    } else {
        0
    }
}

/// Frames that the address-space test takes for tables, and keeps.
pub open spec fn test_tables(pt: PageTable, pmm: Pmm) -> nat {
    first_tables(pt, pmm) + second_tables(pt, pmm)
}

/// The tables of `pt` with those on the paths of the test pages.
pub open spec fn with_test_tables(pt: PageTable) -> Set<(int, int)> {
    pt.tables().dom().union(path_tables(vmm::page_of(TEST_VA))).union(
        path_tables(vmm::page_of(TEST_VA2)),
    )
}

/// What [`vmm_self_test`] makes of the pool, where `m` and then `n` tables are
/// missing.
pub open spec fn vmm_tested(p: Pool, m: nat, n: nat) -> Pool {
    page_checked(page_checked(p, m), n)
}

/// Both windows of the kernel address space are where they should be.
pub open spec fn windows_ok(pt: PageTable, pmm: Pmm) -> bool {
    pt.translates(pmm, 0x1000) == Some(0x1000int) && pt.translates(pmm, pmm.physmap_at()) == Some(
        0int,
    )
}

/// The test pages are unmapped.
pub open spec fn test_pages_unmapped(pt: PageTable, pmm: Pmm) -> bool {
    pt.translates(pmm, TEST_VA) is None && pt.translates(pmm, TEST_VA2) is None
}

/// Exercise the kernel address space: look at both windows, then map a frame
/// of the pool at a high address, read and write through it, unmap it and see
/// it return to the pool, at two addresses.
pub fn vmm_self_test(pmm: &mut Pmm, pt: &mut PageTable) -> (r: Result<(), SelfTestError>)
    requires
        old(pmm).wf(),
        old(pt).wf(*old(pmm)),
        pool_quiet(*old(pmm)),
        old(pmm).physmap_at() != 0,
    ensures
        final(pmm).wf(),
        final(pt).wf(*final(pmm)),
        final(pt).root_frame() == old(pt).root_frame(),
        r == Err::<(), SelfTestError>(SelfTestError::IdentityWindow) <==> old(pt).translates(*old(pmm), 0x1000) != Some(0x1000int),
        r == Err::<(), SelfTestError>(SelfTestError::PhysmapWindow) <==> old(pt).translates(*old(pmm), 0x1000) == Some(0x1000int) && !windows_ok(*old(pt), *old(pmm)),
        r == Err::<(), SelfTestError>(SelfTestError::TestPageMapped) <==> windows_ok(
            *old(pt),
            *old(pmm),
        ) && !test_pages_unmapped(*old(pt), *old(pmm)),
        r == Err::<(), SelfTestError>(SelfTestError::OutOfFrames) <==> windows_ok(
            *old(pt),
            *old(pmm),
        ) && test_pages_unmapped(*old(pt), *old(pmm)) && old(pmm).free_count() < 1 + test_tables(
            *old(pt),
            *old(pmm),
        ),
        r != Err::<(), SelfTestError>(SelfTestError::NoUntyped),
        r != Err::<(), SelfTestError>(SelfTestError::Mismatch),
        r is Err && r != Err::<(), SelfTestError>(SelfTestError::OutOfFrames) ==> *final(pmm)
            == *old(pmm) && *final(pt) == *old(pt),
        forall|n: int|
            0 <= n < vmm::PAGES ==> #[trigger] final(pt).leaf(*final(pmm), n) == old(pt).leaf(
                *old(pmm),
                n,
            ),
        process::untouched(*old(pmm), *final(pmm), old(pt).tables(), final(pt).tables()),
        r == Err::<(), SelfTestError>(SelfTestError::OutOfFrames) ==> {
            ||| some_taken(*old(pmm), *final(pmm), old(pmm).pool())
            ||| exists|mid: Pmm|
                mid.pool() == page_checked(old(pmm).pool(), first_tables(*old(pt), *old(pmm)))
                    && #[trigger] some_taken(mid, *final(pmm), mid.pool())
        },
        r is Ok ==> {
            &&& final(pmm).pool() == vmm_tested(
                old(pmm).pool(),
                first_tables(*old(pt), *old(pmm)),
                second_tables(*old(pt), *old(pmm)),
            )
            &&& final(pt).tables().dom() == with_test_tables(*old(pt))
            &&& old(pt).tables().submap_of(final(pt).tables())
            &&& pool_quiet(*final(pmm))
            &&& final(pmm).free_count() + test_tables(*old(pt), *old(pmm)) == old(pmm).free_count()
        },
{
    proof {
        pmm.lemma_wf();
        page_tree::lemma_grown_refl_wf(pt.root_frame(), pt.tables(), *pmm);
        process::lemma_grown_untouched(*pmm, *pmm, pt.tables(), pt.tables());
    }
    if pt.translate(pmm, 0x1000) != Some(0x1000u64) {
        return Err(SelfTestError::IdentityWindow);
    }
    let base = physmap_base(&pmm.physmap);
    if pt.translate(pmm, base) != Some(0u64) {
        return Err(SelfTestError::PhysmapWindow);
    }
    if pt.translate(pmm, TEST_VA).is_some() || pt.translate(pmm, TEST_VA2).is_some() {
        return Err(SelfTestError::TestPageMapped);
    }
    test_pages(pmm, pt)
}

/// Map a frame of the pool at each of the two test addresses, in turn, write
/// and read through it, unmap it and see it return to the pool.
#[verifier::spinoff_prover]
#[verifier::rlimit(40)]
fn test_pages(pmm: &mut Pmm, pt: &mut PageTable) -> (r: Result<(), SelfTestError>)
    requires
        old(pmm).wf(),
        old(pt).wf(*old(pmm)),
        pool_quiet(*old(pmm)),
        test_pages_unmapped(*old(pt), *old(pmm)),
    ensures
        final(pmm).wf(),
        final(pt).wf(*final(pmm)),
        final(pt).root_frame() == old(pt).root_frame(),
        r is Err ==> r == Err::<(), SelfTestError>(SelfTestError::OutOfFrames),
        r is Err <==> old(pmm).free_count() < 1 + test_tables(*old(pt), *old(pmm)),
        forall|n: int|
            0 <= n < vmm::PAGES ==> #[trigger] final(pt).leaf(*final(pmm), n) == old(pt).leaf(
                *old(pmm),
                n,
            ),
        process::untouched(*old(pmm), *final(pmm), old(pt).tables(), final(pt).tables()),
        r is Err ==> {
            ||| some_taken(*old(pmm), *final(pmm), old(pmm).pool())
            ||| exists|mid: Pmm|
                mid.pool() == page_checked(old(pmm).pool(), first_tables(*old(pt), *old(pmm)))
                    && #[trigger] some_taken(mid, *final(pmm), mid.pool())
        },
        r is Ok ==> {
            &&& final(pmm).pool() == vmm_tested(
                old(pmm).pool(),
                first_tables(*old(pt), *old(pmm)),
                second_tables(*old(pt), *old(pmm)),
            )
            &&& final(pt).tables().dom() == with_test_tables(*old(pt))
            &&& old(pt).tables().submap_of(final(pt).tables())
            &&& pool_quiet(*final(pmm))
            &&& final(pmm).free_count() + test_tables(*old(pt), *old(pmm)) == old(pmm).free_count()
        },
{
    let ghost p0 = *pmm;
    let ghost pt0 = *pt;
    let ghost n1 = vmm::page_of(TEST_VA);
    let ghost n2 = vmm::page_of(TEST_VA2);
    proof {
        assert(n1 == 0x9_0000_0000 && n2 == n1 + 512);
        assert(pt0.leaf(p0, n1) is None && pt0.leaf(p0, n2) is None);
        assert(vmm::canonical(TEST_VA) && vmm::canonical(TEST_VA2));
        assert(page_tree::missing(p0.ram_words(), pt0.root_frame(), n2) >= 0);
    }
    match page_check(pmm, pt, TEST_VA) {
        Err(e) => {
            return Err(e);
        },
        Ok(()) => {},
    }
    let ghost p1 = *pmm;
    let ghost pt1 = *pt;
    proof {
        assert(pt1.leaf(p1, n2) == pt0.leaf(p0, n2));
        lemma_second_table(pt0, p0, pt1, p1);
    }
    match page_check(pmm, pt, TEST_VA2) {
        Err(e) => {
            proof {
                assert(some_taken(p1, *pmm, p1.pool()));
                process::lemma_untouched_trans(
                    p0,
                    p1,
                    *pmm,
                    pt0.tables(),
                    pt1.tables(),
                    pt.tables(),
                );
                assert forall|m: int| 0 <= m < vmm::PAGES implies #[trigger] pt.leaf(*pmm, m)
                    == pt0.leaf(p0, m) by {
                    assert(pt1.leaf(p1, m) == pt0.leaf(p0, m));
                }
            }
            return Err(e);
        },
        Ok(()) => {},
    }
    proof {
        process::lemma_untouched_trans(
            p0,
            p1,
            *pmm,
            pt0.tables(),
            pt1.tables(),
            pt.tables(),
        );
        assert forall|x: (int, int)| pt0.tables().contains_key(x) implies pt.tables().contains_key(
            x,
        ) && #[trigger] pt0.tables()[x] == pt.tables()[x] by {
            assert(pt0.tables().dom().contains(x));
            assert(pt1.tables().dom().contains(x));
            assert(pt.tables().dom().contains(x));
        }
        assert forall|m: int| 0 <= m < vmm::PAGES implies #[trigger] pt.leaf(*pmm, m) == pt0.leaf(
            p0,
            m,
        ) by {
            assert(pt1.leaf(p1, m) == pt0.leaf(p0, m));
        }
    }
    Ok(())
}

/// Once the tables reach the first test page, at most the last table is
/// missing for the second, and it is if it was before.
#[verifier::spinoff_prover]
proof fn lemma_second_table(before: PageTable, a: Pmm, after: PageTable, b: Pmm)
    requires
        before.wf(a),
        after.wf(b),
        before.leaf(a, vmm::page_of(TEST_VA2)) is None,
        after.leaf(b, vmm::page_of(TEST_VA2)) is None,
        after.tables().dom() == before.tables().dom().union(path_tables(vmm::page_of(TEST_VA))),
    ensures
        page_tree::missing(b.ram_words(), after.root_frame(), vmm::page_of(TEST_VA2)) == (
        if page_tree::missing(a.ram_words(), before.root_frame(), vmm::page_of(TEST_VA2)) > 0 {
            1int
        } else {
            0int
        }),
{
    let n1 = 0x9_0000_0000int;
    let n2 = n1 + 512;
    assert(vmm::page_of(TEST_VA) == n1 && vmm::page_of(TEST_VA2) == n2);
    page_tree::lemma_walk(before.root_frame(), before.tables(), a.ram_words(), a.frames(), n2);
    page_tree::lemma_walk(after.root_frame(), after.tables(), b.ram_words(), b.frames(), n2);
    let k = vmm::key_of(n1, 1);
    assert(vmm::key_of(n2, 1) == k);
    assert(vmm::key_of(n2, 0) == vmm::key_of(n1, 0) + 1);
    assert(path_tables(n1).contains((1int, k)));
    assert(after.tables().dom().contains((1int, k)));
    assert(after.tables().contains_key((0int, vmm::key_of(n2, 0))) <==> before.tables().contains_key(
        (0int, vmm::key_of(n2, 0)),
    ));
}

/// What the memory test does leaves a page table as it is: its tables are in
/// the kernel's frames.
proof fn lemma_memory_test_keeps_table(
    pt: PageTable,
    a: Pmm,
    b: Pmm,
    cap: UntypedCap,
    first: FrameIndex,
)
    requires
        pt.wf(a),
        a.wf(),
        memory_checked(a, b, cap, first),
    ensures
        pt.wf(b),
        forall|n: int| 0 <= n < vmm::PAGES ==> #[trigger] pt.leaf(b, n) == pt.leaf(a, n),
        !page_tree::uses(pt.tables(), first as int),
        windows_ok(pt, b) == windows_ok(pt, a),
        pt.translates(b, 0x1000) == pt.translates(a, 0x1000),
        test_pages_unmapped(pt, b) == test_pages_unmapped(pt, a),
        test_pages_unmapped(pt, a) ==> first_tables(pt, b) == first_tables(pt, a)
            && second_tables(pt, b) == second_tables(pt, a),
{
    a.lemma_wf();
    let nodes = pt.tables();
    FrameOwner::law_encoding_round_trip(OwnerTag::Kernel, 0);
    FrameOwner::law_encoding_round_trip(OwnerTag::Untyped, cap.id());
    assert forall|x: (int, int)| nodes.contains_key(x) implies (#[trigger] nodes[x]) != first
        && b.frames()[nodes[x] as int].owner() == FrameOwner::of(OwnerTag::Kernel, 0) && !a.free(
        nodes[x] as int,
    ) && nodes[x] < a.frames().len() by {
        page_tree::lemma_node(pt.root_frame(), nodes, a.ram_words(), a.frames(), x.0, x.1, 0);
        assert(!grantable(a, cap).contains(nodes[x] as int));
    }
    assert forall|x: (int, int), j: int|
        nodes.contains_key(x) && 0 <= j < 512 implies #[trigger] page_tree::entry(
        b.ram_words(),
        nodes[x],
        j,
    ) == page_tree::entry(a.ram_words(), nodes[x], j) by {
        let w = nodes[x] as int * FRAME_WORDS + j;
        assert(w / FRAME_WORDS as int == nodes[x]);
        assert(b.ram_words()[w] == a.ram_words()[w]);
    }
    page_tree::lemma_tree_frame(
        pt.root_frame(),
        nodes,
        a.ram_words(),
        a.frames(),
        b.ram_words(),
        b.frames(),
    );
    let n1 = vmm::page_of(TEST_VA);
    let n2 = vmm::page_of(TEST_VA2);
    assert(pt.leaf(b, n1) == pt.leaf(a, n1));
    assert(pt.leaf(b, n2) == pt.leaf(a, n2));
    assert(pt.leaf(b, vmm::page_of(0x1000)) == pt.leaf(a, vmm::page_of(0x1000)));
    let base = a.physmap_at();
    assert(pt.leaf(b, vmm::page_of(base)) == pt.leaf(a, vmm::page_of(base)));
    page_tree::lemma_walk(pt.root_frame(), nodes, a.ram_words(), a.frames(), n1);
    page_tree::lemma_walk(pt.root_frame(), nodes, b.ram_words(), b.frames(), n1);
    page_tree::lemma_walk(pt.root_frame(), nodes, a.ram_words(), a.frames(), n2);
    page_tree::lemma_walk(pt.root_frame(), nodes, b.ram_words(), b.frames(), n2);
}

/// The memory self-test can run: the pool has two frames, and the region has
/// one to grant.
pub open spec fn memory_testable(pmm: Pmm, cap: UntypedCap) -> bool {
    pmm.free_count() >= 2 && grantable(pmm, cap).len() > 0
}

/// Exercise the allocator, the untyped region, the deferred release and the
/// kernel address space. Returns how many frames the region granted.
pub fn self_test(pmm: &mut Pmm, pt: &mut PageTable, cap: &mut UntypedCap) -> (r: Result<
    u32,
    SelfTestError,
>)
    requires
        old(pmm).wf(),
        old(pt).wf(*old(pmm)),
        pool_quiet(*old(pmm)),
        old(pmm).physmap_at() != 0,
        cap_fits(*old(pmm), *old(cap)),
        forall|f: int| #[trigger]
            grantable(*old(pmm), *old(cap)).contains(f) ==> quiet(old(pmm).frames()[f]),
    ensures
        final(pmm).wf(),
        final(pt).wf(*final(pmm)),
        final(pt).root_frame() == old(pt).root_frame(),
        forall|n: int|
            0 <= n < vmm::PAGES ==> #[trigger] final(pt).leaf(*final(pmm), n) == old(pt).leaf(
                *old(pmm),
                n,
            ),
        !memory_testable(*old(pmm), *old(cap)) ==> rest_kept(*old(pmm), *final(pmm)),
        memory_testable(*old(pmm), *old(cap)) ==> exists|mid: Pmm, first: FrameIndex|
            memory_checked(*old(pmm), mid, *old(cap), first) && #[trigger] pages_checked(
                mid,
                *final(pmm),
                *old(pt),
                *final(pt),
                first,
            ),
        r != Err::<u32, SelfTestError>(SelfTestError::Mismatch),
        r == Err::<u32, SelfTestError>(SelfTestError::NoUntyped) ==> final(pmm).pool()
            == pool_checked(old(pmm).pool()) && *final(cap) == *old(cap) && *final(pt) == *old(pt),
        r == Err::<u32, SelfTestError>(SelfTestError::NoUntyped) <==> old(pmm).free_count() >= 2
            && grantable(*old(pmm), *old(cap)).len() == 0,
        r == Err::<u32, SelfTestError>(SelfTestError::IdentityWindow) <==> memory_testable(
            *old(pmm),
            *old(cap),
        ) && old(pt).translates(*old(pmm), 0x1000) != Some(0x1000int),
        r == Err::<u32, SelfTestError>(SelfTestError::PhysmapWindow) <==> memory_testable(
            *old(pmm),
            *old(cap),
        ) && old(pt).translates(*old(pmm), 0x1000) == Some(0x1000int) && !windows_ok(*old(pt), *old(pmm)),
        r == Err::<u32, SelfTestError>(SelfTestError::TestPageMapped) <==> memory_testable(
            *old(pmm),
            *old(cap),
        ) && windows_ok(*old(pt), *old(pmm)) && !test_pages_unmapped(*old(pt), *old(pmm)),
        r == Err::<u32, SelfTestError>(SelfTestError::OutOfFrames) <==> old(pmm).free_count() < 2
            || memory_testable(*old(pmm), *old(cap)) && windows_ok(*old(pt), *old(pmm))
            && test_pages_unmapped(*old(pt), *old(pmm)) && old(pmm).free_count() < 1 + test_tables(
            *old(pt),
            *old(pmm),
        ),
        r matches Ok(count) ==> {
            &&& count == grantable(*old(pmm), *old(cap)).len()
            &&& final(pmm).free_count() + test_tables(*old(pt), *old(pmm)) == old(pmm).free_count()
            &&& pool_quiet(*final(pmm))
            &&& final(pt).tables().dom() == with_test_tables(*old(pt))
            &&& old(pt).tables().submap_of(final(pt).tables())
            &&& exists|first: FrameIndex| #[trigger]
                all_checked(*old(pmm), *final(pmm), *old(cap), *old(pt), first)
        },
        r == Err::<u32, SelfTestError>(SelfTestError::IdentityWindow) || r == Err::<
            u32,
            SelfTestError,
        >(SelfTestError::PhysmapWindow) || r == Err::<u32, SelfTestError>(
            SelfTestError::TestPageMapped,
        ) ==> *final(pt) == *old(pt) && exists|first: FrameIndex| #[trigger]
            memory_checked(*old(pmm), *final(pmm), *old(cap), first),
        final(cap).id() == old(cap).id(),
        final(cap).base_frame() == old(cap).base_frame(),
        final(cap).num_frames() == old(cap).num_frames(),
        memory_testable(*old(pmm), *old(cap)) ==> last_grantable(
            *old(pmm),
            *old(cap),
            final(cap).next_try() - 1,
        ),
        !memory_testable(*old(pmm), *old(cap)) ==> *final(cap) == *old(cap) && *final(pt)
            == *old(pt),
        old(pmm).free_count() < 2 ==> final(pmm).pool() == old(pmm).pool().take_heads(
            old(pmm).free_count(),
        ),
{
    let ghost p0 = *pmm;
    let ghost pt0 = *pt;
    let ghost cap0 = *cap;
    let (count, first) = match memory_self_test(pmm, cap) {
        Err(e) => {
            proof {
                lemma_rest_keeps_table(pt0, p0, *pmm);
            }
            return Err(e);
        },
        Ok(g) => g,
    };
    let ghost p1 = *pmm;
    proof {
        lemma_memory_test_keeps_table(pt0, p0, p1, cap0, first);
    }
    let tested = vmm_self_test(pmm, pt);
    proof {
        assert(pages_checked(p1, *pmm, pt0, *pt, first));
        assert forall|n: int| 0 <= n < vmm::PAGES implies #[trigger] pt.leaf(*pmm, n) == pt0.leaf(
            p0,
            n,
        ) by {
            assert(pt0.leaf(p1, n) == pt0.leaf(p0, n));
        }
    }
    match tested {
        Err(e) => {
            return Err(e);
        },
        Ok(()) => {},
    }
    proof {
        let p2 = *pmm;
        lemma_tags();
        FrameOwner::law_encoding_round_trip(OwnerTag::Kernel, 0);
        FrameOwner::law_encoding_round_trip(OwnerTag::Untyped, cap0.id());
        assert forall|f: int|
            process::held(p0, pt0.tables(), f) implies #[trigger] p2.frames()[f] == p1.frames()[f]
            by {
            assert(p1.free(f) == p0.free(f));
            assert(process::held(p1, pt0.tables(), f));
        }
        assert(process::held(p0, pt0.tables(), first as int));
        assert forall|g: int, j: int|
            process::held(p0, pt0.tables(), g) && g != first && 0 <= j
                < 512 implies #[trigger] p2.ram_words()[g * FRAME_WORDS + j] == p0.ram_words()[g
            * FRAME_WORDS + j] by {
            p0.lemma_wf();
            assert(p1.free(g) == p0.free(g));
            assert(process::held(p1, pt0.tables(), g));
            let w = g * FRAME_WORDS + j;
            assert(w / FRAME_WORDS as int == g);
            assert(p1.ram_words()[w] == p0.ram_words()[w]);
        }
        assert(all_checked(p0, p2, cap0, pt0, first));
    }
    Ok(count)
}

/// The test of the address space, which follows the memory test that granted
/// `first`, leaves alone every frame that is neither free nor a table.
pub open spec fn pages_checked(
    a: Pmm,
    b: Pmm,
    before: PageTable,
    after: PageTable,
    first: FrameIndex,
) -> bool {
    &&& process::untouched(a, b, before.tables(), after.tables())
    &&& process::held(a, before.tables(), first as int)
}

/// What the self-test leaves: every frame that the region could grant has
/// been granted, but for the first, which the kernel has now; the frames that
/// were first in the pool have been used, and some taken for tables; every
/// other frame that was neither free nor a table is as it was.
pub open spec fn all_checked(
    a: Pmm,
    b: Pmm,
    cap: UntypedCap,
    pt: PageTable,
    first: FrameIndex,
) -> bool {
    &&& first_grantable(a, cap, first)
    &&& b.pool() == vmm_tested(
        memory_tested(a.pool(), grantable(a, cap), first),
        first_tables(pt, a),
        second_tables(pt, a),
    )
    &&& b.frames().len() == a.frames().len()
    &&& b.frames()[first as int].owner() == FrameOwner::of(OwnerTag::Kernel, 0)
    &&& forall|f: int|
        process::held(a, pt.tables(), f) && f != first ==> #[trigger] b.frames()[f] == (
        if grantable(a, cap).contains(f) {
            granted(a.frames()[f], TEST_DOMAIN)
        } else {
            a.frames()[f]
        })
    &&& forall|g: int, j: int|
        process::held(a, pt.tables(), g) && g != first && 0 <= j < 512
            ==> #[trigger] b.ram_words()[g * FRAME_WORDS + j] == a.ram_words()[g * FRAME_WORDS + j]
}

/// The checks of the pool give back what they take: the frames that came first
/// come first again, in the same order, under the same owners, and are
/// released more often than before; no other frame is touched.
pub proof fn law_pool_checks_give_back(p: Pool, f: int)
    requires
        p.has_head(),
        p.take_head().has_head(),
        p.head() != p.take_head().head(),
        0 <= f < p.frames.len(),
        p.head() < p.frames.len(),
        p.take_head().head() < p.frames.len(),
    ensures
        ({
            let a = p.head();
            let b = p.take_head().head();
            let q = pool_checked(p);
            &&& q.has_head() && q.head() == a
            &&& q.take_head().has_head() && q.take_head().head() == b
            &&& q.frames[f].owner() == p.frames[f].owner()
            &&& q.frames[f].pinned() == p.frames[f].pinned()
            &&& q.frames[f].mappings() == p.frames[f].mappings()
            &&& q.frames[a as int].gen() as int == (p.frames[a as int].gen() + 2) % 0x1_0000_0000
            &&& q.frames[b as int].gen() as int == (p.frames[b as int].gen() + 1) % 0x1_0000_0000
            &&& f != a && f != b ==> q.frames[f] == p.frames[f]
        }),
        ({
            let m = p.head();
            let q = mapping_checked(p);
            &&& q.has_head() && q.head() == m
            &&& q.frames[f].owner() == p.frames[f].owner()
            &&& q.frames[m as int].gen() as int == (p.frames[m as int].gen() + 1) % 0x1_0000_0000
            &&& f != m ==> q.frames[f] == p.frames[f]
        }),
{
    let q = pool_checked(p);
    assert(q.local[0] == p.head());
    assert(q.take_head().local[0] == p.take_head().head());
    assert(mapping_checked(p).local[0] == p.head());
}

/// A frame that was pinned while it was released comes back with its last pin:
/// the check takes one frame out of the pool for good, and the one behind it
/// comes first.
pub proof fn law_deferral_check_keeps_one_frame(p: Pool, f: int)
    requires
        p.has_head(),
        p.take_head().has_head(),
        p.head() != p.take_head().head(),
        0 <= f < p.frames.len(),
        p.head() < p.frames.len(),
        p.take_head().head() < p.frames.len(),
    ensures
        ({
            let d = p.head();
            let e = p.take_head().head();
            let q = deferral_checked(p);
            &&& q.has_head() && q.head() == e
            &&& q.frames[d as int].owner_tag() == OwnerTag::Kernel
            &&& q.frames[d as int].gen() as int == (p.frames[d as int].gen() + 1) % 0x1_0000_0000
            &&& q.frames[e as int].owner() == p.frames[e as int].owner()
            &&& f != d && f != e ==> q.frames[f] == p.frames[f]
            &&& waiting(p).frames[d as int].owner_tag() == OwnerTag::Pending
            &&& waiting(p).frames[d as int].pinned() == 1
        }),
{
    FrameOwner::law_encoding_round_trip(OwnerTag::Kernel, 0);
    FrameOwner::law_encoding_round_trip(OwnerTag::Pending, 0);
    assert(deferral_checked(p).local[0] == p.take_head().head());
}

/// A region can grant the frames that it covers and that are still its own.
pub proof fn law_region_grants_its_own(pmm: Pmm, cap: UntypedCap, f: int)
    requires
        pmm.wf(),
    ensures
        grantable(pmm, cap).contains(f) <==> 0 <= f < pmm.frames().len() && cap.base_frame() <= f
            < cap.base_frame() + cap.num_frames() && pmm.frames()[f].owner_tag()
            == OwnerTag::Untyped && pmm.frames()[f].owner().id() == cap.id(),
        0 <= f < pmm.frames().len() ==> granted(pmm.frames()[f], TEST_DOMAIN).owner_tag()
            == OwnerTag::Domain && granted(pmm.frames()[f], TEST_DOMAIN).owner().id() == 7,
{
    reveal(Pmm::wf);
    FrameOwner::law_encoding_round_trip(OwnerTag::Untyped, cap.id());
    FrameOwner::law_encoding_round_trip(OwnerTag::Domain, TEST_DOMAIN);
    if 0 <= f < pmm.frames().len() {
        assert(pmm.frames()[f].owner().valid());
        FrameOwner::law_valid_owner_is_determined(pmm.frames()[f].owner());
    }
}

/// The test pages of the address space need four tables at most: three for the
/// first, and one more for the second, which is under the next.
pub proof fn law_test_pages_need_four_tables(pt: PageTable, pmm: Pmm)
    ensures
        test_tables(pt, pmm) <= 4,
        vmm::page_of(TEST_VA2) == vmm::page_of(TEST_VA) + 512,
        vmm::key_of(vmm::page_of(TEST_VA2), 1) == vmm::key_of(vmm::page_of(TEST_VA), 1),
{
}

} // verus!
