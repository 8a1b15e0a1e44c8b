//! Untyped memory: physical ranges from which frames are granted to domains.

use crate::allocator;
use crate::arch::{frame_phys, FRAME_SIZE};
use crate::frame::{self, frame_info, try_set_owner, DomainId, FrameIndex, FrameOwner, OwnerTag, UntypedId};
use crate::pmm::Pmm;
use vstd::prelude::*;

verus! {

/// A chunk of raw physical memory from which typed objects (frames, page
/// tables, endpoints) can be retyped.
///
/// The covered frames carry the owner `Untyped(id)`; retyping moves one from
/// `Untyped` to `Domain`. All caps covering the same region share the same
/// id. Splitting a cap is pure bookkeeping and touches no frame.
pub struct UntypedCap {
    /// Region id stamped into the covered frames' owner field.
    pub(crate) id: UntypedId,
    pub(crate) base_frame: FrameIndex,
    pub(crate) num_frames: u32,
    /// Hint for the next frame to try during retype. Only an optimization:
    /// what decides is the owner of each frame.
    pub(crate) cursor: u32,
}

impl UntypedCap {
    /// The covered frames have indices, and the hint is among them or right
    /// behind the last.
    #[verifier::type_invariant]
    pub open(crate) spec fn valid(self) -> bool {
        &&& self.base_frame + self.num_frames <= u32::MAX
        &&& self.base_frame <= self.cursor <= self.base_frame + self.num_frames
    }

    pub open(crate) spec fn id_spec(&self) -> UntypedId {
        self.id
    }

    pub open(crate) spec fn base_frame_spec(&self) -> FrameIndex {
        self.base_frame
    }

    pub open(crate) spec fn num_frames_spec(&self) -> u32 {
        self.num_frames
    }

    /// The frame that the next retype tries first.
    pub open(crate) spec fn next_try(&self) -> FrameIndex {
        self.cursor
    }

    /// True if `frame` is one of the covered frames.
    pub open spec fn covers(&self, frame: int) -> bool {
        self.base_frame() <= frame < self.base_frame() + self.num_frames()
    }

    /// The `t`th frame that the next retype tries: the covered frames in
    /// order from the hint on, then from the first one up to it.
    pub open spec fn try_order(&self, t: int) -> int {
        self.base_frame() + (self.next_try() - self.base_frame() + t) % self.num_frames() as int
    }

    /// A frame that a retype tries is covered.
    pub proof fn lemma_try_order_covers(&self, t: int)
        requires
            self.num_frames() > 0,
        ensures
            self.covers(self.try_order(t)),
    {
        let d = self.next_try() - self.base_frame() + t;
        vstd::arithmetic::div_mod::lemma_mod_bound(d, self.num_frames() as int);
    }

    /// A retype tries each frame once.
    pub proof fn lemma_try_order_distinct(&self, s: int, t: int)
        requires
            0 <= s < t < self.num_frames(),
        ensures
            self.try_order(s) != self.try_order(t),
    {
        let n = self.num_frames() as int;
        let x = self.next_try() - self.base_frame() + s;
        let y = self.next_try() - self.base_frame() + t;
        vstd::arithmetic::div_mod::lemma_fundamental_div_mod(x, n);
        vstd::arithmetic::div_mod::lemma_fundamental_div_mod(y, n);
        if x % n == y % n {
            let d = y / n - x / n;
            assert(n * (y / n) - n * (x / n) == n * d) by (nonlinear_arith)
                requires
                    d == y / n - x / n,
            ;
            assert(n * d == t - s);
            assert(false) by (nonlinear_arith)
                requires
                    n * d == t - s,
                    0 < t - s < n,
            ;
        }
    }

    /// A retype goes on behind the frame that the one before it took.
    pub proof fn lemma_try_order_continues(&self, next: UntypedCap, t: int, s: int)
        requires
            self.num_frames() > 0,
            next.base_frame() == self.base_frame(),
            next.num_frames() == self.num_frames(),
            next.next_try() == self.try_order(t) + 1,
        ensures
            next.try_order(s) == self.try_order(t + 1 + s),
            self.try_order(s) == self.try_order(s - self.num_frames()),
    {
        let n = self.num_frames() as int;
        let x = self.next_try() - self.base_frame() + t;
        vstd::arithmetic::div_mod::lemma_fundamental_div_mod(x, n);
        vstd::arithmetic::div_mod::lemma_mod_multiples_vanish(x / n, x % n + 1 + s, n);
        vstd::arithmetic::div_mod::lemma_mod_sub_multiples_vanish(
            self.next_try() - self.base_frame() + s,
            n,
        );
    }

    /// A cap for the `num_frames` frames from `base_frame` on.
    pub fn new(id: UntypedId, base_frame: FrameIndex, num_frames: u32) -> (r: UntypedCap)
        requires
            base_frame + num_frames <= u32::MAX,
        ensures
            r.id() == id,
            r.base_frame() == base_frame,
            r.num_frames() == num_frames,
            r.next_try() == base_frame,
    {
        UntypedCap { id, base_frame, num_frames, cursor: base_frame }
    }

    /// Id of the region.
    #[verifier::when_used_as_spec(id_spec)]
    pub fn id(&self) -> (r: UntypedId)
        ensures
            r == self.id(),
    {
        self.id
    }

    /// The first covered frame.
    #[verifier::when_used_as_spec(base_frame_spec)]
    pub fn base_frame(&self) -> (r: FrameIndex)
        ensures
            r == self.base_frame(),
    {
        self.base_frame
    }

    /// Number of covered frames.
    #[verifier::when_used_as_spec(num_frames_spec)]
    pub fn num_frames(&self) -> (r: u32)
        ensures
            r == self.num_frames(),
    {
        self.num_frames
    }

    /// Physical address of the first covered byte.
    pub fn base_phys(&self) -> (r: u64)
        ensures
            r == self.base_frame() * FRAME_SIZE,
    {
        frame_phys(self.base_frame)
    }

    /// Physical address behind the last covered byte.
    pub fn end_phys(&self) -> (r: u64)
        ensures
            r == (self.base_frame() + self.num_frames()) * FRAME_SIZE,
            r == self.base_frame() * 4096 + self.num_frames() * 4096,
    {
        proof {
            use_type_invariant(self);
        }
        frame_phys(self.base_frame) + (self.num_frames as u64) * FRAME_SIZE
    }

    /// Split this cap into two covering the first `split_len` bytes and the
    /// remainder. Both result caps keep the same region id.
    pub fn split(&self, split_len: u64) -> (r: Result<(UntypedCap, UntypedCap), &'static str>)
        ensures
            r is Ok <==> 0 < split_len < self.num_frames() * FRAME_SIZE && split_len % FRAME_SIZE
                == 0,
            r matches Err(e) ==> e@ == (if split_len == 0 || split_len % FRAME_SIZE != 0 {
                "split length must be a nonzero multiple of the frame size"@
            } else {
                "split length must leave a nonempty remainder"@
            }),
            r matches Ok((a, b)) ==> {
                &&& a.id() == self.id()
                &&& b.id() == self.id()
                &&& a.base_frame() == self.base_frame()
                &&& a.num_frames() == split_len / FRAME_SIZE
                &&& b.base_frame() == self.base_frame() + split_len / FRAME_SIZE
                &&& b.num_frames() == self.num_frames() - split_len / FRAME_SIZE
                &&& a.next_try() == a.base_frame()
                &&& b.next_try() == b.base_frame()
                &&& a.num_frames() * 4096 == split_len
                &&& a.num_frames() + b.num_frames() == self.num_frames()
                &&& a.base_frame() + a.num_frames() == b.base_frame()
            },
            r is Ok <==> split_len as int % 4096 == 0 && 4096 <= split_len <= (self.num_frames()
                - 1) * 4096,
    {
        proof {
            use_type_invariant(self);
        }
        if split_len == 0 || split_len % FRAME_SIZE != 0 {
            return Err("split length must be a nonzero multiple of the frame size");
        }
        let split_frames = split_len / FRAME_SIZE;
        if split_frames >= self.num_frames as u64 {
            return Err("split length must leave a nonempty remainder");
        }
        let a = UntypedCap::new(self.id, self.base_frame, split_frames as u32);
        let b = UntypedCap::new(
            self.id,
            self.base_frame + split_frames as u32,
            self.num_frames - split_frames as u32,
        );
        Ok((a, b))
    }
}

/// Why a retype failed.
#[derive(Clone, Copy, Debug, PartialEq, Eq, Structural)]
pub enum RetypeError {
    /// The region has no remaining untaken frames.
    Exhausted,
}

/// True if `frame` has not been granted out of untyped region `id` yet.
pub open spec fn untaken(pmm: Pmm, id: UntypedId, frame: int) -> bool {
    pmm.frames()[frame].owner() == FrameOwner::of(OwnerTag::Untyped, id)
}

/// Retype the next free frame covered by `cap` into a frame owned by
/// `domain`.
pub fn retype_frame(pmm: &mut Pmm, cap: &mut UntypedCap, domain: DomainId) -> (r: Result<
    FrameIndex,
    RetypeError,
>)
    requires
        old(pmm).wf(),
        old(cap).num_frames() > 0 ==> old(cap).base_frame() + old(cap).num_frames() <= old(pmm).frames().len(),
    ensures
        final(pmm).wf(),
        final(cap).id() == old(cap).id(),
        final(cap).base_frame() == old(cap).base_frame(),
        final(cap).num_frames() == old(cap).num_frames(),
        r is Err <==> forall|f: int| #[trigger] old(cap).covers(f) ==> !untaken(*old(pmm), old(cap).id(), f),
        r is Err ==> *final(pmm) == *old(pmm) && *final(cap) == *old(cap),
        r matches Ok(frame) ==> {
            &&& untaken(*old(pmm), old(cap).id(), frame as int)
            &&& exists|t: int|
                0 <= t < old(cap).num_frames() && #[trigger] old(cap).try_order(t) == frame
                    && forall|s: int|
                    0 <= s < t ==> !untaken(
                        *old(pmm),
                        old(cap).id(),
                        #[trigger] old(cap).try_order(s),
                    )
            &&& final(pmm).frames() == old(pmm).frames().update(
                frame as int,
                old(pmm).frames()[frame as int].with_owner(FrameOwner::of(OwnerTag::Domain, domain)),
            )
            &&& frame::same_lists_and_ram(*old(pmm), *final(pmm))
            &&& final(cap).next_try() == frame + 1
            &&& final(cap).try_order(final(cap).num_frames() - 1) == frame
        },
{
    proof {
        use_type_invariant(&*cap);
        pmm.lemma_wf();
    }
    let ghost base = cap.base_frame as int;
    let ghost num = cap.num_frames as int;
    let ghost first = cap.cursor as int;
    let end = cap.base_frame + cap.num_frames;
    let mut idx = cap.cursor;
    let mut tried: u32 = 0;
    while tried < cap.num_frames
        invariant
            *pmm == *old(pmm),
            *cap == *old(cap),
            pmm.wf(),
            cap.valid(),
            base == cap.base_frame,
            num == cap.num_frames,
            first == cap.cursor,
            end == base + num,
            tried <= num,
            num > 0 ==> end <= pmm.frames().len() <= u32::MAX,
            idx <= end,
            base <= idx,
            idx == first + tried || idx == first + tried - num,
            forall|s: int|
                0 <= s < tried ==> !untaken(*pmm, cap.id(), #[trigger] cap.try_order(s)),
        decreases num - tried,
    {
        if idx >= end {
            idx = cap.base_frame;
        }
        assert(idx == cap.try_order(tried as int)) by {
            let d = first - base + tried;
            if d < num {
                vstd::arithmetic::div_mod::lemma_small_mod(d as nat, num as nat);
            } else {
                vstd::arithmetic::div_mod::lemma_mod_sub_multiples_vanish(d, num);
                vstd::arithmetic::div_mod::lemma_small_mod((d - num) as nat, num as nat);
            }
        }
        let info = frame_info(pmm, idx);
        let tag = info.owner_tag();
        let id = info.owner().id();
        proof {
            assert(pmm.frames()[idx as int].owner().valid()) by {
                reveal(Pmm::wf);
            }
            FrameOwner::law_valid_owner_is_determined(pmm.frames()[idx as int].owner());
            FrameOwner::law_encoding_round_trip(OwnerTag::Untyped, cap.id);
            FrameOwner::law_encoding_round_trip(OwnerTag::Domain, domain);
        }
        if tag == OwnerTag::Untyped && id == cap.id && try_set_owner(
            pmm,
            idx,
            FrameOwner::untyped(cap.id),
            FrameOwner::domain(domain),
        ) {
            proof {
                frame::lemma_counts_keep_wf(*old(pmm), *pmm, idx, pmm.frames()[idx as int]);
                assert(cap.covers(idx as int));
            }
            cap.cursor = idx.wrapping_add(1);
            proof {
                let d = idx - base;
                vstd::arithmetic::div_mod::lemma_mod_add_multiples_vanish(d, num);
                vstd::arithmetic::div_mod::lemma_small_mod(d as nat, num as nat);
            }
            return Ok(idx);
        }
        idx = idx.wrapping_add(1);
        tried = tried + 1;
    }
    proof {
        assert forall|f: int| #[trigger] cap.covers(f) implies !untaken(*pmm, cap.id(), f) by {
            let t = if f >= first {
                f - first
            } else {
                f - first + num
            };
            let d = first - base + t;
            if d < num {
                vstd::arithmetic::div_mod::lemma_small_mod(d as nat, num as nat);
            } else {
                vstd::arithmetic::div_mod::lemma_mod_sub_multiples_vanish(d, num);
                vstd::arithmetic::div_mod::lemma_small_mod((d - num) as nat, num as nat);
            }
            assert(cap.try_order(t) == f);
        }
    }
    Err(RetypeError::Exhausted)
}

/// Splitting is pure bookkeeping: each covered frame is covered by one of the
/// halves, and by one only.
pub proof fn law_split_partitions(cap: UntypedCap, a: UntypedCap, b: UntypedCap, frames: int, f: int)
    requires
        0 <= frames <= cap.num_frames(),
        a.base_frame() == cap.base_frame(),
        a.num_frames() == frames,
        b.base_frame() == cap.base_frame() + frames,
        b.num_frames() == cap.num_frames() - frames,
    ensures
        cap.covers(f) <==> a.covers(f) || b.covers(f),
        !(a.covers(f) && b.covers(f)),
{
}

/// Grants are made once only: a granted frame that is released goes to the
/// kernel pool, or waits to, and never back to an untyped region.
pub proof fn law_grants_are_once_only(
    info: frame::FrameInfo,
    id: UntypedId,
    domain: DomainId,
    region: UntypedId,
)
    requires
        info.owner() == FrameOwner::of(OwnerTag::Untyped, id),
    ensures
        ({
            let granted = info.with_owner(FrameOwner::of(OwnerTag::Domain, domain));
            &&& granted.owner() != FrameOwner::of(OwnerTag::Untyped, region)
            &&& allocator::released(granted).owner() != FrameOwner::of(OwnerTag::Untyped, region)
            &&& frame::settled(allocator::released(granted)).owner() != FrameOwner::of(
                OwnerTag::Untyped,
                region,
            )
        }),
{
    FrameOwner::law_encoding_round_trip(OwnerTag::Untyped, region);
    FrameOwner::law_encoding_round_trip(OwnerTag::Domain, domain);
    FrameOwner::law_encoding_round_trip(OwnerTag::Free, 0);
    FrameOwner::law_encoding_round_trip(OwnerTag::Pending, 0);
}

/// A retype goes through the covered frames one by one from the hint on, and
/// from the last one back to the first.
pub proof fn law_retype_tries_in_order(cap: UntypedCap, t: int)
    requires
        cap.valid(),
        cap.num_frames() > 0,
        0 <= t,
    ensures
        cap.next_try() < cap.base_frame() + cap.num_frames() ==> cap.try_order(0)
            == cap.next_try(),
        cap.next_try() == cap.base_frame() + cap.num_frames() ==> cap.try_order(0)
            == cap.base_frame(),
        cap.try_order(t + 1) == (if cap.try_order(t) == cap.base_frame() + cap.num_frames() - 1 {
            cap.base_frame() as int
        } else {
            cap.try_order(t) + 1
        }),
{
    let n = cap.num_frames() as int;
    let d = cap.next_try() - cap.base_frame();
    if d < n {
        vstd::arithmetic::div_mod::lemma_small_mod(d as nat, n as nat);
    } else {
        vstd::arithmetic::div_mod::lemma_mod_self_0(n);
    }
    let x = d + t;
    vstd::arithmetic::div_mod::lemma_fundamental_div_mod(x, n);
    vstd::arithmetic::div_mod::lemma_mod_bound(x, n);
    vstd::arithmetic::div_mod::lemma_mod_multiples_vanish(x / n, x % n + 1, n);
    if x % n == n - 1 {
        vstd::arithmetic::div_mod::lemma_mod_self_0(n);
    } else {
        vstd::arithmetic::div_mod::lemma_small_mod((x % n + 1) as nat, n as nat);
    }
}

/// A cap covers its frames and no other, byte for byte what its addresses say.
pub proof fn law_cap_covers_its_range(cap: UntypedCap, f: int)
    ensures
        cap.covers(f) <==> cap.base_frame() * FRAME_SIZE <= f * 4096 && (f + 1) * 4096 <= (
        cap.base_frame() + cap.num_frames()) * FRAME_SIZE,
{
}

/// A granted frame is the domain's: nothing else can be granted in its place,
/// and it is granted to no other domain.
pub proof fn law_granted_frame_is_the_domains(
    info: frame::FrameInfo,
    id: UntypedId,
    domain: DomainId,
    other: DomainId,
)
    requires
        info.owner() == FrameOwner::of(OwnerTag::Untyped, id),
    ensures
        ({
            let granted = info.with_owner(FrameOwner::of(OwnerTag::Domain, domain));
            &&& granted.owner_tag() == OwnerTag::Domain
            &&& granted.owner().id() == domain
            &&& other != domain ==> granted.owner() != FrameOwner::of(OwnerTag::Domain, other)
            &&& granted.gen() == info.gen()
            &&& granted.pinned() == info.pinned()
            &&& granted.mappings() == info.mappings()
        }),
{
    FrameOwner::law_encoding_round_trip(OwnerTag::Domain, domain);
    FrameOwner::law_encoding_round_trip(OwnerTag::Domain, other);
}

} // verus!
