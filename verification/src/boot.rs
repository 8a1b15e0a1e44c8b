//! Boot-time setup of the physical memory manager.

use crate::allocator::{self, build_global_freelist};
use crate::arch::{phys_to_virt, set_physmap_base, FRAME_SIZE, FRAME_WORDS, SHARD_COUNT};
use crate::frame::{init_table_zeroed, total_frames, try_set_owner, FrameIndex, FrameInfo, FrameOwner, OwnerTag, UntypedId};
use crate::math::{self, align_up, ceil_div, checked_align_up, round_down};
use crate::pmm::{self, Pmm, LIST_END};
use crate::ram::INFO_WORDS;
use crate::untyped::UntypedCap;
use vstd::prelude::*;

verus! {

/// Classification of a physical memory region.
#[derive(Clone, Copy, Debug, PartialEq, Eq, Structural)]
pub enum RegionKind {
    /// Available for general use by the kernel.
    Usable,
    /// Not usable: MMIO, ACPI tables, holes, firmware.
    Reserved,
}

/// A physical memory region, as reported by the boot handoff (e820-style).
#[derive(Clone, Copy, PartialEq, Eq, Debug, Structural)]
pub struct MemoryRegion {
    pub start: u64,
    pub len: u64,
    pub kind: RegionKind,
}

impl MemoryRegion {
    /// Physical address behind the last byte.
    pub open spec fn end_at(self) -> int {
        self.start + self.len
    }

    pub open spec fn usable(self) -> bool {
        self.kind == RegionKind::Usable
    }

    /// True if the byte at `phys` is usable memory of this region.
    pub open spec fn backs(self, phys: int) -> bool {
        self.usable() && self.start <= phys < self.end_at()
    }

    /// Physical address behind the last byte.
    pub fn end(&self) -> (r: u64)
        requires
            self.end_at() <= u64::MAX,
        ensures
            r == self.end_at(),
    {
        self.start + self.len
    }
}

/// Every usable region ends within the physical address space.
pub open spec fn regions_ok(regions: Seq<MemoryRegion>) -> bool {
    forall|i: int|
        0 <= i < regions.len() && (#[trigger] regions[i]).usable() ==> regions[i].end_at()
            <= u64::MAX
}

/// Everything the long-mode entry trampoline hands to the memory manager.
pub struct BootInfo<'a> {
    /// Base virtual address of the physmap (all of RAM mapped at +`phys`).
    pub physmap_base: u64,
    /// Physical memory map, in address order.
    pub regions: &'a [MemoryRegion],
    /// Physical `[start, start+len)` of the kernel image; `(0, 0)` if none.
    pub kernel_image: (u64, u64),
}

/// Bump allocator used before the frame table exists.
///
/// Allocates from the usable regions in order. Intended for the single boot
/// path: the memory manager proper takes over once [`pmm_init`] returns.
pub struct BootAllocator<'a> {
    pub(crate) regions: &'a [MemoryRegion],
    pub(crate) next_region: usize,
    pub(crate) cursor: u64,
}

/// The larger of two addresses.
pub open spec fn larger(a: int, b: int) -> int {
    if a > b {
        a
    } else {
        b
    }
}

/// What a request for `size` bytes aligned to `align` gets from the regions
/// from number `next` on, of which the first is in use up to `cursor`: the
/// address, if any region has room, and the new `next` and `cursor`.
pub open spec fn bump(
    regions: Seq<MemoryRegion>,
    next: int,
    cursor: int,
    size: int,
    align: int,
) -> (Option<int>, int, int)
    decreases regions.len() - next,
{
    if next >= regions.len() {
        (None, next, cursor)
    } else {
        let region = regions[next];
        let start = math::rounded_up(larger(cursor, region.start as int), align);
        if region.usable() && start + size < region.end_at() {
            (Some(start), next, start + size)
        } else if region.usable() && start + size == region.end_at() {
            (Some(start), next + 1, 0)
        } else {
            bump(regions, next + 1, 0, size, align)
        }
    }
}

/// The lowest aligned address in region `k` that is not in use, where region
/// `next` is in use up to `cursor`.
pub open spec fn start_in(
    regions: Seq<MemoryRegion>,
    next: int,
    cursor: int,
    k: int,
    align: int,
) -> int {
    math::rounded_up(
        larger(
            if k == next {
                cursor
            } else {
                0
            },
            regions[k].start as int,
        ),
        align,
    )
}

/// True if region `k` has room for `size` bytes.
pub open spec fn has_room(
    regions: Seq<MemoryRegion>,
    next: int,
    cursor: int,
    k: int,
    size: int,
    align: int,
) -> bool {
    regions[k].usable() && start_in(regions, next, cursor, k, align) + size <= regions[k].end_at()
}

/// A boot allocation comes from the first region that has room for it, at the
/// lowest aligned address there that is not in use; it fails only where no
/// region has room.
pub proof fn law_bump_is_first_fit(
    regions: Seq<MemoryRegion>,
    next: int,
    cursor: int,
    size: int,
    align: int,
)
    requires
        0 <= next <= regions.len(),
    ensures
        ({
            let r = bump(regions, next, cursor, size, align).0;
            &&& r is None <==> forall|k: int|
                next <= k < regions.len() ==> !#[trigger] has_room(
                    regions,
                    next,
                    cursor,
                    k,
                    size,
                    align,
                )
            &&& r matches Some(a) ==> exists|k: int|
                next <= k < regions.len() && #[trigger] has_room(
                    regions,
                    next,
                    cursor,
                    k,
                    size,
                    align,
                ) && a == start_in(regions, next, cursor, k, align) && forall|j: int|
                    next <= j < k ==> !#[trigger] has_room(regions, next, cursor, j, size, align)
        }),
    decreases regions.len() - next,
{
    if next < regions.len() {
        if !has_room(regions, next, cursor, next, size, align) {
            law_bump_is_first_fit(regions, next + 1, 0, size, align);
            assert forall|k: int| next < k < regions.len() implies #[trigger] has_room(
                regions,
                next,
                cursor,
                k,
                size,
                align,
            ) == has_room(regions, next + 1, 0, k, size, align) && start_in(
                regions,
                next,
                cursor,
                k,
                align,
            ) == start_in(regions, next + 1, 0, k, align) by {}
            let r = bump(regions, next + 1, 0, size, align).0;
            if r is Some {
                let k = choose|k: int|
                    next + 1 <= k < regions.len() && #[trigger] has_room(
                        regions,
                        next + 1,
                        0,
                        k,
                        size,
                        align,
                    ) && r == Some(start_in(regions, next + 1, 0, k, align)) && forall|j: int|
                        next + 1 <= j < k ==> !#[trigger] has_room(
                            regions,
                            next + 1,
                            0,
                            j,
                            size,
                            align,
                        );
                assert(has_room(regions, next, cursor, k, size, align));
            } else {
                assert forall|k: int| next <= k < regions.len() implies !#[trigger] has_room(
                    regions,
                    next,
                    cursor,
                    k,
                    size,
                    align,
                ) by {
                    if k > next {
                        assert(!has_room(regions, next + 1, 0, k, size, align));
                    }
                }
            }
        }
    }
}

/// What a boot allocation returns lies in a usable region, is aligned, and
/// lies above the cursor.
pub proof fn lemma_bump(
    regions: Seq<MemoryRegion>,
    next: int,
    cursor: int,
    size: int,
    align: int,
)
    requires
        0 <= next,
        align > 0,
        size >= 0,
    ensures
        ({
            let r = bump(regions, next, cursor, size, align);
            &&& r.1 >= next
            &&& r.0 matches Some(a) ==> {
                &&& a % align == 0
                &&& r.1 < regions.len() && regions[r.1].usable() && regions[r.1].start <= a && r.2
                    == a + size && a + size < regions[r.1].end_at() || 0 < r.1 <= regions.len()
                    && regions[r.1 - 1].usable() && regions[r.1 - 1].start <= a && r.2 == 0 && a
                    + size == regions[r.1 - 1].end_at()
                &&& next < regions.len() && r.1 == next ==> a >= cursor
            }
        }),
    decreases regions.len() - next,
{
    if next < regions.len() {
        let region = regions[next];
        let from = larger(cursor, region.start as int);
        math::law_rounded_up(from, align);
        let start = math::rounded_up(from, align);
        if !(region.usable() && start + size <= region.end_at()) {
            lemma_bump(regions, next + 1, 0, size, align);
        }
    }
}

impl<'a> BootAllocator<'a> {
    pub open(crate) spec fn regions_spec(self) -> Seq<MemoryRegion> {
        self.regions@
    }

    /// The region that the next request is tried on first.
    pub open(crate) spec fn next_spec(self) -> int {
        self.next_region as int
    }

    /// Where that region's free part starts, if some of it is in use.
    pub open(crate) spec fn cursor_spec(self) -> int {
        self.cursor as int
    }

    pub fn new(regions: &'a [MemoryRegion]) -> (r: BootAllocator<'a>)
        ensures
            r.regions_spec() == regions@,
            r.next_spec() == 0,
            r.cursor_spec() == 0,
    {
        BootAllocator { regions, next_region: 0, cursor: 0 }
    }

    /// Bump-allocate `size` bytes from the first usable region that can
    /// satisfy the request, aligned to `align`. Returns the physical address.
    pub fn allocate(&mut self, size: u64, align: u64) -> (r: Option<u64>)
        requires
            regions_ok(old(self).regions_spec()),
            align > 0,
        ensures
            final(self).regions_spec() == old(self).regions_spec(),
            ({
                let fit = bump(
                    old(self).regions_spec(),
                    old(self).next_spec(),
                    old(self).cursor_spec(),
                    size as int,
                    align as int,
                );
                &&& r is Some <==> fit.0 is Some
                &&& r matches Some(a) ==> fit.0 == Some(a as int)
                &&& final(self).next_spec() == fit.1
                &&& final(self).cursor_spec() == fit.2
            }),
    {
        let ghost fit = bump(
            self.regions@,
            self.next_region as int,
            self.cursor as int,
            size as int,
            align as int,
        );
        while self.next_region < self.regions.len()
            invariant
                regions_ok(self.regions@),
                self.regions == old(self).regions,
                align > 0,
                fit == bump(
                    self.regions@,
                    self.next_region as int,
                    self.cursor as int,
                    size as int,
                    align as int,
                ),
                fit == bump(
                    old(self).regions_spec(),
                    old(self).next_spec(),
                    old(self).cursor_spec(),
                    size as int,
                    align as int,
                ),
            decreases self.regions@.len() - self.next_region,
        {
            let region = self.regions[self.next_region];
            if region.kind != RegionKind::Usable {
                self.next_region = self.next_region + 1;
                self.cursor = 0;
                continue ;
            }
            let from: u64 = if self.cursor > region.start {
                self.cursor
            } else {
                region.start
            };
            proof {
                math::law_rounded_up(from as int, align as int);
            }
            match checked_align_up(from, align) {
                Some(start) => {
                    if let Some(end) = start.checked_add(size) {
                        if end <= region.end() {
                            self.cursor = end;
                            if self.cursor == region.end() {
                                self.next_region = self.next_region + 1;
                                self.cursor = 0;
                            }
                            return Some(start);
                        }
                    }
                },
                None => {
                },
            }
            self.next_region = self.next_region + 1;
            self.cursor = 0;
        }
        None
    }

    /// Convenience: allocate `n` whole frames, returning the base frame
    /// index. Usable memory ends within the 16 TiB that frame indices reach;
    /// no frames at all may be found at its very end, which has no index.
    pub fn alloc_frames(&mut self, n: u32) -> (r: Option<FrameIndex>)
        requires
            regions_ok(old(self).regions_spec()),
            forall|i: int|
                0 <= i < old(self).regions_spec().len() && (#[trigger] old(self).regions_spec()[i]).usable() ==> old(self).regions_spec()[i].end_at()
                    + (if n == 0 {
                    1int
                } else {
                    0
                }) <= 0x1000_0000_0000,
        ensures
            final(self).regions_spec() == old(self).regions_spec(),
            ({
                let fit = bump(
                    old(self).regions_spec(),
                    old(self).next_spec(),
                    old(self).cursor_spec(),
                    n * FRAME_SIZE,
                    FRAME_SIZE as int,
                );
                &&& r is Some <==> fit.0 is Some
                &&& r matches Some(f) ==> fit.0 == Some(f * FRAME_SIZE)
                &&& final(self).next_spec() == fit.1
                &&& final(self).cursor_spec() == fit.2
            }),
    {
        proof {
            lemma_bump(
                self.regions@,
                self.next_region as int,
                self.cursor as int,
                n * FRAME_SIZE,
                FRAME_SIZE as int,
            );
        }
        match self.allocate(n as u64 * FRAME_SIZE, FRAME_SIZE) {
            None => None,
            Some(phys) => {
                proof {
                    let here = self.next_region as int;
                    let map = old(self).regions_spec();
                    let k = if here < map.len() && map[here].usable() && self.cursor == phys + n
                        * FRAME_SIZE && phys + n * FRAME_SIZE < map[here].end_at() {
                        here
                    } else {
                        here - 1
                    };
                    assert(map[k].usable());
                    assert(phys + n * FRAME_SIZE <= map[k].end_at());
                }
                Some((phys / FRAME_SIZE) as FrameIndex)
            },
        }
    }
}

// ---------------------------------------------------------------------------
// Splitting out the kernel image
// ---------------------------------------------------------------------------

/// Cap on the number of effective regions after the kernel image is split
/// out. Plenty for any bootloader-provided map.
pub const MAX_EFFECTIVE_REGIONS: usize = 128;

/// Physical end of the legacy low-memory area, kept out of the kernel pool:
/// the real-mode IVT/BDA, the multiboot info structure and any real-mode
/// trampolines live there, so page-table and frame allocations must not
/// clobber them. The kernel image (and everything above it) is unaffected.
pub const LEGACY_END: u64 = 0x10_0000;

/// First byte of the frames that the kernel image touches.
pub open spec fn image_start(image: (u64, u64)) -> int {
    if image.1 != 0 {
        math::rounded_down(image.0 as int, 4096)
    } else {
        0
    }
}

/// First byte behind the frames that the kernel image touches.
pub open spec fn image_end(image: (u64, u64)) -> int {
    if image.1 != 0 {
        math::rounded_up(image.0 + image.1, 4096)
    } else {
        0
    }
}

/// What is left of a region once the frames of the kernel image are taken
/// out: up to two parts of a usable region, any other region as it is.
pub open spec fn without_image(region: MemoryRegion, image: (u64, u64)) -> Seq<MemoryRegion> {
    let ks = image_start(image);
    let ke = image_end(image);
    if region.usable() && image.1 != 0 && ks < region.end_at() && region.start < ke {
        let below = if region.start < ks {
            seq![
                MemoryRegion {
                    start: region.start,
                    len: (ks - region.start) as u64,
                    kind: RegionKind::Usable,
                },
            ]
        } else {
            Seq::empty()
        };
        let above = if ke < region.end_at() {
            seq![
                MemoryRegion {
                    start: ke as u64,
                    len: (region.end_at() - ke) as u64,
                    kind: RegionKind::Usable,
                },
            ]
        } else {
            Seq::empty()
        };
        below + above
    } else {
        seq![region]
    }
}

/// The first `n` regions with the kernel image taken out.
pub open spec fn effective(
    regions: Seq<MemoryRegion>,
    image: (u64, u64),
    n: int,
) -> Seq<MemoryRegion>
    decreases n,
{
    if n <= 0 {
        Seq::empty()
    } else {
        effective(regions, image, n - 1) + without_image(regions[n - 1], image)
    }
}

/// Build the effective region list.
///
/// Reserved regions pass through unchanged. Usable regions keep their
/// frame-aligned ranges, except the kernel image is split out (with
/// frame-aligned boundaries) so it never reaches the frame table or the free
/// list. Regions remain in address order.
fn build_effective(boot: &BootInfo<'_>) -> (r: Result<Vec<MemoryRegion>, &'static str>)
    requires
        regions_ok(boot.regions@),
        image_ok(boot.kernel_image),
    ensures
        ({
            let all = effective(boot.regions@, boot.kernel_image, boot.regions@.len() as int);
            &&& r is Ok <==> all.len() < MAX_EFFECTIVE_REGIONS
            &&& r matches Ok(v) ==> v@ == all
            &&& r matches Err(e) ==> e@ == "too many memory regions"@
        }),
{
    let ki_start = boot.kernel_image.0;
    let ki_len = boot.kernel_image.1;
    proof {
        math::law_rounded_down(ki_start as int, 4096);
        math::law_rounded_up(ki_start + ki_len, 4096);
    }
    let ki_ks = if ki_len != 0 {
        round_down(ki_start, FRAME_SIZE)
    } else {
        0
    };
    let ki_ke = if ki_len != 0 {
        align_up(ki_start + ki_len, FRAME_SIZE)
    } else {
        0
    };
    let mut out: Vec<MemoryRegion> = Vec::new();
    let mut i: usize = 0;
    while i < boot.regions.len()
        invariant
            i <= boot.regions@.len(),
            regions_ok(boot.regions@),
            ki_ks == image_start(boot.kernel_image),
            ki_ke == image_end(boot.kernel_image),
            ki_len == boot.kernel_image.1,
            out@ == effective(boot.regions@, boot.kernel_image, i as int),
            out@.len() < MAX_EFFECTIVE_REGIONS,
        decreases boot.regions@.len() - i,
    {
        let region = boot.regions[i];
        let ghost before = out@;
        if region.kind != RegionKind::Usable {
            out.push(region);
        } else {
            let start = region.start;
            let end = region.end();
            if ki_len != 0 && ki_ks < end && start < ki_ke {
                if start < ki_ks {
                    out.push(MemoryRegion { start, len: ki_ks - start, kind: RegionKind::Usable });
                }
                if ki_ke < end {
                    out.push(
                        MemoryRegion { start: ki_ke, len: end - ki_ke, kind: RegionKind::Usable },
                    );
                }
            } else {
                out.push(region);
            }
        }
        assert(out@ =~= before + without_image(region, boot.kernel_image));
        i = i + 1;
        if out.len() >= MAX_EFFECTIVE_REGIONS {
            proof {
                lemma_effective_grows(
                    boot.regions@,
                    boot.kernel_image,
                    i as int,
                    boot.regions@.len() as int,
                );
            }
            return Err("too many memory regions");
        }
    }
    Ok(out)
}

/// The frames that the kernel image touches end within the address space.
pub open spec fn image_ok(image: (u64, u64)) -> bool {
    image.1 != 0 ==> image.0 + image.1 + 4095 <= u64::MAX
}

proof fn lemma_effective_grows(regions: Seq<MemoryRegion>, image: (u64, u64), n: int, m: int)
    requires
        0 <= n <= m,
    ensures
        effective(regions, image, n).len() <= effective(regions, image, m).len(),
    decreases m - n,
{
    if n < m {
        lemma_effective_grows(regions, image, n, m - 1);
    }
}

// ---------------------------------------------------------------------------
// Layout
// ---------------------------------------------------------------------------

/// Bytes of frame table per frame.
pub const FRAME_INFO_SIZE: u64 = 24;

/// Highest end of a usable region among the first `n`; 0 if there is none.
pub open spec fn usable_end(regions: Seq<MemoryRegion>, n: int) -> int
    decreases n,
{
    if n <= 0 {
        0
    } else if regions[n - 1].usable() {
        larger(usable_end(regions, n - 1), regions[n - 1].end_at())
    } else {
        usable_end(regions, n - 1)
    }
}

/// Number of frames up to the highest usable end.
pub open spec fn frame_count(regions: Seq<MemoryRegion>) -> int {
    (usable_end(regions, regions.len() as int) + 4095) / 4096
}

/// Size of the frame table in bytes.
pub open spec fn table_bytes(regions: Seq<MemoryRegion>) -> int {
    frame_count(regions) * FRAME_INFO_SIZE
}

/// Where the boot allocator puts the frame table.
pub open spec fn table_fit(regions: Seq<MemoryRegion>) -> (Option<int>, int, int) {
    bump(regions, 0, 0, table_bytes(regions), 4096)
}

/// Where the boot allocator puts the kernel heap, after the frame table.
pub open spec fn heap_fit(regions: Seq<MemoryRegion>, heap_len: int) -> (Option<int>, int, int) {
    bump(regions, table_fit(regions).1, table_fit(regions).2, heap_len, 4096)
}

/// Physical address of the frame table.
pub open spec fn table_phys(regions: Seq<MemoryRegion>) -> int {
    table_fit(regions).0->0
}

/// The words of RAM that the frame table takes up.
pub open spec fn table_span(regions: Seq<MemoryRegion>) -> (int, int) {
    (table_phys(regions) / 8, table_phys(regions) / 8 + frame_count(regions) * INFO_WORDS)
}

/// Physical address of the kernel heap.
pub open spec fn heap_phys(regions: Seq<MemoryRegion>, heap_len: int) -> int {
    heap_fit(regions, heap_len).0->0
}

/// True if `phys` lies in the frame table or in the heap.
pub open spec fn in_kept(regions: Seq<MemoryRegion>, heap_len: int, phys: int) -> bool {
    ||| table_phys(regions) <= phys < table_phys(regions) + table_bytes(regions)
    ||| heap_len != 0 && heap_phys(regions, heap_len) <= phys < heap_phys(regions, heap_len)
        + heap_len
}

/// True if the frame at `phys` is neither low memory nor part of the frame
/// table or the heap.
pub open spec fn open_to_pool(regions: Seq<MemoryRegion>, heap_len: int, phys: int) -> bool {
    phys >= LEGACY_END && !in_kept(regions, heap_len, phys)
}

/// True if one of the first `n` regions has usable memory at `phys`.
pub open spec fn backed(regions: Seq<MemoryRegion>, n: int, phys: int) -> bool {
    exists|k: int| 0 <= k < n && (#[trigger] regions[k]).backs(phys)
}

/// True if frame `idx` is free once the memory map has been gone through: it
/// is usable memory above the legacy area, and in neither the frame table nor
/// the heap.
pub open spec fn pooled(regions: Seq<MemoryRegion>, heap_len: int, idx: int) -> bool {
    &&& backed(regions, regions.len() as int, idx * 4096)
    &&& open_to_pool(regions, heap_len, idx * 4096)
}

/// True if two of the first `n` regions hold the same frame of the pool.
pub open spec fn overlapping(regions: Seq<MemoryRegion>, heap_len: int, n: int) -> bool {
    exists|i: int, j: int, idx: int| #[trigger] clash(regions, heap_len, n, i, j, idx)
}

pub open spec fn clash(
    regions: Seq<MemoryRegion>,
    heap_len: int,
    n: int,
    i: int,
    j: int,
    idx: int,
) -> bool {
    &&& 0 <= i < j < n
    &&& open_to_pool(regions, heap_len, idx * 4096)
    &&& regions[i].backs(idx * 4096)
    &&& regions[j].backs(idx * 4096)
}

/// True if every usable region starts and ends on a frame boundary.
pub open spec fn regions_aligned(regions: Seq<MemoryRegion>) -> bool {
    forall|i: int|
        0 <= i < regions.len() && (#[trigger] regions[i]).usable() ==> regions[i].start % 4096 == 0
            && regions[i].len % 4096 == 0
}

pub(crate) proof fn lemma_usable_end(regions: Seq<MemoryRegion>, n: int)
    requires
        0 <= n <= regions.len(),
    ensures
        usable_end(regions, n) >= 0,
        forall|i: int|
            0 <= i < n && (#[trigger] regions[i]).usable() ==> regions[i].end_at() <= usable_end(
                regions,
                n,
            ),
        usable_end(regions, n) > 0 ==> exists|i: int|
            0 <= i < n && (#[trigger] regions[i]).usable() && regions[i].end_at() == usable_end(
                regions,
                n,
            ),
    decreases n,
{
    if n > 0 {
        lemma_usable_end(regions, n - 1);
        if usable_end(regions, n) == usable_end(regions, n - 1) && usable_end(regions, n) > 0 {
            let i = choose|i: int|
                0 <= i < n - 1 && (#[trigger] regions[i]).usable() && regions[i].end_at()
                    == usable_end(regions, n - 1);
            assert(regions[i].usable());
        }
    }
}

/// What is left of a region lies within it, and is aligned if it was.
proof fn lemma_without_image(region: MemoryRegion, image: (u64, u64))
    requires
        region.usable() ==> region.end_at() <= u64::MAX,
        image_ok(image),
    ensures
        ({
            let parts = without_image(region, image);
            forall|k: int|
                0 <= k < parts.len() ==> {
                    &&& region.start <= (#[trigger] parts[k]).start
                    &&& parts[k].end_at() <= region.end_at()
                    &&& parts[k].usable() == region.usable()
                    &&& region.start % 4096 == 0 && region.len % 4096 == 0 ==> parts[k].start % 4096
                        == 0 && parts[k].len % 4096 == 0
                }
        }),
{
    math::law_rounded_down(image.0 as int, 4096);
    math::law_rounded_up(image.0 + image.1, 4096);
}

/// Every region that is left lies within one of the first `n`.
proof fn lemma_effective_within(regions: Seq<MemoryRegion>, image: (u64, u64), n: int)
    requires
        0 <= n <= regions.len(),
        regions_ok(regions),
        image_ok(image),
    ensures
        ({
            let all = effective(regions, image, n);
            forall|k: int|
                0 <= k < all.len() ==> within_one_of(#[trigger] all[k], regions, n)
        }),
    decreases n,
{
    if n > 0 {
        lemma_effective_within(regions, image, n - 1);
        lemma_without_image(regions[n - 1], image);
        let before = effective(regions, image, n - 1);
        let parts = without_image(regions[n - 1], image);
        let all = effective(regions, image, n);
        assert forall|k: int| 0 <= k < all.len() implies within_one_of(
            #[trigger] all[k],
            regions,
            n,
        ) by {
            if k < before.len() {
                assert(all[k] == before[k]);
                let i = choose|i: int| 0 <= i < n - 1 && #[trigger] within(before[k], regions[i]);
                assert(within(all[k], regions[i]));
            } else {
                assert(all[k] == parts[k - before.len()]);
                assert(within(all[k], regions[n - 1]));
            }
        }
    }
}

/// Region `part` lies within `region`, is of its kind, and is aligned if it
/// is.
spec fn within(part: MemoryRegion, region: MemoryRegion) -> bool {
    &&& region.start <= part.start
    &&& part.end_at() <= region.end_at()
    &&& part.usable() == region.usable()
    &&& region.start % 4096 == 0 && region.len % 4096 == 0 ==> part.start % 4096 == 0 && part.len
        % 4096 == 0
}

spec fn within_one_of(part: MemoryRegion, regions: Seq<MemoryRegion>, n: int) -> bool {
    exists|i: int| 0 <= i < n && #[trigger] within(part, regions[i])
}

/// Taking the kernel image out leaves regions within those of the memory map,
/// aligned where those were.
proof fn lemma_effective_parts(regions: Seq<MemoryRegion>, image: (u64, u64), n: int)
    requires
        0 <= n <= regions.len(),
        regions_ok(regions),
        image_ok(image),
    ensures
        ({
            let all = effective(regions, image, n);
            &&& forall|k: int|
                0 <= k < all.len() && (#[trigger] all[k]).usable() ==> exists|i: int|
                    0 <= i < n && (#[trigger] regions[i]).usable() && regions[i].start
                        <= all[k].start && all[k].end_at() <= regions[i].end_at()
            &&& regions_ok(all)
            &&& regions_aligned(regions) ==> regions_aligned(all)
        }),
{
    lemma_effective_within(regions, image, n);
    let all = effective(regions, image, n);
    assert forall|k: int| 0 <= k < all.len() && (#[trigger] all[k]).usable() implies (exists|
        i: int,
    |
        0 <= i < n && (#[trigger] regions[i]).usable() && regions[i].start <= all[k].start
            && all[k].end_at() <= regions[i].end_at()) && all[k].end_at() <= u64::MAX && (
    regions_aligned(regions) ==> all[k].start % 4096 == 0 && all[k].len % 4096 == 0) by {
        let i = choose|i: int| 0 <= i < n && #[trigger] within(all[k], regions[i]);
        assert(regions[i].usable());
    }
}

/// Going through the memory map meets a frame of the pool for the second time
/// first at frame `idx` of region `k`.
pub open spec fn first_clash(
    regions: Seq<MemoryRegion>,
    heap_len: int,
    k: int,
    idx: int,
) -> bool {
    &&& 0 <= k < regions.len()
    &&& !overlapping(regions, heap_len, k)
    &&& regions[k].backs(idx * 4096)
    &&& open_to_pool(regions, heap_len, idx * 4096)
    &&& backed(regions, k, idx * 4096)
    &&& forall|i: int|
        i < idx && regions[k].backs(i * 4096) && open_to_pool(regions, heap_len, i * 4096)
            ==> !#[trigger] backed(regions, k, i * 4096)
}

/// The owner of frame `f` where going through the memory map has come to frame
/// `idx` of region `k`.
pub open spec fn owner_midway(
    regions: Seq<MemoryRegion>,
    heap_len: int,
    k: int,
    idx: int,
    f: int,
) -> FrameOwner {
    if open_to_pool(regions, heap_len, f * 4096) && (backed(regions, k, f * 4096)
        || regions[k].backs(f * 4096) && f < idx) {
        FrameOwner::of(OwnerTag::Free, 0)
    } else {
        FrameOwner::of(OwnerTag::Reserved, 0)
    }
}

/// The frame table where the memory map overlaps itself: what came before the
/// first clash is marked, and nothing else.
pub open spec fn marked_to_clash(
    frames: Seq<FrameInfo>,
    regions: Seq<MemoryRegion>,
    heap_len: int,
) -> bool {
    exists|k: int, idx: int| #[trigger]
        first_clash(regions, heap_len, k, idx) && forall|f: int|
            0 <= f < frames.len() ==> (#[trigger] frames[f])
                == FrameInfo::zeroed_spec().with_owner(
                owner_midway(regions, heap_len, k, idx, f),
            )
}

/// Mark usable frames free, skipping low memory, the frame table and the heap.
/// False if a frame is in two regions.
fn mark_usable(
    pmm: &mut Pmm,
    regions: &[MemoryRegion],
    ft_phys: u64,
    ft_end: u64,
    hp: u64,
    heap_len: u64,
) -> (r: bool)
    requires
        ft_phys == table_phys(regions@),
        ft_end == ft_phys + table_bytes(regions@),
        heap_len != 0 ==> hp == heap_phys(regions@, heap_len as int) && hp + heap_len <= u64::MAX,
        regions_ok(regions@),
        regions_aligned(regions@),
        old(pmm).frames().len() <= u32::MAX,
        usable_end(regions@, regions@.len() as int) <= old(pmm).frames().len() * 4096,
        forall|f: int|
            0 <= f < old(pmm).frames().len() ==> (#[trigger] old(pmm).frames()[f])
                == FrameInfo::zeroed_spec(),
    ensures
        final(pmm).ram.same_words(old(pmm).ram),
        final(pmm).lists == old(pmm).lists,
        final(pmm).physmap == old(pmm).physmap,
        final(pmm).table.base == old(pmm).table.base,
        final(pmm).frames().len() == old(pmm).frames().len(),
        r <==> !overlapping(regions@, heap_len as int, regions@.len() as int),
        !r ==> marked_to_clash(final(pmm).frames(), regions@, heap_len as int),
        r ==> forall|f: int|
            0 <= f < final(pmm).frames().len() ==> (#[trigger] final(pmm).frames()[f])
                == FrameInfo::zeroed_spec().with_owner(
                if pooled(regions@, heap_len as int, f) {
                    FrameOwner::of(OwnerTag::Free, 0)
                } else {
                    FrameOwner::of(OwnerTag::Reserved, 0)
                },
            ),
{
    let ghost total = pmm.frames().len();
    let ghost len = heap_len as int;
    let mut k: usize = 0;
    proof {
        FrameOwner::law_encoding_round_trip(OwnerTag::Reserved, 0);
        FrameOwner::law_encoding_round_trip(OwnerTag::Free, 0);
    }
    while k < regions.len()
        invariant
            k <= regions@.len(),
            regions_ok(regions@),
            regions_aligned(regions@),
            total == pmm.frames().len(),
            total == old(pmm).frames().len(),
            total <= u32::MAX,
            usable_end(regions@, regions@.len() as int) <= total * 4096,
            len == heap_len,
            ft_phys == table_phys(regions@),
            ft_end == ft_phys + table_bytes(regions@),
            heap_len != 0 ==> hp == heap_phys(regions@, len) && hp + heap_len <= u64::MAX,
            pmm.ram.same_words(old(pmm).ram),
            pmm.lists == old(pmm).lists,
            pmm.physmap == old(pmm).physmap,
            pmm.table.base == old(pmm).table.base,
            !overlapping(regions@, len, k as int),
            FrameOwner::of(OwnerTag::Reserved, 0) != FrameOwner::of(OwnerTag::Free, 0),
            forall|f: int|
                0 <= f < total ==> (#[trigger] pmm.frames()[f])
                    == FrameInfo::zeroed_spec().with_owner(
                    if open_to_pool(regions@, len, f * 4096) && backed(regions@, k as int, f * 4096) {
                        FrameOwner::of(OwnerTag::Free, 0)
                    } else {
                        FrameOwner::of(OwnerTag::Reserved, 0)
                    },
                ),
        decreases regions@.len() - k,
    {
        let region = regions[k];
        if region.kind == RegionKind::Usable {
            proof {
                lemma_usable_end(regions@, regions@.len() as int);
                assert(regions@[k as int].usable());
            }
            let first = ceil_div(region.start, FRAME_SIZE);
            let last = ceil_div(region.end(), FRAME_SIZE);
            let mut idx = first;
            while idx < last
                invariant
                    k < regions@.len(),
                    region == regions@[k as int],
                    region.usable(),
                    region.start == first * 4096,
                    region.end_at() == last * 4096,
                    first <= idx <= last <= total,
                    total == pmm.frames().len(),
                    total <= u32::MAX,
                    len == heap_len,
                    ft_phys == table_phys(regions@),
                    ft_end == ft_phys + table_bytes(regions@),
                    heap_len != 0 ==> hp == heap_phys(regions@, len) && hp + heap_len <= u64::MAX,
                    pmm.ram.same_words(old(pmm).ram),
                    pmm.lists == old(pmm).lists,
                    pmm.physmap == old(pmm).physmap,
                    pmm.table.base == old(pmm).table.base,
                    pmm.frames().len() == old(pmm).frames().len(),
                    !overlapping(regions@, len, k as int),
                    FrameOwner::of(OwnerTag::Reserved, 0) != FrameOwner::of(OwnerTag::Free, 0),
                    forall|i: int|
                        first <= i < idx && open_to_pool(regions@, len, i * 4096) ==> !#[trigger] backed(
                            regions@,
                            k as int,
                            i * 4096,
                        ),
                    forall|f: int|
                        0 <= f < total ==> (#[trigger] pmm.frames()[f])
                            == FrameInfo::zeroed_spec().with_owner(
                            if open_to_pool(regions@, len, f * 4096) && (backed(
                                regions@,
                                k as int,
                                f * 4096,
                            ) || first <= f < idx) {
                                FrameOwner::of(OwnerTag::Free, 0)
                            } else {
                                FrameOwner::of(OwnerTag::Reserved, 0)
                            },
                        ),
                decreases last - idx,
            {
                let phys = idx * FRAME_SIZE;
                let in_table = phys >= ft_phys && phys < ft_end;
                let in_heap = heap_len != 0 && phys >= hp && phys < hp + heap_len;
                if phys < LEGACY_END || in_table || in_heap {
                    assert(!open_to_pool(regions@, len, idx * 4096));
                    idx = idx + 1;
                    continue ;
                }
                if !try_set_owner(
                    pmm,
                    idx as FrameIndex,
                    FrameOwner::reserved(),
                    FrameOwner::free(),
                ) {
                    proof {
                        assert(backed(regions@, k as int, idx * 4096));
                        let i = choose|i: int| 0 <= i < k && (#[trigger] regions@[i]).backs(idx * 4096);
                        assert(clash(
                            regions@,
                            len,
                            regions@.len() as int,
                            i,
                            k as int,
                            idx as int,
                        ));
                    }
                    proof {
                        assert forall|i: int|
                            i < idx && regions@[k as int].backs(i * 4096) && open_to_pool(
                                regions@,
                                len,
                                i * 4096,
                            ) implies !#[trigger] backed(regions@, k as int, i * 4096) by {
                            assert(first <= i);
                        }
                        assert(first_clash(regions@, len, k as int, idx as int));
                        assert forall|f: int| 0 <= f < total implies (#[trigger] pmm.frames()[f])
                            == FrameInfo::zeroed_spec().with_owner(
                            owner_midway(regions@, len, k as int, idx as int, f),
                        ) by {
                            assert(first <= f < idx <==> regions@[k as int].backs(f * 4096) && f
                                < idx);
                        }
                    }
                    return false;
                }
                proof {
                    assert(!backed(regions@, k as int, idx * 4096)) by {
                        assert(old(pmm).frames().len() == total);
                    }
                }
                idx = idx + 1;
            }
            proof {
                assert forall|f: int| 0 <= f < total implies #[trigger] backed(
                    regions@,
                    k + 1,
                    f * 4096,
                ) == (backed(regions@, k as int, f * 4096) || first <= f < last) by {
                    lemma_backed_step(regions@, k as int, f * 4096);
                }
                if overlapping(regions@, len, k + 1) {
                    let (i, j, f) = choose|i: int, j: int, f: int| #[trigger]
                        clash(regions@, len, k + 1, i, j, f);
                    if j < k {
                        assert(clash(regions@, len, k as int, i, j, f));
                    } else {
                        assert(backed(regions@, k as int, f * 4096));
                    }
                }
            }
        } else {
            proof {
                assert forall|f: int| 0 <= f < total implies #[trigger] backed(
                    regions@,
                    k + 1,
                    f * 4096,
                ) == backed(regions@, k as int, f * 4096) by {
                    lemma_backed_step(regions@, k as int, f * 4096);
                }
                if overlapping(regions@, len, k + 1) {
                    let (i, j, f) = choose|i: int, j: int, f: int| #[trigger]
                        clash(regions@, len, k + 1, i, j, f);
                    assert(clash(regions@, len, k as int, i, j, f));
                }
            }
        }
        k = k + 1;
    }
    true
}

proof fn lemma_backed_step(regions: Seq<MemoryRegion>, n: int, phys: int)
    requires
        0 <= n < regions.len(),
    ensures
        backed(regions, n + 1, phys) == (backed(regions, n, phys) || regions[n].backs(phys)),
{
    if backed(regions, n, phys) {
        let k = choose|k: int| 0 <= k < n && (#[trigger] regions[k]).backs(phys);
        assert(regions[k].backs(phys));
    }
    if regions[n].backs(phys) {
        assert(0 <= n < n + 1 && regions[n].backs(phys));
    }
}

// ---------------------------------------------------------------------------
// Untyped regions
// ---------------------------------------------------------------------------

/// A request to turn a physical range into an untyped region at boot.
#[derive(Clone, Copy, PartialEq, Eq, Debug, Structural)]
pub struct UntypedSpec {
    pub base_phys: u64,
    pub len: u64,
}

impl UntypedSpec {
    pub open spec fn first_frame(self) -> int {
        self.base_phys as int / 4096
    }

    pub open spec fn frame_count(self) -> int {
        self.len as int / 4096
    }

    pub open spec fn covers(self, idx: int) -> bool {
        self.first_frame() <= idx < self.first_frame() + self.frame_count()
    }

    pub open spec fn aligned(self) -> bool {
        self.base_phys % 4096 == 0 && self.len % 4096 == 0
    }

    /// The covered frames exist as frame indices.
    pub open spec fn in_range(self) -> bool {
        self.frame_count() > 0 && self.first_frame() + self.frame_count() < u32::MAX
    }
}

/// True if frame `idx` is there and free for an untyped region to take.
pub open spec fn takeable(frames: Seq<FrameInfo>, idx: int) -> bool {
    0 <= idx < frames.len() && frames[idx].owner() == FrameOwner::of(OwnerTag::Free, 0)
}

/// Handing out the frames of `spec` stops before frame `stop`: the first that
/// cannot be taken or, if the request makes no sense, its first.
pub open spec fn carving_stops(frames: Seq<FrameInfo>, spec: UntypedSpec, stop: int) -> bool {
    if spec.aligned() && spec.in_range() {
        &&& spec.covers(stop)
        &&& !takeable(frames, stop)
        &&& forall|f: int| #[trigger] spec.covers(f) && f < stop ==> takeable(frames, f)
    } else {
        stop == spec.first_frame()
    }
}

/// Hand the frames of `spec` to untyped region `id`.
fn carve_untyped_region(pmm: &mut Pmm, spec: &UntypedSpec, id: UntypedId) -> (r: Result<
    UntypedCap,
    &'static str,
>)
    requires
        old(pmm).frames().len() <= u32::MAX,
    ensures
        final(pmm).ram.same_words(old(pmm).ram),
        final(pmm).lists == old(pmm).lists,
        final(pmm).physmap == old(pmm).physmap,
        final(pmm).table.base == old(pmm).table.base,
        final(pmm).frames().len() == old(pmm).frames().len(),
        r is Ok <==> {
            &&& spec.aligned()
            &&& spec.in_range()
            &&& forall|f: int| #[trigger] spec.covers(f) ==> takeable(old(pmm).frames(), f)
        },
        r is Err ==> exists|stop: int| #[trigger]
            carving_stops(old(pmm).frames(), *spec, stop) && forall|f: int|
                0 <= f < final(pmm).frames().len() ==> (#[trigger] final(pmm).frames()[f]) == (
                if spec.covers(f) && f < stop {
                    old(pmm).frames()[f].with_owner(FrameOwner::of(OwnerTag::Untyped, id))
                } else {
                    old(pmm).frames()[f]
                }),
        r matches Err(e) ==> e@ == (if !spec.aligned() {
            "untyped spec not frame-aligned"@
        } else if !spec.in_range() {
            "untyped spec has invalid range"@
        } else {
            "untyped spec overlaps a reserved range or another region"@
        }),
        r matches Ok(cap) ==> {
            &&& cap.id() == id
            &&& cap.base_frame() == spec.first_frame()
            &&& cap.num_frames() == spec.frame_count()
            &&& cap.next_try() == cap.base_frame()
            &&& forall|f: int|
                0 <= f < final(pmm).frames().len() ==> (#[trigger] final(pmm).frames()[f]) == (
                if spec.covers(f) {
                    old(pmm).frames()[f].with_owner(FrameOwner::of(OwnerTag::Untyped, id))
                } else {
                    old(pmm).frames()[f]
                })
        },
{
    proof {
        assert(!(spec.aligned() && spec.in_range()) ==> carving_stops(
            pmm.frames(),
            *spec,
            spec.first_frame(),
        ));
    }
    if spec.base_phys % FRAME_SIZE != 0 || spec.len % FRAME_SIZE != 0 {
        return Err("untyped spec not frame-aligned");
    }
    let base_frame = spec.base_phys / FRAME_SIZE;
    let num = spec.len / FRAME_SIZE;
    if num == 0 || base_frame + num >= u32::MAX as u64 {
        return Err("untyped spec has invalid range");
    }
    let mut i: u64 = 0;
    while i < num
        invariant
            i <= num,
            base_frame == spec.first_frame(),
            num == spec.frame_count(),
            spec.aligned(),
            spec.in_range(),
            pmm.ram.same_words(old(pmm).ram),
            pmm.lists == old(pmm).lists,
            pmm.physmap == old(pmm).physmap,
            pmm.table.base == old(pmm).table.base,
            pmm.frames().len() == old(pmm).frames().len(),
            old(pmm).frames().len() <= u32::MAX,
            forall|f: int|
                base_frame <= f < base_frame + i ==> #[trigger] takeable(old(pmm).frames(), f),
            forall|f: int|
                0 <= f < pmm.frames().len() ==> (#[trigger] pmm.frames()[f]) == (if base_frame <= f
                    < base_frame + i {
                    old(pmm).frames()[f].with_owner(FrameOwner::of(OwnerTag::Untyped, id))
                } else {
                    old(pmm).frames()[f]
                }),
        decreases num - i,
    {
        let frame = (base_frame + i) as FrameIndex;
        proof {
            assert(spec.covers(frame as int));
            assert(!takeable(old(pmm).frames(), frame as int) ==> carving_stops(
                old(pmm).frames(),
                *spec,
                frame as int,
            ));
        }
        if frame as usize >= total_frames(pmm) {
            assert(!takeable(old(pmm).frames(), frame as int));
            return Err("untyped spec overlaps a reserved range or another region");
        }
        if !try_set_owner(pmm, frame, FrameOwner::free(), FrameOwner::untyped(id)) {
            assert(!takeable(old(pmm).frames(), frame as int));
            return Err("untyped spec overlaps a reserved range or another region");
        }
        assert(takeable(old(pmm).frames(), frame as int));
        i = i + 1;
    }
    Ok(UntypedCap::new(id, base_frame as FrameIndex, num as u32))
}

/// What is wrong with request `i`, where the requests before it have been
/// met.
pub open spec fn spec_fault(
    specs: Seq<UntypedSpec>,
    i: int,
    regions: Seq<MemoryRegion>,
    heap_len: int,
) -> Option<Seq<char>> {
    if !specs[i].aligned() {
        Some("untyped spec not frame-aligned"@)
    } else if !specs[i].in_range() {
        Some("untyped spec has invalid range"@)
    } else if exists|f: int| #[trigger]
        specs[i].covers(f) && (!pooled(regions, heap_len, f) || taken(specs, i, f)) {
        Some("untyped spec overlaps a reserved range or another region"@)
    } else {
        None
    }
}

/// True if one of the first `n` requests covers frame `f`.
pub open spec fn taken(specs: Seq<UntypedSpec>, n: int, f: int) -> bool {
    exists|j: int| 0 <= j < n && (#[trigger] specs[j]).covers(f)
}

/// What is wrong with the first faulty request among the first `n`.
pub open spec fn specs_fault(
    specs: Seq<UntypedSpec>,
    n: int,
    regions: Seq<MemoryRegion>,
    heap_len: int,
) -> Option<Seq<char>>
    decreases n,
{
    if n <= 0 {
        None
    } else if specs_fault(specs, n - 1, regions, heap_len) is Some {
        specs_fault(specs, n - 1, regions, heap_len)
    } else {
        spec_fault(specs, n - 1, regions, heap_len)
    }
}

proof fn lemma_specs_fault_stays(
    specs: Seq<UntypedSpec>,
    n: int,
    m: int,
    regions: Seq<MemoryRegion>,
    heap_len: int,
)
    requires
        0 <= n <= m,
        specs_fault(specs, n, regions, heap_len) is Some,
    ensures
        specs_fault(specs, m, regions, heap_len) == specs_fault(specs, n, regions, heap_len),
    decreases m - n,
{
    if n < m {
        lemma_specs_fault_stays(specs, n, m - 1, regions, heap_len);
    }
}

/// The owner of frame `f` once the first `n` requests have been met.
pub open spec fn boot_owner(
    specs: Seq<UntypedSpec>,
    n: int,
    regions: Seq<MemoryRegion>,
    heap_len: int,
    f: int,
) -> FrameOwner
    decreases n,
{
    if n > 0 && specs[n - 1].covers(f) {
        FrameOwner::of(OwnerTag::Untyped, (n - 1) as u32)
    } else if n > 0 {
        boot_owner(specs, n - 1, regions, heap_len, f)
    } else if pooled(regions, heap_len, f) {
        FrameOwner::of(OwnerTag::Free, 0)
    } else {
        FrameOwner::of(OwnerTag::Reserved, 0)
    }
}

/// A frame is free after boot exactly if it is in the pool and in no untyped
/// region.
pub proof fn law_free_after_boot(
    specs: Seq<UntypedSpec>,
    n: int,
    regions: Seq<MemoryRegion>,
    heap_len: int,
    f: int,
)
    requires
        0 <= n <= u32::MAX,
    ensures
        boot_owner(specs, n, regions, heap_len, f).tag() == OwnerTag::Free <==> pooled(
            regions,
            heap_len,
            f,
        ) && !taken(specs, n, f),
        boot_owner(specs, n, regions, heap_len, f) == FrameOwner::of(OwnerTag::Free, 0) <==> pooled(
            regions,
            heap_len,
            f,
        ) && !taken(specs, n, f),
        boot_owner(specs, n, regions, heap_len, f).valid(),
    decreases n,
{
    FrameOwner::law_encoding_round_trip(OwnerTag::Free, 0);
    FrameOwner::law_encoding_round_trip(OwnerTag::Reserved, 0);
    if n > 0 {
        FrameOwner::law_encoding_round_trip(OwnerTag::Untyped, (n - 1) as u32);
        law_free_after_boot(specs, n - 1, regions, heap_len, f);
        if taken(specs, n - 1, f) {
            let j = choose|j: int| 0 <= j < n - 1 && (#[trigger] specs[j]).covers(f);
            assert(specs[j].covers(f));
        }
        if specs[n - 1].covers(f) {
            assert(taken(specs, n, f));
        } else if taken(specs, n, f) {
            let j = choose|j: int| 0 <= j < n && (#[trigger] specs[j]).covers(f);
            assert(specs[j].covers(f));
        }
    }
}

/// Hand out the untyped regions in order, a cap for each.
fn carve_untyped_regions(
    pmm: &mut Pmm,
    specs: &[UntypedSpec],
    out: &mut [UntypedCap],
    Ghost(regions): Ghost<Seq<MemoryRegion>>,
    Ghost(heap_len): Ghost<int>,
) -> (r: Result<(), &'static str>)
    requires
        specs@.len() <= old(out)@.len(),
        specs@.len() <= u32::MAX,
        old(pmm).frames().len() <= u32::MAX,
        forall|f: int| pooled(regions, heap_len, f) ==> 0 <= f < old(pmm).frames().len(),
        forall|f: int|
            0 <= f < old(pmm).frames().len() ==> (#[trigger] old(pmm).frames()[f])
                == FrameInfo::zeroed_spec().with_owner(boot_owner(specs@, 0, regions, heap_len, f)),
    ensures
        final(pmm).ram.same_words(old(pmm).ram),
        final(pmm).lists == old(pmm).lists,
        final(pmm).physmap == old(pmm).physmap,
        final(pmm).table.base == old(pmm).table.base,
        final(pmm).frames().len() == old(pmm).frames().len(),
        final(out)@.len() == old(out)@.len(),
        r matches Err(e) ==> specs_fault(specs@, specs@.len() as int, regions, heap_len) == Some(
            e@,
        ),
        r is Err ==> marked_to_request(final(pmm).frames(), specs@, regions, heap_len),
        caps_written(old(out)@, final(out)@, specs@, regions, heap_len),
        r is Ok ==> {
            &&& specs_fault(specs@, specs@.len() as int, regions, heap_len) is None
            &&& forall|f: int|
                0 <= f < final(pmm).frames().len() ==> (#[trigger] final(pmm).frames()[f])
                    == FrameInfo::zeroed_spec().with_owner(
                    boot_owner(specs@, specs@.len() as int, regions, heap_len, f),
                )
        },
{
    let mut i: usize = 0;
    while i < specs.len()
        invariant
            i <= specs@.len() <= out@.len(),
            specs@.len() <= u32::MAX,
            out@.len() == old(out)@.len(),
            pmm.ram.same_words(old(pmm).ram),
            pmm.lists == old(pmm).lists,
            pmm.physmap == old(pmm).physmap,
            pmm.table.base == old(pmm).table.base,
            pmm.frames().len() == old(pmm).frames().len(),
            old(pmm).frames().len() <= u32::MAX,
            forall|f: int| pooled(regions, heap_len, f) ==> 0 <= f < old(pmm).frames().len(),
            specs_fault(specs@, i as int, regions, heap_len) is None,
            forall|f: int|
                0 <= f < pmm.frames().len() ==> (#[trigger] pmm.frames()[f])
                    == FrameInfo::zeroed_spec().with_owner(
                    boot_owner(specs@, i as int, regions, heap_len, f),
                ),
            forall|j: int| 0 <= j < i ==> is_cap_for(#[trigger] out@[j], specs@[j], j),
            forall|j: int| i <= j < old(out)@.len() ==> #[trigger] out@[j] == old(out)@[j],
        decreases specs@.len() - i,
    {
        let ghost before = pmm.frames();
        proof {
            assert forall|f: int| takeable(before, f) <==> pooled(regions, heap_len, f) && !taken(
                specs@,
                i as int,
                f,
            ) by {
                law_free_after_boot(specs@, i as int, regions, heap_len, f);
                if 0 <= f < before.len() {
                    assert(before[f].owner() == boot_owner(
                        specs@,
                        i as int,
                        regions,
                        heap_len,
                        f,
                    ));
                }
            }
        }
        match carve_untyped_region(pmm, &specs[i], i as UntypedId) {
            Err(e) => {
                proof {
                    let spec = specs@[i as int];
                    if spec.aligned() && spec.in_range() {
                        let f = choose|f: int| #[trigger]
                            spec.covers(f) && !takeable(before, f);
                        assert(spec.covers(f));
                    }
                    assert(specs_fault(specs@, i + 1, regions, heap_len) == Some(e@));
                    lemma_specs_fault_stays(
                        specs@,
                        i + 1,
                        specs@.len() as int,
                        regions,
                        heap_len,
                    );
                    lemma_caps_written(old(out)@, out@, specs@, i as int, regions, heap_len);
                    let stop = choose|stop: int| #[trigger]
                        carving_stops(before, spec, stop) && forall|f: int|
                            0 <= f < pmm.frames().len() ==> (#[trigger] pmm.frames()[f]) == (
                            if spec.covers(f) && f < stop {
                                before[f].with_owner(FrameOwner::of(OwnerTag::Untyped, i as u32))
                            } else {
                                before[f]
                            });
                    assert(request_stops(specs@, i as int, regions, heap_len, stop));
                }
                return Err(e);
            },
            Ok(cap) => {
                out[i] = cap;
            },
        }
        i = i + 1;
    }
    proof {
        lemma_caps_written(old(out)@, out@, specs@, specs@.len() as int, regions, heap_len);
    }
    Ok(())
}

/// Request `i` is the first faulty one, and handing out its frames stops
/// before frame `stop`: the first that is not in the pool or taken by a request
/// before it or, if the request makes no sense, its first.
pub open spec fn request_stops(
    specs: Seq<UntypedSpec>,
    i: int,
    regions: Seq<MemoryRegion>,
    heap_len: int,
    stop: int,
) -> bool {
    &&& 0 <= i < specs.len()
    &&& specs_fault(specs, i, regions, heap_len) is None
    &&& spec_fault(specs, i, regions, heap_len) is Some
    &&& if specs[i].aligned() && specs[i].in_range() {
        &&& specs[i].covers(stop)
        &&& !pooled(regions, heap_len, stop) || taken(specs, i, stop)
        &&& forall|f: int| #[trigger]
            specs[i].covers(f) && f < stop ==> pooled(regions, heap_len, f) && !taken(specs, i, f)
    } else {
        stop == specs[i].first_frame()
    }
}

/// The frame table where a request for an untyped region is faulty: the
/// requests before the first such one have their frames, and it has those
/// before the one that it stops at.
pub open spec fn marked_to_request(
    frames: Seq<FrameInfo>,
    specs: Seq<UntypedSpec>,
    regions: Seq<MemoryRegion>,
    heap_len: int,
) -> bool {
    exists|i: int, stop: int| #[trigger]
        request_stops(specs, i, regions, heap_len, stop) && forall|f: int|
            0 <= f < frames.len() ==> (#[trigger] frames[f])
                == FrameInfo::zeroed_spec().with_owner(
                if specs[i].covers(f) && f < stop {
                    FrameOwner::of(OwnerTag::Untyped, i as u32)
                } else {
                    boot_owner(specs, i, regions, heap_len, f)
                },
            )
}

/// What handing out untyped regions makes of the caps in `before`: a cap for
/// each request up to the first faulty one, the others as they were.
pub open spec fn caps_written(
    before: Seq<UntypedCap>,
    after: Seq<UntypedCap>,
    specs: Seq<UntypedSpec>,
    regions: Seq<MemoryRegion>,
    heap_len: int,
) -> bool {
    &&& after.len() == before.len()
    &&& forall|i: int|
        0 <= i < after.len() ==> if i < specs.len() && specs_fault(
            specs,
            i + 1,
            regions,
            heap_len,
        ) is None {
            is_cap_for(#[trigger] after[i], specs[i], i)
        } else {
            after[i] == before[i]
        }
}

proof fn lemma_caps_written(
    before: Seq<UntypedCap>,
    after: Seq<UntypedCap>,
    specs: Seq<UntypedSpec>,
    n: int,
    regions: Seq<MemoryRegion>,
    heap_len: int,
)
    requires
        0 <= n <= specs.len() <= before.len(),
        after.len() == before.len(),
        specs_fault(specs, n, regions, heap_len) is None,
        n < specs.len() ==> specs_fault(specs, n + 1, regions, heap_len) is Some,
        forall|j: int| 0 <= j < n ==> is_cap_for(#[trigger] after[j], specs[j], j),
        forall|j: int| n <= j < before.len() ==> #[trigger] after[j] == before[j],
    ensures
        caps_written(before, after, specs, regions, heap_len),
{
    assert forall|i: int| 0 <= i < after.len() implies if i < specs.len() && specs_fault(
        specs,
        i + 1,
        regions,
        heap_len,
    ) is None {
        is_cap_for(#[trigger] after[i], specs[i], i)
    } else {
        after[i] == before[i]
    } by {
        if i < n && specs_fault(specs, i + 1, regions, heap_len) is Some {
            lemma_specs_fault_stays(specs, i + 1, n, regions, heap_len);
        }
        if n <= i < specs.len() {
            lemma_specs_fault_stays(specs, n + 1, i + 1, regions, heap_len);
        }
    }
}

/// A frame that is not in the pool stays reserved.
proof fn lemma_unpooled(
    specs: Seq<UntypedSpec>,
    n: int,
    regions: Seq<MemoryRegion>,
    heap_len: int,
    f: int,
)
    requires
        0 <= n <= specs.len(),
        specs_fault(specs, n, regions, heap_len) is None,
        !pooled(regions, heap_len, f),
    ensures
        boot_owner(specs, n, regions, heap_len, f) == FrameOwner::of(OwnerTag::Reserved, 0),
        boot_owner(specs, n, regions, heap_len, f).tag() == OwnerTag::Reserved,
    decreases n,
{
    FrameOwner::law_encoding_round_trip(OwnerTag::Reserved, 0);
    if n > 0 {
        assert(spec_fault(specs, n - 1, regions, heap_len) is None);
        lemma_unpooled(specs, n - 1, regions, heap_len, f);
    }
}

/// The cap that request number `i` gives.
pub open spec fn is_cap_for(cap: UntypedCap, spec: UntypedSpec, i: int) -> bool {
    &&& cap.id() == i
    &&& cap.base_frame() == spec.first_frame()
    &&& cap.num_frames() == spec.frame_count()
    &&& cap.next_try() == cap.base_frame()
}

// ---------------------------------------------------------------------------
// Initialization
// ---------------------------------------------------------------------------

/// Result of [`pmm_init`].
pub struct PmInitOut {
    pub total_frames: usize,
    /// Frames in the kernel pool (the global free list).
    pub free_frames: u64,
    pub frame_table_frames: usize,
    /// Number of untyped caps created.
    pub untyped_created: usize,
    /// Physical start of the kernel heap region; 0 if `heap_len` was 0.
    pub heap_phys: u64,
    /// Length of the kernel heap region (always a multiple of FRAME_SIZE).
    pub heap_len: u64,
    /// Highest usable physical end (i.e. `total_frames * FRAME_SIZE`).
    pub ram_end: u64,
}

impl<'a> BootInfo<'a> {
    /// The memory map with the kernel image taken out.
    pub open spec fn map(self) -> Seq<MemoryRegion> {
        effective(self.regions@, self.kernel_image, self.regions@.len() as int)
    }
}

/// Why [`pmm_init`] fails before it has a frame table, if it does: the first
/// of its checks that does not hold.
pub open spec fn early_fault(
    table_at: u64,
    boot: BootInfo<'_>,
    specs: Seq<UntypedSpec>,
    room: int,
) -> Option<Seq<char>> {
    let map = boot.map();
    if specs.len() > room {
        Some("untyped output buffer too small"@)
    } else if !regions_aligned(boot.regions@) {
        Some("usable region not frame-aligned"@)
    } else if map.len() >= MAX_EFFECTIVE_REGIONS {
        Some("too many memory regions"@)
    } else if usable_end(map, map.len() as int) == 0 {
        Some("no usable memory"@)
    } else if table_fit(map).0 is None {
        Some("cannot allocate frame table"@)
    } else if table_at != 0 {
        Some("frame table already initialized"@)
    } else {
        None
    }
}

/// Why [`pmm_init`] fails before it hands out untyped regions, if it does.
pub open spec fn map_fault(
    table_at: u64,
    boot: BootInfo<'_>,
    specs: Seq<UntypedSpec>,
    room: int,
    heap_len: int,
) -> Option<Seq<char>> {
    let map = boot.map();
    if early_fault(table_at, boot, specs, room) is Some {
        early_fault(table_at, boot, specs, room)
    } else if heap_len != 0 && heap_fit(map, heap_len).0 is None {
        Some("cannot allocate kernel heap"@)
    } else if overlapping(map, heap_len, map.len() as int) {
        Some("overlapping memory map entries"@)
    } else {
        None
    }
}

/// Why [`pmm_init`] fails, if it does.
pub open spec fn init_fault(
    table_at: u64,
    boot: BootInfo<'_>,
    specs: Seq<UntypedSpec>,
    room: int,
    heap_len: int,
) -> Option<Seq<char>> {
    if map_fault(table_at, boot, specs, room, heap_len) is Some {
        map_fault(table_at, boot, specs, room, heap_len)
    } else {
        specs_fault(specs, specs.len() as int, boot.map(), heap_len)
    }
}

/// The memory map fits the machine: usable memory ends within the 16 TiB that
/// frame indices reach and is all there.
pub open spec fn machine_fits(pmm: Pmm, boot: BootInfo<'_>) -> bool {
    &&& usable_end(boot.regions@, boot.regions@.len() as int) <= u32::MAX * 4096
    &&& usable_end(boot.regions@, boot.regions@.len() as int) <= pmm.ram_words().len() * 8
    &&& boot.physmap_base + usable_end(boot.regions@, boot.regions@.len() as int) <= u64::MAX
}

/// Highest end of a usable region; 0 if there is none.
pub fn highest_end(regions: &[MemoryRegion]) -> (r: u64)
    requires
        regions_ok(regions@),
    ensures
        r == usable_end(regions@, regions@.len() as int),
{
    let mut max_end: u64 = 0;
    let mut i: usize = 0;
    while i < regions.len()
        invariant
            i <= regions@.len(),
            regions_ok(regions@),
            max_end == usable_end(regions@, i as int),
        decreases regions@.len() - i,
    {
        if regions[i].kind == RegionKind::Usable {
            let end = regions[i].end();
            if end > max_end {
                max_end = end;
            }
        }
        i = i + 1;
    }
    max_end
}

/// True if every usable region starts and ends on a frame boundary.
fn all_aligned(regions: &[MemoryRegion]) -> (r: bool)
    ensures
        r == regions_aligned(regions@),
{
    let mut i: usize = 0;
    while i < regions.len()
        invariant
            i <= regions@.len(),
            forall|k: int|
                0 <= k < i && (#[trigger] regions@[k]).usable() ==> regions@[k].start % 4096 == 0
                    && regions@[k].len % 4096 == 0,
        decreases regions@.len() - i,
    {
        let region = regions[i];
        if region.kind == RegionKind::Usable && (region.start % FRAME_SIZE != 0 || region.len
            % FRAME_SIZE != 0) {
            assert(regions@[i as int].usable());
            return false;
        }
        i = i + 1;
    }
    true
}

/// What [`pmm_init`] leaves where there is no room for the kernel heap: the
/// frame table is there, in zeroed memory, with every frame reserved.
pub open spec fn table_only(
    before: Pmm,
    after: Pmm,
    physmap_base: u64,
    map: Seq<MemoryRegion>,
) -> bool {
    &&& after.wf()
    &&& after.physmap_at() == physmap_base
    &&& after.table_at() == physmap_base + table_phys(map)
    &&& after.table_words() == table_span(map)
    &&& after.frames() == Seq::new(frame_count(map) as nat, |i: int| FrameInfo::zeroed_spec())
    &&& after.ram_words().len() == before.ram_words().len()
    &&& forall|w: int|
        0 <= w < before.ram_words().len() ==> #[trigger] after.ram_words()[w] == (if in_kept(
            map,
            0,
            w * 8,
        ) {
            0
        } else {
            before.ram_words()[w]
        })
}

/// What [`pmm_init`] leaves where the memory map or a request for an untyped
/// region turns out to be faulty: the frame table is there, and the frames up
/// to the fault have been given their owner; none is on a free list.
pub open spec fn half_marked(
    before: Pmm,
    after: Pmm,
    boot: BootInfo<'_>,
    specs: Seq<UntypedSpec>,
    heap_len: int,
) -> bool {
    let map = boot.map();
    &&& after.physmap_at() == boot.physmap_base
    &&& after.table_at() == boot.physmap_base + table_phys(map)
    &&& after.table_words() == table_span(map)
    &&& after.frames().len() == frame_count(map)
    &&& if overlapping(map, heap_len, map.len() as int) {
        marked_to_clash(after.frames(), map, heap_len)
    } else {
        marked_to_request(after.frames(), specs, map, heap_len)
    }
    &&& forall|k: int| 0 <= k <= SHARD_COUNT ==> (#[trigger] after.list(k)).len() == 0
    &&& after.ram_words().len() == before.ram_words().len()
    &&& forall|w: int|
        0 <= w < before.ram_words().len() ==> #[trigger] after.ram_words()[w] == (if in_kept(
            map,
            heap_len,
            w * 8,
        ) {
            0
        } else {
            before.ram_words()[w]
        })
}

/// What [`pmm_init`] leaves where it fails: before it has made a frame table,
/// all as it was but for the physmap base.
pub open spec fn init_failed(
    before: Pmm,
    after: Pmm,
    boot: BootInfo<'_>,
    specs: Seq<UntypedSpec>,
    room: int,
    heap_len: int,
) -> bool {
    if specs.len() > room {
        after == before
    } else if early_fault(before.table_at(), boot, specs, room) is Some {
        &&& before.wf() ==> after.wf()
        &&& after.physmap_at() == boot.physmap_base
        &&& after.table_at() == before.table_at()
        &&& after.table_words() == before.table_words()
        &&& after.frames() == before.frames()
        &&& after.ram_words() == before.ram_words()
        &&& forall|k: int| #[trigger] after.list(k) == before.list(k)
    } else if heap_len != 0 && heap_fit(boot.map(), heap_len).0 is None {
        table_only(before, after, boot.physmap_base, boot.map())
    } else {
        half_marked(before, after, boot, specs, heap_len)
    }
}

/// Carve the frame table and then the kernel heap out of usable memory, and
/// zero them. Returns where the frame table and the heap start; 0 for the heap
/// if there is none.
#[verifier::spinoff_prover]
#[verifier::rlimit(30)]
fn carve_table_and_heap(
    pmm: &mut Pmm,
    regions: &[MemoryRegion],
    total: usize,
    heap_len: u64,
) -> (r: Result<(u64, u64), &'static str>)
    requires
        old(pmm).table_at() == 0 ==> old(pmm).wf(),
        old(pmm).physmap_at() != 0,
        heap_len % FRAME_SIZE == 0,
        regions_ok(regions@),
        total == frame_count(regions@),
        0 < total <= u32::MAX,
        usable_end(regions@, regions@.len() as int) <= old(pmm).ram_words().len() * 8,
        usable_end(regions@, regions@.len() as int) == total * 4096,
        old(pmm).physmap_at() + usable_end(regions@, regions@.len() as int) <= u64::MAX,
    ensures
        final(pmm).physmap == old(pmm).physmap,
        table_fit(regions@).0 is None || old(pmm).table_at() != 0 ==> *final(pmm) == *old(pmm),
        r is Ok <==> table_fit(regions@).0 is Some && old(pmm).table_at() == 0 && (heap_len == 0
            || heap_fit(regions@, heap_len as int).0 is Some),
        r matches Err(e) ==> e@ == (if table_fit(regions@).0 is None {
            "cannot allocate frame table"@
        } else if old(pmm).table_at() != 0 {
            "frame table already initialized"@
        } else {
            "cannot allocate kernel heap"@
        }),
        r is Err && table_fit(regions@).0 is Some && old(pmm).table_at() == 0 ==> table_only(
            *old(pmm),
            *final(pmm),
            old(pmm).physmap_at(),
            regions@,
        ),
        r matches Ok((ft_phys, hp)) ==> {
            &&& ft_phys == table_phys(regions@)
            &&& ft_phys + total * FRAME_INFO_SIZE <= u64::MAX
            &&& hp == (if heap_len != 0 {
                heap_phys(regions@, heap_len as int)
            } else {
                0
            })
            &&& hp + heap_len <= u64::MAX
            &&& final(pmm).table_at() == old(pmm).physmap_at() + ft_phys
            &&& final(pmm).table_words() == table_span(regions@)
            &&& ft_phys % 4096 == 0
            &&& final(pmm).frames() == Seq::new(total as nat, |i: int| FrameInfo::zeroed_spec())
            &&& forall|k: int|
                0 <= k <= SHARD_COUNT ==> (#[trigger] final(pmm).shard_at(k)).head == LIST_END
                    && final(pmm).shard_at(k).count == 0 && final(pmm).list(k).len() == 0
            &&& final(pmm).ram_words().len() == old(pmm).ram_words().len()
            &&& forall|w: int|
                0 <= w < old(pmm).ram_words().len() ==> #[trigger] final(pmm).ram_words()[w] == (
                if in_kept(regions@, heap_len as int, w * 8) {
                    0
                } else {
                    old(pmm).ram_words()[w]
                })
        },
{
    let ghost map = regions@;
    proof {
        pmm.ram.lemma_len();
    }
    let ft_bytes = total as u64 * FRAME_INFO_SIZE;
    let mut boot_alloc = BootAllocator::new(regions);
    proof {
        lemma_fit_in_map(map, 0, 0, ft_bytes as int);
    }
    let ft_phys = match boot_alloc.allocate(ft_bytes, FRAME_SIZE) {
        None => {
            return Err("cannot allocate frame table");
        },
        Some(ft_phys) => ft_phys,
    };
    let ft_va = phys_to_virt(&pmm.physmap, ft_phys);
    match init_table_zeroed(pmm, ft_va, ft_phys, total, ft_bytes) {
        Err(e) => {
            return Err(e);
        },
        Ok(()) => {},
    }
    let ghost p1 = *pmm;
    let hp = if heap_len != 0 {
        proof {
            lemma_bump(map, 0, 0, ft_bytes as int, 4096);
            lemma_fit_in_map(map, table_fit(map).1, table_fit(map).2, heap_len as int);
        }
        let hp = match boot_alloc.allocate(heap_len, FRAME_SIZE) {
            None => {
                proof {
                    assert(pmm.frames() =~= Seq::new(
                        frame_count(map) as nat,
                        |i: int| FrameInfo::zeroed_spec(),
                    ));
                    assert forall|w: int|
                        0 <= w < old(pmm).ram_words().len() implies #[trigger] pmm.ram_words()[w]
                        == (if in_kept(map, 0, w * 8) {
                        0
                    } else {
                        old(pmm).ram_words()[w]
                    }) by {
                        assert(p1.ram_words()[w] == (if ft_phys <= w * 8 < ft_phys + ft_bytes {
                            0
                        } else {
                            old(pmm).ram_words()[w]
                        }));
                    }
                }
                return Err("cannot allocate kernel heap");
            },
            Some(hp) => hp,
        };
        pmm.ram.zero((hp / 8) as usize, (heap_len / 8) as usize);
        hp
    } else {
        0
    };
    proof {
        assert forall|w: int|
            0 <= w < old(pmm).ram_words().len() implies #[trigger] pmm.ram_words()[w] == (
        if in_kept(map, heap_len as int, w * 8) {
            0
        } else {
            old(pmm).ram_words()[w]
        }) by {
            assert(p1.ram_words()[w] == (if ft_phys <= w * 8 < ft_phys + ft_bytes {
                0
            } else {
                old(pmm).ram_words()[w]
            }));
        }
        assert forall|k: int| 0 <= k <= SHARD_COUNT implies (#[trigger] pmm.shard_at(k)).head
            == LIST_END && pmm.shard_at(k).count == 0 && pmm.list(k).len() == 0 by {
            reveal(Pmm::wf);
            assert(p1.list(k).len() == 0);
            assert(pmm::links(p1.shard_at(k), p1.ram_words()));
            assert(pmm.shard_at(k) == p1.shard_at(k));
        }
    }
    Ok((ft_phys, hp))
}

/// What a successful [`pmm_init`] makes of `before`, and reports.
pub open spec fn initialised(
    before: Pmm,
    after: Pmm,
    boot: BootInfo<'_>,
    specs: Seq<UntypedSpec>,
    heap_len: int,
    out: PmInitOut,
) -> bool {
    let map = boot.map();
    &&& after.wf()
    &&& after.physmap_at() == boot.physmap_base
    &&& after.table_at() == boot.physmap_base + table_phys(map)
    &&& after.table_words() == table_span(map)
    &&& after.frames().len() == frame_count(map)
    &&& forall|f: int|
        0 <= f < after.frames().len() ==> (#[trigger] after.frames()[f])
            == FrameInfo::zeroed_spec().with_owner(
            boot_owner(specs, specs.len() as int, map, heap_len, f),
        )
    &&& after.local_list().len() == 0
    &&& after.list(pmm::global_list()) == allocator::free_below(
        after.frames(),
        after.frames().len() as int,
    )
    &&& out.total_frames == frame_count(map)
    &&& out.free_frames == after.free_count()
    &&& out.frame_table_frames == table_bytes(map) / 4096
    &&& out.untyped_created == specs.len()
    &&& out.heap_phys == (if heap_len != 0 {
        heap_phys(map, heap_len)
    } else {
        0
    })
    &&& out.heap_len == heap_len
    &&& out.ram_end == usable_end(map, map.len() as int)
    &&& after.ram_words().len() == before.ram_words().len()
    &&& forall|w: int|
        0 <= w < before.ram_words().len() && !after.free(w / FRAME_WORDS as int)
            ==> #[trigger] after.ram_words()[w] == (if in_kept(map, heap_len, w * 8) {
            0
        } else {
            before.ram_words()[w]
        })
}

/// The frames that are in the pool after boot.
pub open spec fn boot_pool(
    specs: Seq<UntypedSpec>,
    map: Seq<MemoryRegion>,
    heap_len: int,
) -> Set<int> {
    vstd::set_lib::set_int_range(0, frame_count(map)).filter(
        |f: int| pooled(map, heap_len, f) && !taken(specs, specs.len() as int, f),
    )
}

/// The frames that [`pmm_init`] leaves free are those of the pool.
pub proof fn law_boot_pool(
    before: Pmm,
    after: Pmm,
    boot: BootInfo<'_>,
    specs: Seq<UntypedSpec>,
    heap_len: int,
    out: PmInitOut,
)
    requires
        initialised(before, after, boot, specs, heap_len, out),
        specs.len() <= u32::MAX,
    ensures
        after.free_set() == boot_pool(specs, boot.map(), heap_len),
        out.free_frames == boot_pool(specs, boot.map(), heap_len).len(),
{
    assert forall|f: int| 0 <= f < after.frames().len() implies #[trigger] after.free(f) == (pooled(
        boot.map(),
        heap_len,
        f,
    ) && !taken(specs, specs.len() as int, f)) by {
        law_free_after_boot(specs, specs.len() as int, boot.map(), heap_len, f);
        assert(after.frames()[f].owner() == boot_owner(
            specs,
            specs.len() as int,
            boot.map(),
            heap_len,
            f,
        ));
    }
    assert(after.free_set() =~= boot_pool(specs, boot.map(), heap_len));
}

/// Initialize the physical memory manager.
///
/// Boot-only, idempotent-guarded. Steps:
///   1. establish the physmap base and the frame table (via [`BootAllocator`]),
///   2. carve `heap_len` bytes right after the frame table for the kernel
///      heap (see [`crate::heap::heap_init`]); the region is zeroed and kept
///      out of the frame pool,
///   3. mark every frame Reserved, then every usable frame Free (skipping the
///      kernel image, frame table and heap),
///   4. reserve the given `specs` as untyped regions (`Free` to `Untyped`),
///   5. build the kernel-pool free list from the remaining Free frames.
///
/// Each spec becomes an `UntypedCap` written into `out_untyped[i]`. Once there
/// is a frame table, whatever became of the call that made it, every further
/// call is refused.
pub fn pmm_init(
    pmm: &mut Pmm,
    boot: &BootInfo<'_>,
    specs: &[UntypedSpec],
    out_untyped: &mut [UntypedCap],
    heap_len: u64,
) -> (r: Result<PmInitOut, &'static str>)
    requires
        old(pmm).table_at() == 0 ==> old(pmm).wf(),
        heap_len % FRAME_SIZE == 0,
        boot.physmap_base != 0,
        old(pmm).physmap_at() == 0 || old(pmm).physmap_at() == boot.physmap_base,
        regions_ok(boot.regions@),
        image_ok(boot.kernel_image),
        machine_fits(*old(pmm), *boot),
        specs@.len() <= u32::MAX,
    ensures
        final(out_untyped)@.len() == old(out_untyped)@.len(),
        ({
            let map = boot.map();
            let len = heap_len as int;
            let room = old(out_untyped)@.len() as int;
            let fault = init_fault(old(pmm).table_at(), *boot, specs@, room, len);
            &&& r is Ok <==> fault is None
            &&& r matches Err(e) ==> fault == Some(e@)
            &&& r is Err ==> init_failed(*old(pmm), *final(pmm), *boot, specs@, room, len)
            &&& map_fault(old(pmm).table_at(), *boot, specs@, room, len) is Some ==> final(out_untyped)@ == old(out_untyped)@
            &&& map_fault(old(pmm).table_at(), *boot, specs@, room, len) is None ==> caps_written(old(out_untyped)@, final(out_untyped)@, specs@, map, len)
            &&& r matches Ok(out) ==> {
                &&& initialised(*old(pmm), *final(pmm), *boot, specs@, len, out)
                &&& forall|i: int|
                    0 <= i < specs@.len() ==> is_cap_for(
                        #[trigger] final(out_untyped)@[i],
                        specs@[i],
                        i,
                    )
                &&& forall|i: int|
                    specs@.len() <= i < old(out_untyped)@.len() ==> #[trigger] final(out_untyped)@[i] == old(out_untyped)@[i]
            }
        }),
{
    if specs.len() > out_untyped.len() {
        return Err("untyped output buffer too small");
    }
    set_physmap_base(&mut pmm.physmap, boot.physmap_base);
    proof {
        if old(pmm).wf() {
            Pmm::lemma_writes_keep_wf(*old(pmm), *pmm);
        }
    }
    if !all_aligned(boot.regions) {
        return Err("usable region not frame-aligned");
    }
    let regions = match build_effective(boot) {
        Err(e) => {
            return Err(e);
        },
        Ok(regions) => regions,
    };
    let ghost map = boot.map();
    proof {
        lemma_effective_parts(boot.regions@, boot.kernel_image, boot.regions@.len() as int);
        lemma_usable_end(map, map.len() as int);
        lemma_usable_end(boot.regions@, boot.regions@.len() as int);
        lemma_map_end(*boot);
    }
    let max_end = highest_end(regions.as_slice());
    if max_end == 0 {
        return Err("no usable memory");
    }
    proof {
        pmm.ram.lemma_len();
    }
    let total = ceil_div(max_end, FRAME_SIZE) as usize;
    let ft_bytes = total as u64 * FRAME_INFO_SIZE;
    proof {
        lemma_map_end_aligned(map);
    }
    let (ft_phys, hp) = match carve_table_and_heap(pmm, regions.as_slice(), total, heap_len) {
        Err(e) => {
            return Err(e);
        },
        Ok(kept) => kept,
    };
    let ghost p2 = *pmm;
    if !mark_usable(pmm, regions.as_slice(), ft_phys, ft_phys + ft_bytes, hp, heap_len) {
        proof {
            assert forall|k: int| 0 <= k <= SHARD_COUNT implies (#[trigger] pmm.list(k)).len()
                == 0 by {
                assert(pmm.shard_at(k) == p2.shard_at(k));
                assert(p2.list(k).len() == 0);
            }
            assert(half_marked(*old(pmm), *pmm, *boot, specs@, heap_len as int));
        }
        return Err("overlapping memory map entries");
    }
    proof {
        assert forall|f: int| pooled(map, heap_len as int, f) implies 0 <= f < pmm.frames().len() by {
            let k = choose|k: int| 0 <= k < map.len() && (#[trigger] map[k]).backs(f * 4096);
            assert(map[k].usable());
        }
    }
    match carve_untyped_regions(pmm, specs, out_untyped, Ghost(map), Ghost(heap_len as int)) {
        Err(e) => {
            proof {
                assert forall|k: int| 0 <= k <= SHARD_COUNT implies (#[trigger] pmm.list(k)).len()
                    == 0 by {
                    assert(pmm.shard_at(k) == p2.shard_at(k));
                    assert(p2.list(k).len() == 0);
                }
                assert(half_marked(*old(pmm), *pmm, *boot, specs@, heap_len as int));
            }
            return Err(e);
        },
        Ok(()) => {},
    }
    let ghost p3 = *pmm;
    proof {
        assert forall|f: int| 0 <= f < p3.frames().len() implies (
        #[trigger] p3.frames()[f]).owner().valid() by {
            law_free_after_boot(specs@, specs@.len() as int, map, heap_len as int, f);
        }
        assert forall|k: int| 0 <= k <= SHARD_COUNT implies (#[trigger] p3.shard_at(k)).head
            == LIST_END && p3.shard_at(k).count == 0 && p3.list(k).len() == 0 by {
            assert(p3.shard_at(k) == p2.shard_at(k));
        }
    }
    proof {
        assert forall|i: int, f: int|
            0 <= f < p3.frames().len() && #[trigger] pmm::in_frame(i, f) && p3.ram.in_table(
                i,
            ) implies p3.frames()[f].owner_tag() == OwnerTag::Reserved by {
            assert(p2.ram.in_table(i));
            assert(table_phys(map) <= i * 8 < table_phys(map) + table_bytes(map));
            assert(table_phys(map) <= f * 4096 <= i * 8);
            assert(!pooled(map, heap_len as int, f));
            lemma_unpooled(specs@, specs@.len() as int, map, heap_len as int, f);
            assert(p3.frames()[f].owner() == boot_owner(
                specs@,
                specs@.len() as int,
                map,
                heap_len as int,
                f,
            ));
        }
    }
    let free = build_global_freelist(pmm);
    proof {
        assert forall|i: int| 0 <= i < specs@.len() implies is_cap_for(
            #[trigger] out_untyped@[i],
            specs@[i],
            i,
        ) by {
            if specs_fault(specs@, i + 1, map, heap_len as int) is Some {
                lemma_specs_fault_stays(
                    specs@,
                    i + 1,
                    specs@.len() as int,
                    map,
                    heap_len as int,
                );
            }
        }
        pmm.lemma_free_count();
        assert(forall|f: int| #[trigger] pmm.free(f) == p3.free(f));
    }
    Ok(
        PmInitOut {
            total_frames: total,
            free_frames: free,
            frame_table_frames: (ft_bytes / FRAME_SIZE) as usize,
            untyped_created: specs.len(),
            heap_phys: hp,
            heap_len,
            ram_end: max_end,
        },
    )
}

/// There is one frame table: once a call of [`pmm_init`] has made it, whether
/// that call succeeded or not, every later one fails.
pub proof fn law_init_happens_once(
    before: Pmm,
    after: Pmm,
    boot: BootInfo<'_>,
    specs: Seq<UntypedSpec>,
    room: int,
    heap_len: int,
    later: BootInfo<'_>,
    later_specs: Seq<UntypedSpec>,
    later_room: int,
    later_len: int,
)
    requires
        boot.physmap_base != 0,
        machine_fits(before, boot),
        regions_ok(boot.regions@),
        image_ok(boot.kernel_image),
        early_fault(before.table_at(), boot, specs, room) is None,
        init_failed(before, after, boot, specs, room, heap_len) || exists|out: PmInitOut| #[trigger]
            initialised(before, after, boot, specs, heap_len, out),
    ensures
        init_fault(after.table_at(), later, later_specs, later_room, later_len) is Some,
{
    let map = boot.map();
    lemma_map_end(boot);
    lemma_usable_end(map, map.len() as int);
    lemma_fit_in_map(map, 0, 0, table_bytes(map));
}

/// What the boot allocator hands out lies within usable memory.
pub(crate) proof fn lemma_fit_in_map(map: Seq<MemoryRegion>, next: int, cursor: int, size: int)
    requires
        0 <= next,
        size >= 0,
    ensures
        bump(map, next, cursor, size, 4096).0 matches Some(a) ==> {
            &&& a % 4096 == 0
            &&& 0 <= a
            &&& a + size <= usable_end(map, map.len() as int)
        },
{
    lemma_bump(map, next, cursor, size, 4096);
    lemma_usable_end(map, map.len() as int);
    let r = bump(map, next, cursor, size, 4096);
    if r.0 is Some {
        if r.2 != 0 || !(0 < r.1 && map[r.1 - 1].usable()) {
            if r.1 < map.len() && map[r.1].usable() {
                assert(map[r.1].usable());
            }
        }
        if 0 < r.1 <= map.len() && map[r.1 - 1].usable() {
            assert(map[r.1 - 1].usable());
        }
    }
}

/// The highest usable end is a frame boundary.
proof fn lemma_map_end_aligned(map: Seq<MemoryRegion>)
    requires
        regions_aligned(map),
    ensures
        usable_end(map, map.len() as int) == frame_count(map) * 4096,
{
    lemma_usable_end(map, map.len() as int);
    if usable_end(map, map.len() as int) > 0 {
        let k = choose|k: int|
            0 <= k < map.len() && (#[trigger] map[k]).usable() && map[k].end_at() == usable_end(
                map,
                map.len() as int,
            );
        assert(map[k].usable());
    }
}

/// Taking the kernel image out does not raise the highest usable end.
pub(crate) proof fn lemma_map_end(boot: BootInfo<'_>)
    requires
        regions_ok(boot.regions@),
        image_ok(boot.kernel_image),
    ensures
        usable_end(boot.map(), boot.map().len() as int) <= usable_end(
            boot.regions@,
            boot.regions@.len() as int,
        ),
{
    let map = boot.map();
    lemma_effective_parts(boot.regions@, boot.kernel_image, boot.regions@.len() as int);
    lemma_usable_end(map, map.len() as int);
    lemma_usable_end(boot.regions@, boot.regions@.len() as int);
    if usable_end(map, map.len() as int) > 0 {
        let k = choose|k: int|
            0 <= k < map.len() && (#[trigger] map[k]).usable() && map[k].end_at() == usable_end(
                map,
                map.len() as int,
            );
        assert(map[k].usable());
        let i = choose|i: int|
            0 <= i < boot.regions@.len() && (#[trigger] boot.regions@[i]).usable()
                && boot.regions@[i].start <= map[k].start && map[k].end_at()
                <= boot.regions@[i].end_at();
        assert(boot.regions@[i].usable());
    }
}

// ---------------------------------------------------------------------------
// Laws
// ---------------------------------------------------------------------------

/// True if the regions are in address order and do not overlap.
pub open spec fn in_address_order(regions: Seq<MemoryRegion>) -> bool {
    forall|i: int, j: int|
        0 <= i < j < regions.len() ==> (#[trigger] regions[i]).end_at() <= (
        #[trigger] regions[j]).start
}

/// True if the usable regions are in address order and do not overlap.
pub open spec fn usable_in_order(regions: Seq<MemoryRegion>) -> bool {
    forall|i: int, j: int|
        0 <= i < j < regions.len() && (#[trigger] regions[i]).usable() && (
        #[trigger] regions[j]).usable() ==> regions[i].end_at() <= regions[j].start
}

/// Taking the kernel image out leaves no usable memory in the frames that the
/// image touches, and loses none elsewhere.
pub proof fn law_effective_excludes_image(
    regions: Seq<MemoryRegion>,
    image: (u64, u64),
    n: int,
    phys: int,
)
    requires
        0 <= n <= regions.len(),
        regions_ok(regions),
        image_ok(image),
    ensures
        backed(effective(regions, image, n), effective(regions, image, n).len() as int, phys)
            <==> backed(regions, n, phys) && !(image_start(image) <= phys < image_end(image)),
    decreases n,
{
    math::law_rounded_down(image.0 as int, 4096);
    math::law_rounded_up(image.0 + image.1, 4096);
    let all = effective(regions, image, n);
    if n > 0 {
        law_effective_excludes_image(regions, image, n - 1, phys);
        lemma_backed_step(regions, n - 1, phys);
        let before = effective(regions, image, n - 1);
        let region = regions[n - 1];
        let parts = without_image(region, image);
        assert forall|k: int| 0 <= k < parts.len() implies all[before.len() + k]
            == #[trigger] parts[k] by {}
        assert(forall|k: int| 0 <= k < before.len() ==> all[k] == #[trigger] before[k]);
        if backed(before, before.len() as int, phys) {
            let k = choose|k: int| 0 <= k < before.len() && (#[trigger] before[k]).backs(phys);
            assert(all[k].backs(phys));
        }
        if region.backs(phys) && !(image_start(image) <= phys < image_end(image)) {
            let k = if parts.len() == 2 && phys >= image_end(image) {
                1int
            } else {
                0int
            };
            assert(parts[k].backs(phys));
            assert(all[before.len() + k].backs(phys));
        }
        if backed(all, all.len() as int, phys) {
            let k = choose|k: int| 0 <= k < all.len() && (#[trigger] all[k]).backs(phys);
            if k < before.len() {
                assert(before[k].backs(phys));
            } else {
                assert(parts[k - before.len()].backs(phys));
            }
        }
    }
}

/// Regions remain in address order when the kernel image is taken out: all of
/// them, if all were, and in any case the usable ones, if those were.
pub proof fn law_effective_keeps_order(regions: Seq<MemoryRegion>, image: (u64, u64), n: int)
    requires
        0 <= n <= regions.len(),
        regions_ok(regions),
        image_ok(image),
    ensures
        in_address_order(regions) ==> in_address_order(effective(regions, image, n)),
        usable_in_order(regions) ==> usable_in_order(effective(regions, image, n)),
    decreases n,
{
    math::law_rounded_down(image.0 as int, 4096);
    math::law_rounded_up(image.0 + image.1, 4096);
    if n > 0 {
        law_effective_keeps_order(regions, image, n - 1);
        lemma_without_image(regions[n - 1], image);
        lemma_effective_within(regions, image, n - 1);
        let before = effective(regions, image, n - 1);
        let region = regions[n - 1];
        let parts = without_image(region, image);
        let all = effective(regions, image, n);
        assert forall|i: int, j: int|
            0 <= i < j < all.len() && (in_address_order(regions) || usable_in_order(regions) && (
            #[trigger] all[i]).usable() && (#[trigger] all[j]).usable()) implies all[i].end_at()
            <= all[j].start by {
            if j < before.len() {
                assert(all[i] == before[i] && all[j] == before[j]);
            } else {
                assert(all[j] == parts[j - before.len()]);
                if i < before.len() {
                    assert(all[i] == before[i]);
                    let m = choose|m: int|
                        0 <= m < n - 1 && #[trigger] within(before[i], regions[m]);
                    assert(regions[m].usable() == before[i].usable());
                    assert(regions[n - 1].usable() == all[j].usable());
                } else {
                    assert(all[i] == parts[i - before.len()]);
                }
            }
        }
    }
}

/// What is not in use of the regions from number `next` on, of which the first
/// is in use up to `cursor`, lies at `floor` or above.
pub open spec fn rest_above(
    map: Seq<MemoryRegion>,
    next: int,
    cursor: int,
    floor: int,
) -> bool {
    forall|k: int|
        next <= k < map.len() && (#[trigger] map[k]).usable() ==> floor <= map[k].start || k == next
            && floor <= cursor
}

/// Boot allocations leave what lies below unused memory alone.
proof fn lemma_bump_above(
    map: Seq<MemoryRegion>,
    next: int,
    cursor: int,
    size: int,
    align: int,
    floor: int,
)
    requires
        rest_above(map, next, cursor, floor),
        0 <= next,
        align > 0,
        size >= 0,
    ensures
        ({
            let r = bump(map, next, cursor, size, align);
            &&& r.0 matches Some(a) ==> a >= floor
            &&& r.1 >= next
            &&& rest_above(map, r.1, r.2, floor)
        }),
    decreases map.len() - next,
{
    if next < map.len() {
        let region = map[next];
        math::law_rounded_up(larger(cursor, region.start as int), align);
        let start = math::rounded_up(larger(cursor, region.start as int), align);
        assert(region.usable() ==> start >= floor);
        assert forall|k: int| next < k < map.len() && (#[trigger] map[k]).usable() implies floor
            <= map[k].start by {}
        if !(region.usable() && start + size <= region.end_at()) {
            lemma_bump_above(map, next + 1, 0, size, align, floor);
        }
    }
}

/// The `next` and `cursor` after the first `n` of the requests `reqs`, each a
/// size and an alignment, from a fresh boot allocator.
pub open spec fn bumped(map: Seq<MemoryRegion>, reqs: Seq<(int, int)>, n: int) -> (int, int)
    decreases n,
{
    if n <= 0 {
        (0, 0)
    } else {
        let before = bumped(map, reqs, n - 1);
        let r = bump(map, before.0, before.1, reqs[n - 1].0, reqs[n - 1].1);
        (r.1, r.2)
    }
}

/// What request number `n` gets.
pub open spec fn bump_of(map: Seq<MemoryRegion>, reqs: Seq<(int, int)>, n: int) -> Option<int> {
    bump(map, bumped(map, reqs, n).0, bumped(map, reqs, n).1, reqs[n].0, reqs[n].1).0
}

proof fn lemma_bumped_above(
    map: Seq<MemoryRegion>,
    reqs: Seq<(int, int)>,
    n: int,
    m: int,
    floor: int,
)
    requires
        0 <= n <= m <= reqs.len(),
        forall|k: int| 0 <= k < reqs.len() ==> (#[trigger] reqs[k]).0 >= 0 && reqs[k].1 > 0,
        0 <= bumped(map, reqs, n).0,
        rest_above(map, bumped(map, reqs, n).0, bumped(map, reqs, n).1, floor),
    ensures
        0 <= bumped(map, reqs, m).0,
        rest_above(map, bumped(map, reqs, m).0, bumped(map, reqs, m).1, floor),
    decreases m - n,
{
    if n < m {
        lemma_bumped_above(map, reqs, n, m - 1, floor);
        let before = bumped(map, reqs, m - 1);
        lemma_bump_above(map, before.0, before.1, reqs[m - 1].0, reqs[m - 1].1, floor);
    }
}

/// In an address-ordered map every boot allocation lies behind all those
/// before it, so no two share a byte.
pub proof fn law_boot_allocations_ascend(
    map: Seq<MemoryRegion>,
    reqs: Seq<(int, int)>,
    i: int,
    j: int,
)
    requires
        usable_in_order(map),
        forall|k: int| 0 <= k < reqs.len() ==> (#[trigger] reqs[k]).0 >= 0 && reqs[k].1 > 0,
        0 <= i < j < reqs.len(),
        bump_of(map, reqs, i) is Some,
        bump_of(map, reqs, j) is Some,
    ensures
        bump_of(map, reqs, j)->0 >= bump_of(map, reqs, i)->0 + reqs[i].0,
{
    assert(rest_above(map, 0, 0, 0));
    lemma_bumped_above(map, reqs, 0, i, 0);
    let before = bumped(map, reqs, i);
    lemma_bump(map, before.0, before.1, reqs[i].0, reqs[i].1);
    let t = bump(map, before.0, before.1, reqs[i].0, reqs[i].1);
    let floor = t.0->0 + reqs[i].0;
    let home = if t.1 < map.len() && map[t.1].usable() && map[t.1].start <= t.0->0 && t.2 == floor
        && floor < map[t.1].end_at() {
        t.1
    } else {
        t.1 - 1
    };
    assert(map[home].usable());
    assert forall|k: int| t.1 <= k < map.len() && (#[trigger] map[k]).usable() implies floor
        <= map[k].start || k == t.1 && floor <= t.2 by {
        if k > home {
            assert(map[home].end_at() <= map[k].start);
        }
    }
    assert(bumped(map, reqs, i + 1) == (t.1, t.2));
    lemma_bumped_above(map, reqs, i + 1, j, floor);
    let last = bumped(map, reqs, j);
    lemma_bump_above(map, last.0, last.1, reqs[j].0, reqs[j].1, floor);
}

/// The heap lies behind the frame table.
pub proof fn law_heap_behind_table(map: Seq<MemoryRegion>, heap_len: int)
    requires
        usable_in_order(map),
        heap_len > 0,
        table_fit(map).0 is Some,
        heap_fit(map, heap_len).0 is Some,
    ensures
        heap_phys(map, heap_len) >= table_phys(map) + table_bytes(map),
{
    lemma_usable_end(map, map.len() as int);
    let reqs = seq![(table_bytes(map), 4096int), (heap_len, 4096int)];
    assert(bumped(map, reqs, 0) == (0int, 0int));
    assert(bumped(map, reqs, 1) == (table_fit(map).1, table_fit(map).2));
    law_boot_allocations_ascend(map, reqs, 0, 1);
}

/// A frame in the pool is usable memory, above the legacy area, and shares no
/// byte with the kernel image, the frame table or the kernel heap.
pub proof fn law_pool_is_unused_memory(boot: BootInfo<'_>, heap_len: int, idx: int, phys: int)
    requires
        regions_ok(boot.regions@),
        regions_aligned(boot.regions@),
        image_ok(boot.kernel_image),
        table_fit(boot.map()).0 is Some,
        heap_len >= 0,
        heap_len > 0 ==> heap_fit(boot.map(), heap_len).0 is Some,
        pooled(boot.map(), heap_len, idx),
        idx * 4096 <= phys < idx * 4096 + 4096,
    ensures
        phys >= LEGACY_END,
        backed(boot.regions@, boot.regions@.len() as int, phys),
        !(boot.kernel_image.0 <= phys < boot.kernel_image.0 + boot.kernel_image.1),
        !in_kept(boot.map(), heap_len, phys),
{
    let map = boot.map();
    let n = boot.regions@.len() as int;
    let image = boot.kernel_image;
    math::law_rounded_down(image.0 as int, 4096);
    math::law_rounded_up(image.0 + image.1, 4096);
    law_effective_excludes_image(boot.regions@, image, n, idx * 4096);
    let k = choose|k: int| 0 <= k < n && (#[trigger] boot.regions@[k]).backs(idx * 4096);
    assert(boot.regions@[k].usable());
    assert(boot.regions@[k].backs(phys));
    lemma_usable_end(map, map.len() as int);
    lemma_fit_in_map(map, 0, 0, table_bytes(map));
    if heap_len > 0 {
        lemma_bump(map, 0, 0, table_bytes(map), 4096);
        lemma_fit_in_map(map, table_fit(map).1, table_fit(map).2, heap_len);
    }
}

/// True if frame `f` is of no use to anyone after boot: usable memory above
/// the legacy area, and in neither the kernel image, the frame table, the heap
/// nor an untyped region.
pub open spec fn unused_frame(
    boot: BootInfo<'_>,
    specs: Seq<UntypedSpec>,
    heap_len: int,
    f: int,
) -> bool {
    &&& backed(boot.regions@, boot.regions@.len() as int, f * 4096)
    &&& f * 4096 >= LEGACY_END
    &&& !(image_start(boot.kernel_image) <= f * 4096 < image_end(boot.kernel_image))
    &&& !in_kept(boot.map(), heap_len, f * 4096)
    &&& !taken(specs, specs.len() as int, f)
}

/// All memory that is of no use to anyone is in the pool after boot, and
/// nothing else.
pub proof fn law_pool_is_all_unused_memory(
    before: Pmm,
    after: Pmm,
    boot: BootInfo<'_>,
    specs: Seq<UntypedSpec>,
    heap_len: int,
    out: PmInitOut,
)
    requires
        initialised(before, after, boot, specs, heap_len, out),
        specs.len() <= u32::MAX,
        regions_ok(boot.regions@),
        image_ok(boot.kernel_image),
    ensures
        forall|f: int| #[trigger] after.free(f) <==> 0 <= f < out.total_frames && unused_frame(
            boot,
            specs,
            heap_len,
            f,
        ),
        out.free_frames == vstd::set_lib::set_int_range(0, out.total_frames as int).filter(
            |f: int| unused_frame(boot, specs, heap_len, f),
        ).len(),
{
    let n = boot.regions@.len() as int;
    assert forall|f: int| #[trigger] after.free(f) <==> 0 <= f < out.total_frames && unused_frame(
        boot,
        specs,
        heap_len,
        f,
    ) by {
        law_effective_excludes_image(boot.regions@, boot.kernel_image, n, f * 4096);
        law_free_after_boot(specs, specs.len() as int, boot.map(), heap_len, f);
        if 0 <= f < after.frames().len() {
            assert(after.frames()[f].owner() == boot_owner(
                specs,
                specs.len() as int,
                boot.map(),
                heap_len,
                f,
            ));
        }
    }
    assert(after.free_set() =~= vstd::set_lib::set_int_range(0, out.total_frames as int).filter(
        |f: int| unused_frame(boot, specs, heap_len, f),
    ));
}

/// The kernel image keeps the frames that it touches, and only those: from the
/// frame of its first byte to that of its last. No image keeps none.
pub proof fn law_image_keeps_its_frames(image: (u64, u64), f: int)
    ensures
        (image_start(image) <= f * 4096 < image_end(image)) <==> image.1 > 0 && f * 4096 < image.0
            + image.1 && image.0 < (f + 1) * 4096,
        image_start(image) % 4096 == 0,
        image_end(image) % 4096 == 0,
{
    math::law_rounded_down(image.0 as int, 4096);
    math::law_rounded_up(image.0 + image.1, 4096);
}

/// Memory ends where the highest usable region does.
pub proof fn law_memory_ends_with_the_highest_region(regions: Seq<MemoryRegion>, end: int)
    requires
        forall|i: int|
            0 <= i < regions.len() && (#[trigger] regions[i]).kind == RegionKind::Usable
                ==> regions[i].start + regions[i].len <= end,
        exists|i: int|
            0 <= i < regions.len() && (#[trigger] regions[i]).kind == RegionKind::Usable
                && regions[i].start + regions[i].len == end,
    ensures
        usable_end(regions, regions.len() as int) == end,
{
    lemma_usable_end(regions, regions.len() as int);
    let n = regions.len() as int;
    let i = choose|i: int|
        0 <= i < regions.len() && (#[trigger] regions[i]).kind == RegionKind::Usable
            && regions[i].start + regions[i].len == end;
    assert(regions[i].usable());
    if usable_end(regions, n) > 0 {
        let j = choose|j: int|
            0 <= j < n && (#[trigger] regions[j]).usable() && regions[j].end_at() == usable_end(
                regions,
                n,
            );
        assert(regions[j].kind == RegionKind::Usable);
    }
}

/// There are as many frames as it takes to hold all usable memory, and the
/// frame table has 24 bytes for each.
pub proof fn law_frames_hold_all_memory(regions: Seq<MemoryRegion>)
    ensures
        frame_count(regions) * 4096 >= usable_end(regions, regions.len() as int),
        (frame_count(regions) - 1) * 4096 < usable_end(regions, regions.len() as int),
        table_bytes(regions) == frame_count(regions) * 24,
        table_span(regions).1 - table_span(regions).0 == table_bytes(regions) / 8,
{
}

/// What a boot allocation leaves starts right behind it: in the same region
/// if there is more of it, else in the next.
pub proof fn law_boot_allocations_are_packed(
    regions: Seq<MemoryRegion>,
    next: int,
    cursor: int,
    size: int,
    align: int,
)
    requires
        0 <= next,
        bump(regions, next, cursor, size, align).0 is Some,
    ensures
        ({
            let r = bump(regions, next, cursor, size, align);
            let end = r.0->0 + size;
            ||| 0 <= r.1 < regions.len() && r.2 == end && end < regions[r.1].start
                + regions[r.1].len && regions[r.1].kind == RegionKind::Usable
            ||| 0 < r.1 <= regions.len() && r.2 == 0 && end == regions[r.1 - 1].start + regions[r.1
                - 1].len && regions[r.1 - 1].kind == RegionKind::Usable
        }),
    decreases regions.len() - next,
{
    if next < regions.len() {
        let region = regions[next];
        let start = math::rounded_up(larger(cursor, region.start as int), align);
        if !(region.usable() && start + size <= region.end_at()) {
            law_boot_allocations_are_packed(regions, next + 1, 0, size, align);
        }
    }
}

/// A boot allocation is aligned as asked for and lies in one usable region,
/// all of it.
pub proof fn law_boot_allocations_are_usable_memory(
    regions: Seq<MemoryRegion>,
    next: int,
    cursor: int,
    size: int,
    align: int,
)
    requires
        0 <= next,
        align > 0,
        bump(regions, next, cursor, size, align).0 is Some,
    ensures
        ({
            let a = bump(regions, next, cursor, size, align).0->0;
            &&& a % align == 0
            &&& exists|k: int|
                next <= k < regions.len() && (#[trigger] regions[k]).kind == RegionKind::Usable
                    && regions[k].start <= a && a + size <= regions[k].start + regions[k].len && (k
                    == next ==> cursor <= a)
        }),
    decreases regions.len() - next,
{
    if next < regions.len() {
        let region = regions[next];
        let low = larger(cursor, region.start as int);
        let start = math::rounded_up(low, align);
        math::law_rounded_up(low, align);
        if region.usable() && start + size <= region.end_at() {
            assert(regions[next].kind == RegionKind::Usable);
        } else {
            law_boot_allocations_are_usable_memory(regions, next + 1, 0, size, align);
            let a = bump(regions, next + 1, 0, size, align).0->0;
            let k = choose|k: int|
                next + 1 <= k < regions.len() && (#[trigger] regions[k]).kind == RegionKind::Usable
                    && regions[k].start <= a && a + size <= regions[k].start + regions[k].len && (k
                    == next + 1 ==> 0 <= a);
            assert(regions[k].kind == RegionKind::Usable);
        }
    }
}

/// The frame table and the heap start on frames.
pub proof fn law_table_and_heap_start_on_frames(map: Seq<MemoryRegion>, heap_len: int)
    requires
        table_fit(map).0 is Some,
        heap_fit(map, heap_len).0 is Some,
    ensures
        table_phys(map) % 4096 == 0,
        heap_phys(map, heap_len) % 4096 == 0,
{
    law_boot_allocations_are_usable_memory(map, 0, 0, table_bytes(map), 4096);
    lemma_bump_next(map, 0, 0, table_bytes(map), 4096);
    law_boot_allocations_are_usable_memory(
        map,
        table_fit(map).1,
        table_fit(map).2,
        heap_len,
        4096,
    );
}

proof fn lemma_bump_next(
    regions: Seq<MemoryRegion>,
    next: int,
    cursor: int,
    size: int,
    align: int,
)
    ensures
        bump(regions, next, cursor, size, align).1 >= next,
    decreases regions.len() - next,
{
    if next < regions.len() {
        lemma_bump_next(regions, next + 1, 0, size, align);
    }
}

/// A frame is in the pool if it is usable memory above the first MiB and
/// starts in neither the frame table nor the heap, and only then.
pub proof fn law_pool_is_what_is_left(map: Seq<MemoryRegion>, heap_len: int, f: int)
    ensures
        pooled(map, heap_len, f) <==> {
            &&& exists|k: int|
                0 <= k < map.len() && (#[trigger] map[k]).kind == RegionKind::Usable && map[k].start
                    <= f * 4096 < map[k].start + map[k].len
            &&& f >= 256
            &&& !(table_phys(map) <= f * 4096 < table_phys(map) + frame_count(map) * 24)
            &&& heap_len == 0 || !(heap_phys(map, heap_len) <= f * 4096 < heap_phys(map, heap_len)
                + heap_len)
        },
{
    let n = map.len() as int;
    if backed(map, n, f * 4096) {
        let k = choose|k: int| 0 <= k < n && (#[trigger] map[k]).backs(f * 4096);
        assert(map[k].kind == RegionKind::Usable);
    }
    if exists|k: int|
        0 <= k < map.len() && (#[trigger] map[k]).kind == RegionKind::Usable && map[k].start <= f
            * 4096 < map[k].start + map[k].len {
        let k = choose|k: int|
            0 <= k < map.len() && (#[trigger] map[k]).kind == RegionKind::Usable && map[k].start
                <= f * 4096 < map[k].start + map[k].len;
        assert(map[k].backs(f * 4096));
    }
}

/// A map in address order does not overlap itself.
pub proof fn law_ordered_map_does_not_overlap(map: Seq<MemoryRegion>, heap_len: int, n: int)
    requires
        usable_in_order(map),
        0 <= n <= map.len(),
    ensures
        !overlapping(map, heap_len, n),
{
    if overlapping(map, heap_len, n) {
        let (i, j, idx) = choose|i: int, j: int, idx: int| #[trigger]
            clash(map, heap_len, n, i, j, idx);
        assert(map[i].end_at() <= map[j].start);
    }
}

/// A request covers the frames of its range.
pub proof fn law_request_covers_its_range(spec: UntypedSpec, f: int)
    requires
        spec.base_phys % 4096 == 0,
        spec.len % 4096 == 0,
    ensures
        spec.covers(f) <==> spec.base_phys <= f * 4096 && (f + 1) * 4096 <= spec.base_phys
            + spec.len,
        spec.aligned(),
{
}

/// Request `i` can be met once those before it have been: it is made of whole
/// frames, one or more, with frame numbers, and all of them are in the pool
/// and in none of the requests before it.
pub open spec fn can_be_met(
    specs: Seq<UntypedSpec>,
    i: int,
    regions: Seq<MemoryRegion>,
    heap_len: int,
) -> bool {
    &&& specs[i].base_phys % 4096 == 0
    &&& specs[i].len % 4096 == 0
    &&& specs[i].len > 0
    &&& specs[i].base_phys + specs[i].len < u32::MAX * 4096
    &&& forall|f: int| #[trigger]
        specs[i].covers(f) ==> pooled(regions, heap_len, f) && forall|j: int|
            0 <= j < i ==> !(#[trigger] specs[j]).covers(f)
}

/// Requests are met if and only if each of them can be.
pub proof fn law_requests_are_met(
    specs: Seq<UntypedSpec>,
    n: int,
    regions: Seq<MemoryRegion>,
    heap_len: int,
)
    requires
        0 <= n <= specs.len(),
    ensures
        specs_fault(specs, n, regions, heap_len) is None <==> forall|i: int|
            0 <= i < n ==> #[trigger] can_be_met(specs, i, regions, heap_len),
    decreases n,
{
    if n > 0 {
        law_requests_are_met(specs, n - 1, regions, heap_len);
        let i = n - 1;
        assert(spec_fault(specs, i, regions, heap_len) is None <==> can_be_met(
            specs,
            i,
            regions,
            heap_len,
        )) by {
            if can_be_met(specs, i, regions, heap_len) {
                assert forall|f: int| #[trigger] specs[i].covers(f) implies pooled(
                    regions,
                    heap_len,
                    f,
                ) && !taken(specs, i, f) by {}
            }
            if spec_fault(specs, i, regions, heap_len) is None {
                assert forall|f: int| #[trigger] specs[i].covers(f) implies pooled(
                    regions,
                    heap_len,
                    f,
                ) && forall|j: int| 0 <= j < i ==> !(#[trigger] specs[j]).covers(f) by {
                    assert(!taken(specs, i, f));
                }
            }
        }
        if specs_fault(specs, n, regions, heap_len) is None {
            assert forall|k: int| 0 <= k < n implies #[trigger] can_be_met(
                specs,
                k,
                regions,
                heap_len,
            ) by {}
        }
        if forall|k: int| 0 <= k < n ==> #[trigger] can_be_met(specs, k, regions, heap_len) {
            assert(can_be_met(specs, i, regions, heap_len));
        }
    }
}

/// Where all requests are met, each has its frames: they are marked with its
/// number. A frame that is in none of them is free if it is in the pool, and
/// reserved otherwise.
pub proof fn law_requests_have_their_frames(
    specs: Seq<UntypedSpec>,
    n: int,
    regions: Seq<MemoryRegion>,
    heap_len: int,
    j: int,
    f: int,
)
    requires
        0 <= n <= specs.len(),
        n <= u32::MAX,
        specs_fault(specs, n, regions, heap_len) is None,
    ensures
        0 <= j < n && specs[j].covers(f) ==> boot_owner(specs, n, regions, heap_len, f)
            == FrameOwner::of(OwnerTag::Untyped, j as u32),
        !taken(specs, n, f) && pooled(regions, heap_len, f) ==> boot_owner(
            specs,
            n,
            regions,
            heap_len,
            f,
        ) == FrameOwner::of(OwnerTag::Free, 0),
        !pooled(regions, heap_len, f) ==> boot_owner(specs, n, regions, heap_len, f)
            == FrameOwner::of(OwnerTag::Reserved, 0),
    decreases n,
{
    law_free_after_boot(specs, n, regions, heap_len, f);
    if !pooled(regions, heap_len, f) {
        lemma_unpooled(specs, n, regions, heap_len, f);
    }
    if n > 0 {
        law_requests_are_met(specs, n, regions, heap_len);
        assert(can_be_met(specs, n - 1, regions, heap_len));
        law_requests_have_their_frames(specs, n - 1, regions, heap_len, j, f);
    }
}

/// The memory manager comes up if and only if nothing stands against it: there
/// is room for the caps, usable regions are whole frames, fewer than 128
/// regions are left with the kernel image taken out, there is usable memory
/// with room for the frame table and the heap, there is no frame table yet,
/// the map does not overlap itself, and each request can be met.
pub proof fn law_init_needs(
    table_at: u64,
    boot: BootInfo<'_>,
    specs: Seq<UntypedSpec>,
    room: int,
    heap_len: int,
)
    ensures
        init_fault(table_at, boot, specs, room, heap_len) is None <==> {
            let map = boot.map();
            &&& specs.len() <= room
            &&& forall|i: int|
                0 <= i < boot.regions@.len() && (#[trigger] boot.regions@[i]).kind
                    == RegionKind::Usable ==> boot.regions@[i].start % 4096 == 0
                    && boot.regions@[i].len % 4096 == 0
            &&& map.len() < 128
            &&& exists|i: int|
                0 <= i < map.len() && (#[trigger] map[i]).kind == RegionKind::Usable && map[i].start
                    + map[i].len > 0
            &&& table_fit(map).0 is Some
            &&& heap_len == 0 || heap_fit(map, heap_len).0 is Some
            &&& table_at == 0
            &&& !overlapping(map, heap_len, map.len() as int)
            &&& forall|i: int|
                0 <= i < specs.len() ==> #[trigger] can_be_met(specs, i, map, heap_len)
        },
{
    let map = boot.map();
    let n = map.len() as int;
    law_requests_are_met(specs, specs.len() as int, map, heap_len);
    lemma_usable_end(map, n);
    if usable_end(map, n) > 0 {
        let i = choose|i: int|
            0 <= i < n && (#[trigger] map[i]).usable() && map[i].end_at() == usable_end(map, n);
        assert(map[i].kind == RegionKind::Usable);
    }
    if exists|i: int|
        0 <= i < map.len() && (#[trigger] map[i]).kind == RegionKind::Usable && map[i].start
            + map[i].len > 0 {
        let i = choose|i: int|
            0 <= i < map.len() && (#[trigger] map[i]).kind == RegionKind::Usable && map[i].start
                + map[i].len > 0;
        assert(map[i].usable());
    }
}

/// The cap that a request gives covers the frames of its range, under the
/// number of the request.
pub proof fn law_cap_is_for_its_request(cap: UntypedCap, spec: UntypedSpec, i: int, f: int)
    requires
        is_cap_for(cap, spec, i),
        spec.base_phys % 4096 == 0,
        spec.len % 4096 == 0,
    ensures
        cap.id() == i,
        cap.covers(f) <==> spec.base_phys <= f * 4096 && (f + 1) * 4096 <= spec.base_phys
            + spec.len,
{
}

/// Where the memory manager does not come up, no frame can be allocated, and
/// no word of memory has been written to outside the frame table and the heap.
pub proof fn law_failed_init_hands_out_nothing(
    before: Pmm,
    after: Pmm,
    boot: BootInfo<'_>,
    specs: Seq<UntypedSpec>,
    room: int,
    heap_len: int,
    w: int,
)
    requires
        init_failed(before, after, boot, specs, room, heap_len),
        early_fault(before.table_at(), boot, specs, room) is None,
        specs.len() <= room,
        0 <= w < before.ram_words().len(),
    ensures
        after.next_alloc() is None,
        !in_kept(boot.map(), heap_len, w * 8) ==> after.ram_words()[w] == before.ram_words()[w],
{
    if heap_len != 0 && heap_fit(boot.map(), heap_len).0 is None {
        FrameOwner::law_encoding_round_trip(OwnerTag::Reserved, 0);
        after.lemma_no_free_frames();
        assert forall|f: int| !after.free(f) by {
            if 0 <= f < after.frames().len() {
                assert(after.frames()[f] == FrameInfo::zeroed_spec());
            }
        }
    } else {
        assert(after.list(0).len() == 0);
        assert(after.list(pmm::global_list()).len() == 0);
    }
}

/// Whatever becomes of it, only usable memory is ever marked as anything but
/// reserved.
pub proof fn law_only_usable_memory_is_marked(
    before: Pmm,
    after: Pmm,
    boot: BootInfo<'_>,
    specs: Seq<UntypedSpec>,
    heap_len: int,
    f: int,
)
    requires
        half_marked(before, after, boot, specs, heap_len),
        0 <= f < after.frames().len(),
        after.frames()[f].owner_tag() != OwnerTag::Reserved,
    ensures
        pooled(boot.map(), heap_len, f),
{
    let map = boot.map();
    FrameOwner::law_encoding_round_trip(OwnerTag::Reserved, 0);
    if overlapping(map, heap_len, map.len() as int) {
        let (k, idx) = choose|k: int, idx: int| #[trigger]
            first_clash(map, heap_len, k, idx) && forall|g: int|
                0 <= g < after.frames().len() ==> (#[trigger] after.frames()[g])
                    == FrameInfo::zeroed_spec().with_owner(owner_midway(map, heap_len, k, idx, g));
        assert(after.frames()[f] == FrameInfo::zeroed_spec().with_owner(
            owner_midway(map, heap_len, k, idx, f),
        ));
        if backed(map, k, f * 4096) {
            let j = choose|j: int| 0 <= j < k && (#[trigger] map[j]).backs(f * 4096);
            assert(map[j].backs(f * 4096));
        } else {
            assert(map[k].backs(f * 4096));
        }
    } else {
        let (i, stop) = choose|i: int, stop: int| #[trigger]
            request_stops(specs, i, map, heap_len, stop) && forall|g: int|
                0 <= g < after.frames().len() ==> (#[trigger] after.frames()[g])
                    == FrameInfo::zeroed_spec().with_owner(
                    if specs[i].covers(g) && g < stop {
                        FrameOwner::of(OwnerTag::Untyped, i as u32)
                    } else {
                        boot_owner(specs, i, map, heap_len, g)
                    },
                );
        assert(after.frames()[f].owner() == if specs[i].covers(f) && f < stop {
            FrameOwner::of(OwnerTag::Untyped, i as u32)
        } else {
            boot_owner(specs, i, map, heap_len, f)
        });
        if !pooled(map, heap_len, f) {
            lemma_unpooled(specs, i, map, heap_len, f);
        }
    }
}

} // verus!
