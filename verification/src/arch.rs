//! Frame geometry and the physmap: the window through which all of physical
//! memory is visible at a fixed virtual base.

use crate::frame::FrameIndex;
use vstd::prelude::*;

verus! {

/// Size of a physical frame in bytes.
pub const FRAME_SIZE: u64 = 4096;

/// Number of 8-byte words in a frame.
pub const FRAME_WORDS: usize = 512;

/// Number of per-CPU free-list shards.
pub const SHARD_COUNT: usize = 64;

/// Maximum number of frames moved from the global free list into a shard on
/// a refill.
pub const SHARD_REFILL_BATCH: u32 = 64;

/// The physmap base, zero until it is set during early boot.
pub struct PhysMap {
    pub(crate) base: u64,
}

impl View for PhysMap {
    type V = u64;

    open(crate) spec fn view(&self) -> u64 {
        self.base
    }
}

impl PhysMap {
    /// A physmap whose base has not been set.
    pub fn new() -> (r: PhysMap)
        ensures
            r@ == 0,
    {
        PhysMap { base: 0 }
    }
}

/// Set the physmap base. It may be set again only to the same value.
pub fn set_physmap_base(map: &mut PhysMap, base: u64)
    requires
        old(map)@ == 0 || old(map)@ == base,
    ensures
        final(map)@ == base,
{
    map.base = base;
}

/// The configured physmap base.
pub fn physmap_base(map: &PhysMap) -> (r: u64)
    requires
        map@ != 0,
    ensures
        r == map@,
{
    map.base
}

/// Where the physmap at `base` shows physical address `phys`.
pub open spec fn virt_of(base: u64, phys: u64) -> int {
    base + phys
}

/// The physical address that the physmap at `base` shows at `virt`.
pub open spec fn phys_of(base: u64, virt: u64) -> int {
    virt - base
}

/// Translate a physical address to its physmap virtual address.
pub fn phys_to_virt(map: &PhysMap, phys: u64) -> (r: u64)
    requires
        map@ != 0,
        virt_of(map@, phys) <= u64::MAX,
    ensures
        r == virt_of(map@, phys),
{
    physmap_base(map) + phys
}

/// Reverse of [`phys_to_virt`]: the physical address backing a physmap VA.
pub fn virt_to_phys(map: &PhysMap, virt: u64) -> (r: u64)
    requires
        map@ != 0,
        virt >= map@,
    ensures
        r == phys_of(map@, virt),
{
    virt - physmap_base(map)
}

/// The physmap shows each physical address at one virtual address, and back.
pub proof fn law_physmap_round_trip(base: u64, phys: u64, virt: u64)
    ensures
        virt_of(base, phys) <= u64::MAX ==> phys_of(base, virt_of(base, phys) as u64) == phys,
        virt >= base ==> virt_of(base, phys_of(base, virt) as u64) == virt,
{
}

/// Physical address of the start of a frame.
pub fn frame_phys(frame: FrameIndex) -> (r: u64)
    ensures
        r == frame * FRAME_SIZE,
        r % 4096 == 0,
        r / 4096 == frame,
{
    (frame as u64) * FRAME_SIZE
}

/// Identifier of the CPU currently executing. There are no per-CPU areas, so
/// every CPU is routed through shard 0.
pub fn current_cpu() -> (r: usize)
    ensures
        r == 0,
{
    0
}

/// The physmap shows physical memory in one piece, from its base on: what lies
/// `n` bytes into memory lies `n` bytes into the physmap.
pub proof fn law_physmap_is_in_one_piece(base: u64, phys: u64, n: u64)
    requires
        phys + n <= u64::MAX,
    ensures
        virt_of(base, 0) == base,
        virt_of(base, (phys + n) as u64) == virt_of(base, phys) + n,
        phys_of(base, base) == 0,
{
}

} // verus!
