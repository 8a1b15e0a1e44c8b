//! Bringing the kernel up: from the memory map of the bootloader to the
//! memory manager, the kernel heap and the kernel address space.

use crate::arch::{phys_to_virt, physmap_base, set_physmap_base, PhysMap};
use crate::boot::{self, pmm_init, BootInfo, MemoryRegion, PmInitOut, RegionKind, UntypedSpec};
use crate::heap::{self, heap_init, Heap};
use crate::math;
use crate::memmap::{self, fill_regions, pick_untyped_spec};
use crate::memory::Memory;
use crate::multiboot::{self, Image};
use crate::page_tree;
use crate::pit;
use crate::pmm::Pmm;
use crate::process;
use crate::sched;
use crate::selftest;
use crate::text::{self, is_utf8, push_bytes, push_dec, push_hex, push_str};
use crate::untyped::UntypedCap;
use crate::vmm::{self, PageTable};
use vstd::prelude::*;

verus! {

/// Base virtual address of the physmap.
pub const PHYS_MAP_BASE: u64 = 0xffff_8000_0000_0000;

/// Size of the kernel heap that is carved out of RAM at boot.
pub const KERNEL_HEAP_SIZE: u64 = 0x80_0000;

/// Timer frequency of the timer demo.
pub const TIMER_HZ: u32 = 100;

/// Number of ticks that the timer demo waits for.
pub const TIMER_DEMO_TICKS: u64 = 100;

/// Why the kernel could not be brought up.
#[derive(Clone, Copy, Debug)]
pub enum BootError {
    /// The loader is not a multiboot loader.
    BadMagic(u64),
    /// The loader gave no memory map.
    NoMemoryMap,
    /// No region is usable.
    NoUntypedRegion,
    /// The memory manager refused the memory map.
    Init(&'static str),
    /// There are not enough frames for the kernel's page tables.
    NoPageTables,
}

/// True if no region has usable memory.
pub open spec fn nothing_usable(regions: Seq<MemoryRegion>) -> bool {
    forall|i: int|
        0 <= i < regions.len() && (#[trigger] regions[i]).usable() ==> regions[i].end_at() == 0
}

/// Check the loader's magic number and read its memory map.
pub fn read_memory_map(image: &Image<'_>, magic: u64, info: u64) -> (r: Result<
    Vec<MemoryRegion>,
    BootError,
>)
    requires
        magic == multiboot::MAGIC ==> image.has(info as int, 52) && info + 52 <= u64::MAX,
    ensures
        ({
            let entries = multiboot::parsed_entries(
                *image,
                info as int,
                memmap::MAX_REGIONS as nat,
            );
            let regions = memmap::boot_regions(*image, info as int);
            &&& magic != multiboot::MAGIC ==> (r matches Err(BootError::BadMagic(m)) && m == magic)
            &&& magic == multiboot::MAGIC && entries.len() == 0 ==> (r matches Err(
                BootError::NoMemoryMap,
            ))
            &&& magic == multiboot::MAGIC && entries.len() > 0 ==> r is Ok
            &&& r matches Ok(found) ==> {
                &&& found@ == regions
                &&& boot::regions_ok(found@)
                &&& boot::regions_aligned(found@)
                &&& memmap::is_sorted(found@)
            }
        }),
{
    if magic != multiboot::MAGIC as u64 {
        return Err(BootError::BadMagic(magic));
    }
    proof {
        memmap::law_boot_regions_are_accepted(*image, info as int);
    }
    match fill_regions(image, info) {
        None => Err(BootError::NoMemoryMap),
        Some(regions) => Ok(regions),
    }
}

/// Choose the untyped region.
pub fn choose_untyped(regions: &[MemoryRegion]) -> (r: Result<UntypedSpec, BootError>)
    requires
        boot::regions_ok(regions@),
    ensures
        nothing_usable(regions@) ==> (r matches Err(BootError::NoUntypedRegion)),
        !nothing_usable(regions@) ==> r is Ok,
        r matches Ok(spec) ==> exists|k: int| #[trigger]
            memmap::is_highest(regions@, k) && spec == memmap::untyped_of(regions@[k]),
{
    match pick_untyped_spec(regions) {
        None => Err(BootError::NoUntypedRegion),
        Some(spec) => Ok(spec),
    }
}

/// The kernel after it has been brought up.
pub struct Booted {
    /// What the memory manager reported.
    pub out: PmInitOut,
    /// The untyped region.
    pub cap: UntypedCap,
    /// The kernel address space.
    pub pt: PageTable,
}

/// What the memory manager is told at boot.
pub open spec fn boot_info<'a>(
    regions: &'a [MemoryRegion],
    kernel_image: (u64, u64),
) -> BootInfo<'a> {
    BootInfo { physmap_base: PHYS_MAP_BASE, regions, kernel_image }
}

/// Size of each window of the kernel address space.
pub open spec fn window_size(ram_end: int) -> int {
    math::rounded_up(ram_end, vmm::LARGE_PAGE as int)
}

/// The self-test can be run: nothing pins or maps a frame of the pool or of
/// the region.
pub open spec fn ready(pmm: Pmm, cap: UntypedCap) -> bool {
    &&& pmm.physmap_at() != 0
    &&& selftest::pool_quiet(pmm)
    &&& selftest::cap_fits(pmm, cap)
    &&& forall|f: int| #[trigger]
        selftest::grantable(pmm, cap).contains(f) ==> selftest::quiet(pmm.frames()[f])
}

/// The physmap and the identity window of memory that frame indices reach do
/// not meet.
proof fn lemma_windows_fit(ram_end: int)
    requires
        0 <= ram_end <= u32::MAX * 4096,
    ensures
        vmm::windows_fit(PHYS_MAP_BASE, window_size(ram_end)),
        PHYS_MAP_BASE + window_size(ram_end) <= u64::MAX,
        ram_end <= window_size(ram_end),
        window_size(ram_end) % 0x20_0000 == 0,
{
    let window = window_size(ram_end);
    math::law_rounded_up(ram_end, vmm::LARGE_PAGE as int);
    assert(PHYS_MAP_BASE % vmm::LARGE_PAGE == 0);
    assert forall|n: int|
        0 <= n < vmm::PAGES && vmm::in_window(n, PHYS_MAP_BASE, window) implies !#[trigger] vmm::in_window(
        n,
        0,
        window,
    ) by {
        reveal(vmm::window_offset);
        if n * 4096 < window {
            assert((n * 4096 - PHYS_MAP_BASE) % vmm::VA_SPAN as int == n * 4096
                + 0x8000_0000_0000);
        }
        assert((n * 4096 - 0) % vmm::VA_SPAN as int == n * 4096);
    }
}

/// After the memory manager has been initialized the region covers frames
/// that exist, and nothing pins or maps any frame.
proof fn lemma_ready(
    p0: Pmm,
    p1: Pmm,
    p2: Pmm,
    boot: BootInfo<'_>,
    spec: UntypedSpec,
    out: PmInitOut,
    cap: UntypedCap,
    tables: page_tree::Nodes,
)
    requires
        boot::initialised(p0, p1, boot, seq![spec], KERNEL_HEAP_SIZE as int, out),
        boot::specs_fault(seq![spec], 1, boot.map(), KERNEL_HEAP_SIZE as int) is None,
        boot::is_cap_for(cap, spec, 0),
        boot.physmap_base != 0,
        page_tree::grown(p1, p2, Map::empty(), tables),
        p2.wf(),
    ensures
        ready(p2, cap),
{
    reveal(page_tree::grown);
    let map = boot.map();
    let specs = seq![spec];
    let len = KERNEL_HEAP_SIZE as int;
    reveal_with_fuel(boot::specs_fault, 2);
    assert(boot::spec_fault(specs, 0, map, len) is None);
    let last = spec.first_frame() + spec.frame_count() - 1;
    assert(specs[0] == spec);
    assert(spec.covers(last));
    assert(boot::pooled(map, len, last));
    boot::lemma_usable_end(map, map.len() as int);
    let k = choose|k: int| 0 <= k < map.len() && (#[trigger] map[k]).backs(last * 4096);
    assert(map[k].usable());
    assert(selftest::cap_fits(p2, cap));
    assert forall|f: int| 0 <= f < p2.frames().len() implies selftest::quiet(
        #[trigger] p2.frames()[f],
    ) by {
        assert(p1.frames()[f] == p1.frames()[f]);
    }
    assert(selftest::pool_quiet(p2));
}

/// The memory manager has been initialized from `p0` to `p1`, and the kernel
/// address space built from there to `p2`.
pub open spec fn came_up(
    p0: Pmm,
    p1: Pmm,
    p2: Pmm,
    boot: BootInfo<'_>,
    spec: UntypedSpec,
    b: Booted,
) -> bool {
    &&& boot::initialised(p0, p1, boot, seq![spec], KERNEL_HEAP_SIZE as int, b.out)
    &&& page_tree::grown(p1, p2, Map::empty(), b.pt.tables())
}

/// The kernel heap that the memory manager carved out can be installed: it is
/// in memory that the physmap shows.
pub open spec fn heap_ready(out: PmInitOut) -> bool {
    &&& out.heap_phys % 4096 == 0
    &&& out.heap_len == KERNEL_HEAP_SIZE
    &&& out.heap_phys + out.heap_len <= out.ram_end
    &&& out.ram_end <= u32::MAX * 4096
}

/// The memory manager has been initialized from `p0` to `p1`, and building the
/// kernel address space from there has used up the pool.
pub open spec fn ran_out(
    p0: Pmm,
    p1: Pmm,
    p2: Pmm,
    boot: BootInfo<'_>,
    spec: UntypedSpec,
    out: PmInitOut,
    tables: page_tree::Nodes,
) -> bool {
    &&& boot::initialised(p0, p1, boot, seq![spec], KERNEL_HEAP_SIZE as int, out)
    &&& page_tree::grown(p1, p2, Map::empty(), tables)
    &&& p2.wf()
    &&& p2.free_count() == 0
}

/// Initialize the memory manager over the memory map and build the kernel
/// address space.
pub fn bring_up(
    pmm: &mut Pmm,
    regions: &[MemoryRegion],
    spec: UntypedSpec,
    kernel_image: (u64, u64),
) -> (r: Result<Booted, BootError>)
    requires
        old(pmm).table_at() == 0 ==> old(pmm).wf(),
        old(pmm).physmap_at() == 0 || old(pmm).physmap_at() == PHYS_MAP_BASE,
        boot::regions_ok(regions@),
        boot::image_ok(kernel_image),
        boot::machine_fits(*old(pmm), boot_info(regions, kernel_image)),
    ensures
        ({
            let boot = boot_info(regions, kernel_image);
            let map = boot.map();
            let len = KERNEL_HEAP_SIZE as int;
            let specs = seq![spec];
            let fault = boot::init_fault(old(pmm).table_at(), boot, specs, 1, len);
            let window = window_size(boot::usable_end(map, map.len() as int));
            let room = boot::boot_pool(specs, map, len).len() >= 1 + vmm::kernel_tables(
                PHYS_MAP_BASE,
                window,
            ).len();
            &&& fault is Some ==> (r matches Err(BootError::Init(e)) && fault == Some(e@))
                && boot::init_failed(*old(pmm), *final(pmm), boot, specs, 1, len)
            &&& fault is None && !room ==> (r matches Err(BootError::NoPageTables)) && exists|
                p: Pmm,
                out: PmInitOut,
                tables: page_tree::Nodes,
            | #[trigger]
                ran_out(*old(pmm), p, *final(pmm), boot, spec, out, tables)
            &&& fault is None && room ==> r is Ok
            &&& r matches Ok(b) ==> {
                &&& final(pmm).wf()
                &&& exists|p: Pmm| #[trigger] came_up(*old(pmm), p, *final(pmm), boot, spec, b)
                &&& boot::is_cap_for(b.cap, spec, 0)
                &&& b.pt.wf(*final(pmm))
                &&& forall|n: int|
                    0 <= n < vmm::PAGES ==> #[trigger] b.pt.leaf(*final(pmm), n)
                        == vmm::kernel_leaf(n, PHYS_MAP_BASE, window)
                &&& ready(*final(pmm), b.cap)
                &&& b.out.heap_phys == boot::heap_phys(map, len)
                &&& heap_ready(b.out)
            }
        }),
{
    let ghost p0 = *pmm;
    let ghost len = KERNEL_HEAP_SIZE as int;
    let boot = BootInfo { physmap_base: PHYS_MAP_BASE, regions, kernel_image };
    let ghost map = boot.map();
    let specs = [spec];
    let mut caps: Vec<UntypedCap> = Vec::new();
    caps.push(UntypedCap::new(0, 0, 0));
    proof {
        assert(specs@ =~= seq![spec]);
        boot::lemma_map_end(boot);
        boot::lemma_usable_end(map, map.len() as int);
    }
    let out = match pmm_init(
        pmm,
        &boot,
        specs.as_slice(),
        caps.as_mut_slice(),
        KERNEL_HEAP_SIZE,
    ) {
        Err(e) => {
            return Err(BootError::Init(e));
        },
        Ok(out) => out,
    };
    let ghost p1 = *pmm;
    let cap = caps.remove(0);
    proof {
        boot::lemma_bump(map, 0, 0, boot::table_bytes(map), 4096);
        boot::lemma_fit_in_map(map, boot::table_fit(map).1, boot::table_fit(map).2, len);
        boot::law_boot_pool(p0, p1, boot, seq![spec], len, out);
        lemma_windows_fit(out.ram_end as int);
    }
    let pt = match PageTable::new_kernel(pmm, out.ram_end) {
        None => {
            proof {
                let tables = choose|tables: page_tree::Nodes| #[trigger]
                    page_tree::grown(p1, *pmm, Map::empty(), tables) && pmm.free_count() == 0;
                assert(ran_out(p0, p1, *pmm, boot, spec, out, tables));
            }
            return Err(BootError::NoPageTables);
        },
        Some(pt) => pt,
    };
    proof {
        lemma_ready(p0, p1, *pmm, boot, spec, out, cap, pt.tables());
    }
    let b = Booted { out, cap, pt };
    assert(came_up(p0, p1, *pmm, boot_info(regions, kernel_image), spec, b));
    Ok(b)
}

/// Install the kernel heap over `mem`, the words of the region that the memory
/// manager carved out for it, as the physmap shows them.
pub fn install_heap(out: &PmInitOut, mem: Memory) -> (r: Heap)
    requires
        heap_ready(*out),
        mem@.len() * 8 >= KERNEL_HEAP_SIZE,
    ensures
        r.wf(),
        r.start_at() == PHYS_MAP_BASE + out.heap_phys,
        r.total_spec() == KERNEL_HEAP_SIZE,
        r.allocated_spec() == 0,
        r.blocks() == heap::one_free_block(
            PHYS_MAP_BASE + out.heap_phys,
            KERNEL_HEAP_SIZE as int,
        ),
{
    let mut map = PhysMap::new();
    set_physmap_base(&mut map, PHYS_MAP_BASE);
    let mut heap = Heap::new(mem);
    heap_init(&mut heap, phys_to_virt(&map, out.heap_phys), out.heap_len);
    heap
}

/// In the address space of a kernel that has been brought up both windows are
/// where the self-test looks for them, and its test pages are unmapped: it can
/// fail only for lack of frames.
pub proof fn law_booted_kernel_is_testable(pt: PageTable, pmm: Pmm, ram_end: int)
    requires
        0 < ram_end <= u32::MAX * 4096,
        pmm.physmap_at() == PHYS_MAP_BASE,
        forall|n: int|
            0 <= n < vmm::PAGES ==> #[trigger] pt.leaf(pmm, n) == vmm::kernel_leaf(
                n,
                PHYS_MAP_BASE,
                window_size(ram_end),
            ),
    ensures
        selftest::windows_ok(pt, pmm),
        selftest::test_pages_unmapped(pt, pmm),
{
    let window = window_size(ram_end);
    math::law_rounded_up(ram_end, vmm::LARGE_PAGE as int);
    math::law_rounded_up_least(ram_end, vmm::LARGE_PAGE as int, 0x1000_0000_0000);
    lemma_windows_fit(ram_end);
    vmm::law_kernel_windows(pt, pmm, PHYS_MAP_BASE, window, 0x1000);
    vmm::law_kernel_windows(pt, pmm, PHYS_MAP_BASE, window, PHYS_MAP_BASE);
    vmm::law_kernel_windows(pt, pmm, PHYS_MAP_BASE, window, selftest::TEST_VA);
    vmm::law_kernel_windows(pt, pmm, PHYS_MAP_BASE, window, selftest::TEST_VA2);
}

/// In the address space of a kernel that has been brought up, with no more
/// memory than lies below the regions of processes, those are unmapped. So all
/// that is ever mapped there is mapped by spawning.
pub proof fn law_booted_kernel_has_no_processes(
    pt: PageTable,
    pmm: Pmm,
    ram_end: int,
    pid: u32,
    image: Seq<u8>,
)
    requires
        0 < ram_end <= sched::PROC_BASE,
        image.len() <= process::MAX_CODE,
        1 <= pid < 16,
        forall|n: int|
            0 <= n < vmm::PAGES ==> #[trigger] pt.leaf(pmm, n) == vmm::kernel_leaf(
                n,
                PHYS_MAP_BASE,
                window_size(ram_end),
            ),
    ensures
        forall|k: int|
            0 <= k < 512 ==> #[trigger] pt.leaf(pmm, process::code_page(pid) + k) is None,
        process::partly_loaded(pt, pmm, pid, image),
{
    math::law_rounded_up_least(ram_end, vmm::LARGE_PAGE as int, sched::PROC_BASE as int);
    assert forall|k: int| 0 <= k < 512 implies #[trigger] pt.leaf(
        pmm,
        process::code_page(pid) + k,
    ) is None by {
        reveal(vmm::window_offset);
        let n = process::code_page(pid) + k;
        assert(pt.leaf(pmm, n) == vmm::kernel_leaf(n, PHYS_MAP_BASE, window_size(ram_end)));
        assert((n * 4096 - 0) % vmm::VA_SPAN as int == n * 4096);
        assert((n * 4096 - PHYS_MAP_BASE) % vmm::VA_SPAN as int == n * 4096 + 0x8000_0000_0000);
    }
}

// ---------------------------------------------------------------------------
// Reports
// ---------------------------------------------------------------------------

/// What is printed when the kernel could not be brought up.
pub open spec fn error_text(e: BootError) -> Seq<u8> {
    match e {
        BootError::BadMagic(magic) => text::text("PANIC: bad multiboot magic "@) + text::hex(
            magic as int,
        ) + text::text("\n"@),
        BootError::NoMemoryMap => text::text(
            "PANIC: bootloader provided no usable memory map\n"@,
        ),
        BootError::NoUntypedRegion => text::text("PANIC: no usable region for the untyped cap\n"@),
        BootError::Init(why) => text::text("pmm_init FAILED: "@) + text::text(why@) + text::text(
            "\n"@,
        ),
        BootError::NoPageTables => text::text("PANIC: cannot allocate kernel page tables\n"@),
    }
}

/// The line that says why the kernel could not be brought up.
pub fn error_report(e: &BootError) -> (r: Vec<u8>)
    ensures
        r@ == error_text(*e),
{
    let mut out: Vec<u8> = Vec::new();
    match e {
        BootError::BadMagic(magic) => {
            push_str(&mut out, "PANIC: bad multiboot magic ");
            push_hex(&mut out, *magic);
            push_str(&mut out, "\n");
        },
        BootError::NoMemoryMap => {
            push_str(&mut out, "PANIC: bootloader provided no usable memory map\n");
        },
        BootError::NoUntypedRegion => {
            push_str(&mut out, "PANIC: no usable region for the untyped cap\n");
        },
        BootError::Init(why) => {
            push_str(&mut out, "pmm_init FAILED: ");
            push_str(&mut out, why);
            push_str(&mut out, "\n");
        },
        BootError::NoPageTables => {
            push_str(&mut out, "PANIC: cannot allocate kernel page tables\n");
        },
    }
    assert(out@ =~= error_text(*e));
    out
}

/// How the kind of a region is printed.
pub open spec fn kind_text(kind: RegionKind) -> Seq<u8> {
    match kind {
        RegionKind::Usable => text::text("Usable"@),
        RegionKind::Reserved => text::text("Reserved"@),
    }
}

/// `head`, followed by one line per region.
pub open spec fn with_regions(head: Seq<u8>, regions: Seq<MemoryRegion>) -> Seq<u8>
    decreases regions.len(),
{
    if regions.len() == 0 {
        head
    } else {
        let region = regions.last();
        with_regions(head, regions.drop_last()) + text::text("  region "@) + text::hex(
            region.start as int,
        ) + text::text(" len "@) + text::hex(region.len as int) + text::text(" "@) + kind_text(
            region.kind,
        ) + text::text("\n"@)
    }
}

/// The memory map and the place of the kernel image.
pub open spec fn map_text(regions: Seq<MemoryRegion>, image: (u64, u64)) -> Seq<u8> {
    with_regions(
        text::text("rolnix boot harness: "@) + text::dec(regions.len() as int) + text::text(
            " regions, kernel image "@,
        ) + text::hex(image.0 as int) + text::text(".."@) + text::hex(image.0 + image.1)
            + text::text("\n"@),
        regions,
    )
}

/// The untyped region.
pub open spec fn untyped_text(spec: UntypedSpec) -> Seq<u8> {
    text::text("untyped spec: "@) + text::hex(spec.base_phys as int) + text::text(" len "@)
        + text::hex(spec.len as int) + text::text("\n"@)
}

/// The lines that show the memory map.
pub fn map_report(regions: &[MemoryRegion], image: (u64, u64)) -> (r: Vec<u8>)
    requires
        image.0 + image.1 <= u64::MAX,
    ensures
        r@ == map_text(regions@, image),
{
    let mut out: Vec<u8> = Vec::new();
    push_str(&mut out, "rolnix boot harness: ");
    assert(out@ =~= text::text("rolnix boot harness: "@));
    push_dec(&mut out, regions.len() as u64);
    push_str(&mut out, " regions, kernel image ");
    push_hex(&mut out, image.0);
    push_str(&mut out, "..");
    push_hex(&mut out, image.0 + image.1);
    push_str(&mut out, "\n");
    let ghost head = out@;
    assert(regions@.take(0) =~= Seq::empty());
    let mut i: usize = 0;
    while i < regions.len()
        invariant
            i <= regions@.len(),
            out@ == with_regions(head, regions@.take(i as int)),
        decreases regions@.len() - i,
    {
        let region = regions[i];
        proof {
            assert(regions@.take(i + 1).drop_last() =~= regions@.take(i as int));
            assert(regions@.take(i + 1).last() == region);
        }
        push_str(&mut out, "  region ");
        push_hex(&mut out, region.start);
        push_str(&mut out, " len ");
        push_hex(&mut out, region.len);
        push_str(&mut out, " ");
        match region.kind {
            RegionKind::Usable => push_str(&mut out, "Usable"),
            RegionKind::Reserved => push_str(&mut out, "Reserved"),
        }
        push_str(&mut out, "\n");
        i = i + 1;
    }
    assert(regions@.take(regions@.len() as int) =~= regions@);
    out
}

/// The line that shows the untyped region.
pub fn untyped_report(spec: &UntypedSpec) -> (r: Vec<u8>)
    ensures
        r@ == untyped_text(*spec),
{
    let mut out: Vec<u8> = Vec::new();
    push_str(&mut out, "untyped spec: ");
    assert(out@ =~= text::text("untyped spec: "@));
    push_hex(&mut out, spec.base_phys);
    push_str(&mut out, " len ");
    push_hex(&mut out, spec.len);
    push_str(&mut out, "\n");
    out
}

/// How an address that may not be there is printed.
pub open spec fn option_text(pa: Option<int>) -> Seq<u8> {
    match pa {
        Some(a) => text::text("Some("@) + text::dec(a) + text::text(")"@),
        None => text::text("None"@),
    }
}

fn push_option(out: &mut Vec<u8>, pa: Option<u64>)
    ensures
        final(out)@ == old(out)@ + option_text(
            match pa {
                Some(a) => Some(a as int),
                None => None,
            },
        ),
{
    match pa {
        Some(a) => {
            push_str(out, "Some(");
            push_dec(out, a);
            push_str(out, ")");
            assert(out@ =~= old(out)@ + option_text(Some(a as int)));
        },
        None => {
            push_str(out, "None");
        },
    }
}

/// What the memory manager reported, and the kernel address space.
pub open spec fn booted_text(b: Booted, pmm: Pmm) -> Seq<u8> {
    text::text("pmm_init OK: total_frames="@) + text::dec(b.out.total_frames as int) + text::text(
        " free_frames="@,
    ) + text::dec(b.out.free_frames as int) + text::text(" frame_table_frames="@) + text::dec(
        b.out.frame_table_frames as int,
    ) + text::text(" untyped="@) + text::dec(b.out.untyped_created as int) + text::text(" heap="@)
        + text::hex(b.out.heap_phys as int) + text::text("+"@) + text::hex(b.out.heap_len as int)
        + text::text(" ram_end="@) + text::hex(b.out.ram_end as int) + text::text(
        "\nkernel address space active: pml4="@,
    ) + text::hex(b.pt.root_frame() * 4096) + text::text(" translate(0x1000)="@) + option_text(
        b.pt.translates(pmm, 0x1000),
    ) + text::text(" translate(physmap)="@) + option_text(b.pt.translates(pmm, pmm.physmap_at()))
        + text::text("\n"@)
}

/// The lines that show how the kernel came up.
pub fn booted_report(b: &Booted, pmm: &Pmm) -> (r: Vec<u8>)
    requires
        pmm.wf(),
        b.pt.wf(*pmm),
        pmm.physmap_at() != 0,
    ensures
        r@ == booted_text(*b, *pmm),
{
    let mut out: Vec<u8> = Vec::new();
    push_str(&mut out, "pmm_init OK: total_frames=");
    assert(out@ =~= text::text("pmm_init OK: total_frames="@));
    push_dec(&mut out, b.out.total_frames as u64);
    push_str(&mut out, " free_frames=");
    push_dec(&mut out, b.out.free_frames);
    push_str(&mut out, " frame_table_frames=");
    push_dec(&mut out, b.out.frame_table_frames as u64);
    push_str(&mut out, " untyped=");
    push_dec(&mut out, b.out.untyped_created as u64);
    push_str(&mut out, " heap=");
    push_hex(&mut out, b.out.heap_phys);
    push_str(&mut out, "+");
    push_hex(&mut out, b.out.heap_len);
    push_str(&mut out, " ram_end=");
    push_hex(&mut out, b.out.ram_end);
    push_str(&mut out, "\nkernel address space active: pml4=");
    push_hex(&mut out, b.pt.root_phys());
    push_str(&mut out, " translate(0x1000)=");
    push_option(&mut out, b.pt.translate(pmm, 0x1000));
    push_str(&mut out, " translate(physmap)=");
    push_option(&mut out, b.pt.translate(pmm, physmap_base(&pmm.physmap)));
    push_str(&mut out, "\n");
    out
}

// ---------------------------------------------------------------------------
// Panic output
// ---------------------------------------------------------------------------

/// What is printed of a formatted exception report: the report if it is text.
pub fn fault_output(bytes: &[u8]) -> (r: Vec<u8>)
    ensures
        r@ == (if vstd::utf8::valid_utf8(bytes@) {
            bytes@
        } else {
            text::text("<non-utf8>\r\n"@)
        }),
{
    let mut out: Vec<u8> = Vec::new();
    if is_utf8(bytes) {
        push_bytes(&mut out, bytes);
        assert(out@ =~= bytes@);
    } else {
        push_str(&mut out, "<non-utf8>\r\n");
        assert(out@ =~= text::text("<non-utf8>\r\n"@));
    }
    out
}

/// Bytes that a report of a panic may have.
pub const RAW_SINK_SIZE: usize = 1024;

/// A bounded buffer for reports that must not take the serial lock: what does
/// not fit is dropped.
pub struct RawSink {
    pub(crate) buf: Vec<u8>,
}

impl View for RawSink {
    type V = Seq<u8>;

    open(crate) spec fn view(&self) -> Seq<u8> {
        self.buf@
    }
}

impl RawSink {
    /// The buffer holds no more than it may.
    #[verifier::type_invariant]
    pub open(crate) spec fn valid(self) -> bool {
        self.buf@.len() <= RAW_SINK_SIZE
    }

    /// An empty buffer.
    pub fn new() -> (r: RawSink)
        ensures
            r@ == Seq::<u8>::empty(),
    {
        RawSink { buf: Vec::new() }
    }

    /// Append as many of `bytes` as fit.
    pub fn write(&mut self, bytes: &[u8])
        ensures
            final(self)@ == (if old(self)@.len() + bytes@.len() <= RAW_SINK_SIZE {
                old(self)@ + bytes@
            } else {
                (old(self)@ + bytes@).take(RAW_SINK_SIZE as int)
            }),
            old(self)@.len() + bytes@.len() <= 1024 ==> final(self)@ == old(self)@ + bytes@,
            old(self)@.len() + bytes@.len() > 1024 ==> final(self)@.len() == 1024,
    {
        proof {
            use_type_invariant(&*self);
        }
        let ghost all = self@ + bytes@;
        let mut buf: Vec<u8> = Vec::new();
        push_bytes(&mut buf, self.buf.as_slice());
        assert(buf@ =~= self.buf@);
        let mut i: usize = 0;
        while i < bytes.len() && buf.len() < RAW_SINK_SIZE
            invariant
                i <= bytes@.len(),
                *self == *old(self),
                all == old(self)@ + bytes@,
                buf@.len() == old(self)@.len() + i,
                buf@.len() <= RAW_SINK_SIZE,
                buf@ =~= all.take(buf@.len() as int),
            decreases bytes@.len() - i,
        {
            buf.push(bytes[i]);
            i = i + 1;
        }
        assert(all.take(all.len() as int) =~= all);
        self.buf = buf;
    }

    /// What has been written.
    pub fn as_slice(&self) -> (r: &[u8])
        ensures
            r@ == self@,
            r@.len() <= RAW_SINK_SIZE,
    {
        proof {
            use_type_invariant(self);
        }
        self.buf.as_slice()
    }
}

/// A kernel that has been brought up sees all of its memory twice: at its own
/// address, and in the physmap in the upper half of the address space. Neither
/// is for user code.
#[verifier::spinoff_prover]
pub proof fn law_booted_kernel_sees_all_memory(pt: PageTable, pmm: Pmm, ram_end: int, phys: int)
    requires
        0 < ram_end <= u32::MAX * 4096,
        0 <= phys < ram_end,
        pt.wf(pmm),
        forall|n: int|
            0 <= n < vmm::PAGES ==> #[trigger] pt.leaf(pmm, n) == vmm::kernel_leaf(
                n,
                PHYS_MAP_BASE,
                window_size(ram_end),
            ),
    ensures
        pt.translates(pmm, phys as u64) == Some(phys),
        pt.translates(pmm, (0xffff_8000_0000_0000 + phys) as u64) == Some(phys),
        vmm::access(pt, pmm, phys / 4096) == Some(
            vmm::Access { write: true, user: false, execute: true },
        ),
{
    let window = window_size(ram_end);
    lemma_windows_fit(ram_end);
    let low = phys as u64;
    let high = (0xffff_8000_0000_0000 + phys) as u64;
    vmm::law_canonical_is_sign_extension(low);
    assert(vmm::canonical(low) && vmm::canonical(high));
    vmm::law_kernel_windows(pt, pmm, PHYS_MAP_BASE, window, low);
    vmm::law_kernel_windows(pt, pmm, PHYS_MAP_BASE, window, high);
    assert((high as int) % (vmm::VA_SPAN as int) == phys + 0x8000_0000_0000);
    let n = phys / 4096;
    assert(pt.leaf(pmm, n) == vmm::kernel_leaf(n, PHYS_MAP_BASE, window));
    reveal(vmm::window_offset);
    assert((n * 4096 - 0) % vmm::VA_SPAN as int == n * 4096);
    assert(vmm::in_window(n, 0, window));
    vmm::law_kernel_windows_are_the_kernels(pt, pmm, PHYS_MAP_BASE, window, n);
}

/// The windows are whole large pages, and no larger than memory asks for.
pub proof fn law_windows_are_large_pages(ram_end: int)
    ensures
        window_size(ram_end) % 0x20_0000 == 0,
        ram_end <= window_size(ram_end) < ram_end + 0x20_0000,
{
    math::law_rounded_up(ram_end, vmm::LARGE_PAGE as int);
}

/// There is something usable exactly if some usable region does not end at
/// zero, and then the highest of them can be chosen.
pub proof fn law_usable_memory_can_be_chosen(regions: Seq<MemoryRegion>, k: int)
    requires
        memmap::is_highest(regions, k),
    ensures
        nothing_usable(regions) <==> regions[k].start + regions[k].len == 0,
{
    assert(regions[k].usable());
}

/// The heap that the memory manager carves out is 8 MiB of RAM, from a frame
/// on.
pub proof fn law_kernel_heap(out: PmInitOut)
    requires
        heap_ready(out),
    ensures
        out.heap_len == 8 * 1024 * 1024,
        out.heap_phys % 4096 == 0,
        out.heap_phys + 8 * 1024 * 1024 <= out.ram_end,
{
}

/// The memory map is printed region by region, in order.
pub proof fn law_regions_are_printed_in_order(
    head: Seq<u8>,
    a: Seq<MemoryRegion>,
    b: Seq<MemoryRegion>,
)
    ensures
        with_regions(head, a + b) == with_regions(with_regions(head, a), b),
    decreases b.len(),
{
    if b.len() == 0 {
        assert(a + b =~= a);
    } else {
        law_regions_are_printed_in_order(head, a, b.drop_last());
        assert((a + b).drop_last() =~= a + b.drop_last());
        assert((a + b).last() == b.last());
    }
}

/// The reports of the boot show what they are about: the magic number, the
/// reason of the memory manager, the untyped region.
pub proof fn law_boot_reports_show_their_subject(magic: u64, why: &'static str, spec: UntypedSpec)
    ensures
        exists|a: Seq<u8>, b: Seq<u8>|
            error_text(BootError::BadMagic(magic)) == #[trigger] (a + text::hex(magic as int) + b),
        exists|a: Seq<u8>, b: Seq<u8>|
            error_text(BootError::Init(why)) == #[trigger] (a + text::text(why@) + b),
        exists|a: Seq<u8>, b: Seq<u8>, c: Seq<u8>|
            untyped_text(spec) == #[trigger] (a + text::hex(spec.base_phys as int) + b + text::hex(
                spec.len as int,
            ) + c),
{
    let end = text::text("\n"@);
    assert(error_text(BootError::BadMagic(magic)) == text::text("PANIC: bad multiboot magic "@)
        + text::hex(magic as int) + end);
    assert(error_text(BootError::Init(why)) == text::text("pmm_init FAILED: "@) + text::text(why@)
        + end);
    assert(untyped_text(spec) == text::text("untyped spec: "@) + text::hex(spec.base_phys as int)
        + text::text(" len "@) + text::hex(spec.len as int) + end);
}

/// The memory map is printed under the number of its regions and the bounds of
/// the kernel image, with the start, the length and the kind of each region.
#[verifier::spinoff_prover]
pub proof fn law_map_report_shows_the_map(
    head: Seq<u8>,
    region: MemoryRegion,
    kind: Seq<char>,
    regions: Seq<MemoryRegion>,
    image: (u64, u64),
)
    requires
        region.kind == RegionKind::Usable ==> kind == "Usable"@,
        region.kind == RegionKind::Reserved ==> kind == "Reserved"@,
    ensures
        exists|a: Seq<u8>, b: Seq<u8>, c: Seq<u8>, d: Seq<u8>|
            map_text(regions, image) == with_regions(
                #[trigger] (a + text::dec(regions.len() as int) + b + text::hex(image.0 as int) + c
                    + text::hex(image.0 + image.1) + d),
                regions,
            ),
        exists|a: Seq<u8>, b: Seq<u8>, c: Seq<u8>, d: Seq<u8>|
            with_regions(head, seq![region]) == #[trigger] (head + a + text::hex(
                region.start as int,
            ) + b + text::hex(region.len as int) + c + text::text(kind) + d),
{
    reveal_with_fuel(with_regions, 2);
    let end = text::text("\n"@);
    let a = text::text("  region "@);
    let b = text::text(" len "@);
    let c = text::text(" "@);
    assert(seq![region].drop_last() =~= Seq::empty());
    assert(with_regions(head, seq![region]) == head + a + text::hex(region.start as int) + b
        + text::hex(region.len as int) + c + text::text(kind) + end);
    let a = text::text("rolnix boot harness: "@);
    let b = text::text(" regions, kernel image "@);
    let c = text::text(".."@);
    let top = a + text::dec(regions.len() as int) + b + text::hex(image.0 as int) + c + text::hex(
        image.0 + image.1,
    ) + end;
    assert(map_text(regions, image) == with_regions(top, regions));
}

/// An address that is there is printed as a number that stands for it.
pub proof fn law_addresses_are_printed(a: int)
    requires
        0 <= a,
    ensures
        ({
            let s = option_text(Some(a));
            &&& s.len() > 6
            &&& text::value_in(s.subrange(5, s.len() - 1), 10) == a
        }),
{
    text::law_decimals(a);
    text::law_numeral_stands_for_its_number(a as nat, 10);
    reveal_strlit("Some(");
    reveal_strlit(")");
    assert(vstd::utf8::is_ascii_chars("Some("@) && vstd::utf8::is_ascii_chars(")"@));
    vstd::utf8::is_ascii_chars_encode_utf8("Some("@);
    vstd::utf8::is_ascii_chars_encode_utf8(")"@);
    let s = option_text(Some(a));
    assert(s.subrange(5, s.len() - 1) =~= text::dec(a));
}

/// The report of the boot shows the numbers of the memory manager in order, and
/// what the two windows translate to.
#[verifier::spinoff_prover]
pub proof fn law_boot_report_shows_the_numbers(b: Booted, pmm: Pmm)
    ensures
        exists|
            s0: Seq<u8>,
            s1: Seq<u8>,
            s2: Seq<u8>,
            s3: Seq<u8>,
            s4: Seq<u8>,
            s5: Seq<u8>,
            s6: Seq<u8>,
            s7: Seq<u8>,
            s8: Seq<u8>,
            s9: Seq<u8>,
            s10: Seq<u8>,
        |
            booted_text(b, pmm) == #[trigger] (s0 + text::dec(b.out.total_frames as int) + s1
                + text::dec(b.out.free_frames as int) + s2 + text::dec(
                b.out.frame_table_frames as int,
            ) + s3 + text::dec(b.out.untyped_created as int) + s4 + text::hex(
                b.out.heap_phys as int,
            ) + s5 + text::hex(b.out.heap_len as int) + s6 + text::hex(b.out.ram_end as int) + s7
                + text::hex(b.pt.root_frame() * 4096) + s8 + option_text(
                b.pt.translates(pmm, 0x1000),
            ) + s9 + option_text(b.pt.translates(pmm, pmm.physmap_at())) + s10),
{
    let s0 = text::text("pmm_init OK: total_frames="@);
    let s1 = text::text(" free_frames="@);
    let s2 = text::text(" frame_table_frames="@);
    let s3 = text::text(" untyped="@);
    let s4 = text::text(" heap="@);
    let s5 = text::text("+"@);
    let s6 = text::text(" ram_end="@);
    let s7 = text::text("\nkernel address space active: pml4="@);
    let s8 = text::text(" translate(0x1000)="@);
    let s9 = text::text(" translate(physmap)="@);
    let s10 = text::text("\n"@);
    assert(booted_text(b, pmm) == s0 + text::dec(b.out.total_frames as int) + s1 + text::dec(
        b.out.free_frames as int,
    ) + s2 + text::dec(b.out.frame_table_frames as int) + s3 + text::dec(
        b.out.untyped_created as int,
    ) + s4 + text::hex(b.out.heap_phys as int) + s5 + text::hex(b.out.heap_len as int) + s6
        + text::hex(b.out.ram_end as int) + s7 + text::hex(b.pt.root_frame() * 4096) + s8
        + option_text(b.pt.translates(pmm, 0x1000)) + s9 + option_text(
        b.pt.translates(pmm, pmm.physmap_at()),
    ) + s10);
}

/// The timer demo takes a second: as many ticks as the timer fires in one.
pub proof fn law_timer_demo_takes_a_second()
    ensures
        TIMER_DEMO_TICKS == TIMER_HZ,
        pit::divisor(TIMER_HZ) * 100 <= 1_193_182 < (pit::divisor(TIMER_HZ) + 1) * 100,
        multiboot::MAGIC == 0x2BAD_B002,
{
    pit::law_rate_is_met(TIMER_HZ);
}

} // verus!
