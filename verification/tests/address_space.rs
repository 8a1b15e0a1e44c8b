use rolnix_kernel::allocator::{alloc_frame, free_frame_count, release_frame};
use rolnix_kernel::arch::{frame_phys, physmap_base, phys_to_virt, set_physmap_base, virt_to_phys, PhysMap};
use rolnix_kernel::boot::{pmm_init, BootInfo, MemoryRegion, PmInitOut, RegionKind};
use rolnix_kernel::frame::{frame_info, OwnerTag};
use rolnix_kernel::memory::Memory;
use rolnix_kernel::owned::OwnedFrame;
use rolnix_kernel::pmm::Pmm;
use rolnix_kernel::untyped::UntypedCap;
use rolnix_kernel::vmm::{Flags, MapError, PageTable};

const TEST_VA: u64 = 0xFFFF_9000_0000_0000;
const RAM_SIZE: usize = 16 * 1024 * 1024;
const HEAP_SIZE: u64 = 64 * 1024;
const PHYSMAP: u64 = 0xFFFF_8000_0000_0000;

fn fresh_pmm() -> (Pmm, PmInitOut) {
    let regions = [MemoryRegion { start: 0, len: RAM_SIZE as u64, kind: RegionKind::Usable }];
    let mut caps = [UntypedCap::new(0, 0, 0)];
    let mut pmm = Pmm::new(Memory::zeroed(RAM_SIZE / 8));
    let boot = BootInfo { physmap_base: PHYSMAP, regions: &regions, kernel_image: (0, 0) };
    match pmm_init(&mut pmm, &boot, &[], &mut caps, HEAP_SIZE) {
        Ok(out) => (pmm, out),
        Err(e) => panic!("pmm_init failed: {}", e),
    }
}

#[test]
fn map_translate_unmap_round_trip() {
    let (mut pmm, _out) = fresh_pmm();
    let mut pt = PageTable::new(&mut pmm).expect("root");
    assert_eq!(pt.translate(&pmm, TEST_VA), None);

    let f = OwnedFrame::allocate(&mut pmm).expect("frame");
    let pa = f.phys();
    pt.map(&mut pmm, TEST_VA, pa, Flags::present().with(Flags::writable())).expect("map");
    assert_eq!(pt.translate(&pmm, TEST_VA), Some(pa));
    assert_eq!(frame_info(&pmm, f.frame()).mappings(), 1);
    // Write through the mapping: the page frame is the same memory.
    pmm.write_word(f.frame(), 0, 0xCAFE);
    assert_eq!(pmm.read_word(f.frame(), 0), 0xCAFE);

    pt.unmap(&mut pmm, TEST_VA).expect("unmap");
    assert_eq!(pt.translate(&pmm, TEST_VA), None);
    let idx = f.frame();
    assert_eq!(frame_info(&pmm, idx).mappings(), 0);
    f.release(&mut pmm);
    assert_eq!(frame_info(&pmm, idx).owner_tag(), OwnerTag::Free);
}

#[test]
fn kernel_windows_translate() {
    let (mut pmm, out) = fresh_pmm();
    let pt = PageTable::new_kernel(&mut pmm, out.ram_end).expect("kernel space");

    // Identity and physmap windows via huge pages.
    assert_eq!(pt.translate(&pmm, 0x1000), Some(0x1000));
    let pm = PHYSMAP;
    assert_eq!(pt.translate(&pmm, pm), Some(0));
    assert_eq!(pt.translate(&pmm, pm + 0x1000), Some(0x1000));
    assert_eq!(pt.translate(&pmm, pm + out.ram_end - 1), Some(out.ram_end - 1));
    // Nothing beyond the windows.
    assert_eq!(pt.translate(&pmm, TEST_VA), None);
    assert_eq!(pt.translate(&pmm, 0x1_0000_0000), None);

    // A 4 KiB map inside an existing huge window must conflict.
    let mut pt = pt;
    assert_eq!(pt.map(&mut pmm, pm, 0, Flags::present()), Err(MapError::Conflict));
}

#[test]
fn map_rejects_bad_inputs() {
    let (mut pmm, _out) = fresh_pmm();
    let mut pt = PageTable::new(&mut pmm).expect("root");
    let f = OwnedFrame::allocate(&mut pmm).expect("frame");

    // Unaligned VA/PA.
    assert_eq!(
        pt.map(&mut pmm, TEST_VA + 1, f.phys(), Flags::present()),
        Err(MapError::NotAligned)
    );
    assert_eq!(
        pt.map(&mut pmm, TEST_VA, f.phys() + 1, Flags::present()),
        Err(MapError::NotAligned)
    );
    // Non-canonical (bit 47 set but bits 48..63 zero).
    assert_eq!(
        pt.map(&mut pmm, 0x8000_0000_0000, f.phys(), Flags::present()),
        Err(MapError::NonCanonical)
    );
    // PA beyond RAM.
    assert_eq!(
        pt.map(&mut pmm, TEST_VA, 1 << 40, Flags::present()),
        Err(MapError::OutOfRange)
    );
    f.release(&mut pmm);
}

#[test]
fn unmap_reports_what_is_wrong() {
    let (mut pmm, out) = fresh_pmm();
    let mut pt = PageTable::new_kernel(&mut pmm, out.ram_end).expect("kernel space");
    assert_eq!(pt.unmap(&mut pmm, 0x8000_0000_0000), Err(MapError::NonCanonical));
    assert_eq!(pt.unmap(&mut pmm, TEST_VA + 8), Err(MapError::NotAligned));
    assert_eq!(pt.unmap(&mut pmm, TEST_VA), Err(MapError::NotMapped));
    assert_eq!(pt.unmap(&mut pmm, PHYSMAP), Err(MapError::Conflict));
}

#[test]
fn mapping_twice_conflicts_and_offsets_translate() {
    let (mut pmm, _out) = fresh_pmm();
    let mut pt = PageTable::new(&mut pmm).expect("root");
    let f = alloc_frame(&mut pmm).expect("frame");
    let flags = Flags::present().with(Flags::user());
    let before = free_frame_count(&pmm);
    assert_eq!(pt.map(&mut pmm, 0x40_0000, frame_phys(f), flags), Ok(()));
    // Three tables below the root.
    assert_eq!(free_frame_count(&pmm), before - 3);
    assert_eq!(
        pt.map(&mut pmm, 0x40_0000, frame_phys(f), flags),
        Err(MapError::Conflict)
    );
    assert_eq!(pt.translate(&pmm, 0x40_0123), Some(frame_phys(f) + 0x123));
    assert_eq!(pt.translate(&pmm, 0x40_1000), None);
    // The neighbouring page uses the same tables.
    let g = alloc_frame(&mut pmm).expect("frame");
    assert_eq!(pt.map(&mut pmm, 0x40_1000, frame_phys(g), flags), Ok(()));
    assert_eq!(free_frame_count(&pmm), before - 4);
    assert_eq!(pt.translate(&pmm, 0x40_0000), Some(frame_phys(f)));
}

#[test]
fn map_fails_when_tables_run_out() {
    let (mut pmm, _out) = fresh_pmm();
    let mut pt = PageTable::new(&mut pmm).expect("root");
    let f = alloc_frame(&mut pmm).expect("frame");
    while free_frame_count(&pmm) > 2 {
        alloc_frame(&mut pmm).expect("frame");
    }
    assert_eq!(
        pt.map(&mut pmm, TEST_VA, frame_phys(f), Flags::present()),
        Err(MapError::AllocFailed)
    );
    assert_eq!(pt.translate(&pmm, TEST_VA), None);
}

#[test]
fn flag_bits() {
    assert_eq!(Flags::present().bits(), 1);
    assert_eq!(Flags::writable().bits(), 2);
    assert_eq!(Flags::user().bits(), 4);
    assert_eq!(Flags::huge().bits(), 0x80);
    assert_eq!(Flags::no_exec().bits(), 1 << 63);
    assert_eq!(Flags::present().with(Flags::writable()).with(Flags::present()).bits(), 3);
}

#[test]
fn physmap_translation_is_invertible() {
    let mut map = PhysMap::new();
    set_physmap_base(&mut map, PHYSMAP);
    set_physmap_base(&mut map, PHYSMAP);
    assert_eq!(physmap_base(&map), PHYSMAP);
    assert_eq!(phys_to_virt(&map, 0x1234), PHYSMAP + 0x1234);
    assert_eq!(virt_to_phys(&map, phys_to_virt(&map, 0x1234)), 0x1234);
}

#[test]
fn released_page_returns_when_it_is_unmapped() {
    let (mut pmm, _out) = fresh_pmm();
    let mut pt = PageTable::new(&mut pmm).expect("root");
    let f = alloc_frame(&mut pmm).expect("frame");
    pt.map(&mut pmm, TEST_VA, frame_phys(f), Flags::present()).expect("map");
    pt.map(&mut pmm, TEST_VA + 0x1000, frame_phys(f), Flags::present()).expect("map");
    assert_eq!(frame_info(&pmm, f).mappings(), 2);
    release_frame(&mut pmm, f);
    assert_eq!(frame_info(&pmm, f).owner_tag(), OwnerTag::Pending);
    pt.unmap(&mut pmm, TEST_VA).expect("unmap");
    assert_eq!(frame_info(&pmm, f).owner_tag(), OwnerTag::Pending);
    assert_ne!(alloc_frame(&mut pmm), Some(f));
    pt.unmap(&mut pmm, TEST_VA + 0x1000).expect("unmap");
    assert_eq!(frame_info(&pmm, f).owner_tag(), OwnerTag::Free);
    assert_eq!(alloc_frame(&mut pmm), Some(f));
}

#[test]
fn tables_do_not_disturb_each_other() {
    let (mut pmm, out) = fresh_pmm();
    let kernel = PageTable::new_kernel(&mut pmm, out.ram_end).expect("kernel space");
    let mut other = PageTable::new(&mut pmm).expect("root");
    let f = alloc_frame(&mut pmm).expect("frame");
    other.map(&mut pmm, TEST_VA, frame_phys(f), Flags::present()).expect("map");
    assert_eq!(kernel.translate(&pmm, TEST_VA), None);
    assert_eq!(kernel.translate(&pmm, 0x1234), Some(0x1234));
    assert_eq!(other.translate(&pmm, 0x1234), None);
}

/// The links from the root to the lowest table for `va`.
fn links(pt: &PageTable, pmm: &Pmm, va: u64) -> Vec<u64> {
    let mut frame = (pt.root_phys() / 4096) as u32;
    let mut out = Vec::new();
    for level in [3u32, 2, 1] {
        let e = pmm.read_word(frame, (va >> (12 + 9 * level)) as usize & 511);
        out.push(e);
        frame = ((e & 0x000f_ffff_ffff_f000) / 4096) as u32;
    }
    out
}

#[test]
fn links_do_not_take_back_what_pages_allow() {
    let (mut pmm, _out) = fresh_pmm();
    let mut pt = PageTable::new(&mut pmm).expect("root");
    let f = alloc_frame(&mut pmm).expect("frame");
    let rw = Flags::present().with(Flags::writable());
    pt.map(&mut pmm, 0x40_0000, frame_phys(f), rw).expect("map");
    for e in links(&pt, &pmm, 0x40_0000) {
        // Present and writable, nothing else but the address of the table.
        assert_eq!(e & !0x000f_ffff_ffff_f000, 3);
    }
    // A user page opens the links on its path, and they stay open whatever is
    // mapped and unmapped beside it.
    let g = alloc_frame(&mut pmm).expect("frame");
    pt.map(&mut pmm, 0x40_1000, frame_phys(g), rw.with(Flags::user())).expect("map");
    assert!(links(&pt, &pmm, 0x40_1000).iter().all(|e| e & !0x000f_ffff_ffff_f000 == 7));
    let h = alloc_frame(&mut pmm).expect("frame");
    pt.map(&mut pmm, 0x40_2000, frame_phys(h), Flags::present()).expect("map");
    pt.unmap(&mut pmm, 0x40_0000).expect("unmap");
    assert_eq!(
        pt.map(&mut pmm, 0x40_2000, frame_phys(h), Flags::present()),
        Err(MapError::Conflict)
    );
    assert!(links(&pt, &pmm, 0x40_1000).iter().all(|e| e & !0x000f_ffff_ffff_f000 == 7));
    assert_eq!(pt.translate(&pmm, 0x40_1000), Some(frame_phys(g)));
}

#[test]
fn refused_mappings_take_no_frames_but_for_tables() {
    let (mut pmm, _out) = fresh_pmm();
    let mut pt = PageTable::new(&mut pmm).expect("root");
    let f = alloc_frame(&mut pmm).expect("frame");
    let before = free_frame_count(&pmm);
    assert!(pt.map(&mut pmm, 0x8000_0000_0000, frame_phys(f), Flags::present()).is_err());
    assert!(pt.map(&mut pmm, TEST_VA + 8, frame_phys(f), Flags::present()).is_err());
    assert!(pt.map(&mut pmm, TEST_VA, 1 << 40, Flags::present()).is_err());
    assert_eq!(free_frame_count(&pmm), before);
    pt.map(&mut pmm, TEST_VA, frame_phys(f), Flags::present()).expect("map");
    let before = free_frame_count(&pmm);
    assert_eq!(
        pt.map(&mut pmm, TEST_VA, frame_phys(f), Flags::present()),
        Err(MapError::Conflict)
    );
    assert_eq!(free_frame_count(&pmm), before);
    assert_eq!(frame_info(&pmm, f).mappings(), 1);
    // Without frames for all tables, those that are left are used up.
    while free_frame_count(&pmm) > 2 {
        alloc_frame(&mut pmm).expect("frame");
    }
    assert_eq!(
        pt.map(&mut pmm, 0x40_0000, frame_phys(f), Flags::present()),
        Err(MapError::AllocFailed)
    );
    assert_eq!(free_frame_count(&pmm), 0);
}

#[test]
fn kernel_space_without_frames_uses_up_the_pool() {
    let (mut pmm, out) = fresh_pmm();
    while free_frame_count(&pmm) > 3 {
        alloc_frame(&mut pmm).expect("frame");
    }
    assert!(PageTable::new_kernel(&mut pmm, out.ram_end).is_none());
    assert_eq!(free_frame_count(&pmm), 0);
}
