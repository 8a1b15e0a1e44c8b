use rolnix_kernel::allocator::{
    alloc_frame, debug_validate_free_lists, free_frame_count, release_frame,
};
use rolnix_kernel::boot::{
    pmm_init, BootAllocator, BootInfo, MemoryRegion, PmInitOut, RegionKind, UntypedSpec,
};
use rolnix_kernel::frame::{
    add_mapping, frame_gen, frame_info, pin_frame, remove_mapping, total_frames, unpin_frame,
    OwnerTag,
};
use rolnix_kernel::memory::Memory;
use rolnix_kernel::owned::OwnedFrame;
use rolnix_kernel::pmm::Pmm;
use rolnix_kernel::untyped::{retype_frame, RetypeError, UntypedCap};

const FRAME_SIZE: u64 = 4096;
const RAM_SIZE: usize = 16 * 1024 * 1024;
const HEAP_SIZE: u64 = 64 * 1024;
const PHYSMAP: u64 = 0xFFFF_8000_0000_0000;

fn region(start: u64, len: u64, kind: RegionKind) -> MemoryRegion {
    MemoryRegion { start, len, kind }
}

fn regions() -> Vec<MemoryRegion> {
    vec![region(0, RAM_SIZE as u64, RegionKind::Usable)]
}

fn blank_pmm() -> Pmm {
    Pmm::new(Memory::zeroed(RAM_SIZE / 8))
}

fn init(
    pmm: &mut Pmm,
    regions: &[MemoryRegion],
    kernel_image: (u64, u64),
    specs: &[UntypedSpec],
    caps: &mut [UntypedCap],
    heap_len: u64,
) -> Result<PmInitOut, &'static str> {
    let boot = BootInfo { physmap_base: PHYSMAP, regions, kernel_image };
    pmm_init(pmm, &boot, specs, caps, heap_len)
}

fn fresh_pmm(specs: &[UntypedSpec], caps: &mut [UntypedCap]) -> (Pmm, PmInitOut) {
    let mut pmm = blank_pmm();
    let out = match init(&mut pmm, &regions(), (0, 0), specs, caps, HEAP_SIZE) {
        Ok(out) => out,
        Err(e) => panic!("pmm_init failed: {}", e),
    };
    (pmm, out)
}

fn no_specs() -> (Vec<UntypedSpec>, Vec<UntypedCap>) {
    (Vec::new(), vec![UntypedCap::new(0, 0, 0)])
}

fn one_spec() -> (Vec<UntypedSpec>, Vec<UntypedCap>) {
    (
        vec![UntypedSpec { base_phys: 0x100000, len: 0x100000 }],
        vec![UntypedCap::new(0, 0, 0)],
    )
}

#[test]
fn boot_allocator_bumps() {
    let r = [
        region(0, 0x1000, RegionKind::Reserved),
        region(0x1000, 0x2000, RegionKind::Usable),
        region(0x10000, 0x1000, RegionKind::Usable),
    ];
    let mut ba = BootAllocator::new(&r);
    assert_eq!(ba.allocate(0x1000, 0x1000), Some(0x1000));
    assert_eq!(ba.allocate(0x1000, 0x1000), Some(0x2000));
    // The gap [0x3000, 0x10000) is skipped by advancing regions.
    assert_eq!(ba.allocate(0x1000, 0x1000), Some(0x10000));
    assert_eq!(ba.allocate(0x100, 0x100), None);
}

#[test]
fn kernel_image_split_keeps_image_reserved() {
    let (specs, mut caps) = no_specs();
    let mut pmm = blank_pmm();
    // Kernel image occupies 1 MiB..3 MiB (frame-aligned).
    let out = init(&mut pmm, &regions(), (0x100000, 0x200000), &specs, &mut caps, 0)
        .expect("pmm_init failed");

    // Drain the whole pool: no frame may land inside the kernel image.
    let ki_first = 0x100000 / 4096;
    let ki_last = 0x300000 / 4096;
    for _ in 0..out.free_frames {
        let f = alloc_frame(&mut pmm).expect("alloc");
        assert!(
            !(ki_first..ki_last).contains(&(f as u64)),
            "allocator returned kernel-image frame {f:#x}"
        );
    }
    assert_eq!(alloc_frame(&mut pmm), None, "pool must be exhausted");
}

#[test]
fn heap_carve_stays_out_of_pool() {
    let (specs, mut caps) = no_specs();
    let (mut pmm, out) = fresh_pmm(&specs, &mut caps);
    assert!(out.heap_len == HEAP_SIZE);
    assert!(out.heap_phys % FRAME_SIZE == 0);
    let h_first = out.heap_phys / FRAME_SIZE;
    let h_last = (out.heap_phys + out.heap_len) / FRAME_SIZE;

    // Drain the pool: no frame may land inside the heap region.
    for _ in 0..out.free_frames {
        let f = alloc_frame(&mut pmm).expect("alloc");
        assert!(
            !(h_first..h_last).contains(&(f as u64)),
            "allocator returned heap frame {f:#x}"
        );
    }
    assert_eq!(alloc_frame(&mut pmm), None, "pool must be exhausted");
}

#[test]
fn pmm_integration() {
    // Reserve the 1 MiB..2 MiB range as an untyped region; everything
    // else becomes the kernel pool.
    let (specs, mut caps) = one_spec();
    let (mut pmm, out) = fresh_pmm(&specs, &mut caps);
    assert_eq!(out.total_frames, RAM_SIZE / 4096);
    assert_eq!(out.frame_table_frames, out.total_frames * 24 / 4096);
    assert_eq!(out.ram_end, RAM_SIZE as u64);
    assert_eq!(debug_validate_free_lists(&pmm), free_frame_count(&pmm));
    assert!(out.free_frames > 0);

    // --- alloc / release round trip through OwnedFrame -----------------
    let a = OwnedFrame::allocate(&mut pmm).expect("alloc");
    let idx_a = a.frame();
    assert_eq!(a.as_ptr(&pmm), PHYSMAP + a.phys());
    pmm.write_byte(idx_a, 0, 0xAB);
    assert_eq!(pmm.read_byte(idx_a, 0), 0xAB);
    assert_eq!(frame_info(&pmm, idx_a).owner_tag(), OwnerTag::Kernel);

    let b = OwnedFrame::allocate(&mut pmm).expect("alloc");
    assert_ne!(a.frame(), b.frame());
    a.release(&mut pmm);
    // Released to shard 0; the next allocation should reuse the frame.
    let a2 = OwnedFrame::allocate(&mut pmm).expect("alloc");
    assert_eq!(a2.frame(), idx_a);
    b.release(&mut pmm);
    a2.release(&mut pmm);

    // --- retype from the untyped region --------------------------------
    let f1 = retype_frame(&mut pmm, &mut caps[0], 7).expect("retype");
    assert!((256..512).contains(&f1), "frame {f1} outside 1MiB..2MiB");
    assert_eq!(frame_info(&pmm, f1).owner_tag(), OwnerTag::Domain);
    assert_eq!(frame_info(&pmm, f1).owner().id(), 7);

    let mut count = 1u32;
    while retype_frame(&mut pmm, &mut caps[0], 7).is_ok() {
        count += 1;
    }
    assert_eq!(count, 256, "region has 256 frames");

    // Once-only grant semantics: a released frame returns to the global
    // pool, not to the region, so the region stays exhausted.
    release_frame(&mut pmm, f1);
    assert_eq!(frame_info(&pmm, f1).owner_tag(), OwnerTag::Free);
    assert_eq!(retype_frame(&mut pmm, &mut caps[0], 7), Err(RetypeError::Exhausted));

    // --- deferral: pinned frame is not released until drained -----------
    let d = alloc_frame(&mut pmm).expect("alloc");
    pin_frame(&mut pmm, d);
    release_frame(&mut pmm, d);
    assert_eq!(frame_info(&pmm, d).owner_tag(), OwnerTag::Pending);
    let e = OwnedFrame::allocate(&mut pmm).expect("alloc");
    assert_ne!(e.frame(), d);
    unpin_frame(&mut pmm, d);
    assert_eq!(frame_info(&pmm, d).owner_tag(), OwnerTag::Free);
    assert_eq!(alloc_frame(&mut pmm), Some(d));
    e.release(&mut pmm);

    assert_eq!(debug_validate_free_lists(&pmm), free_frame_count(&pmm));
}

#[test]
fn split_untyped_is_pure_bookkeeping() {
    let (specs, mut caps) = one_spec();
    let (mut pmm, _out) = fresh_pmm(&specs, &mut caps);

    let (mut a, mut b) = caps[0].split(0x40000).expect("split");
    assert_eq!(a.base_frame(), 256);
    assert_eq!(a.num_frames(), 64);
    assert_eq!(b.base_frame(), 320);
    assert_eq!(b.num_frames(), 192);

    // Retyping from either half works; the owner id is unchanged.
    let f = retype_frame(&mut pmm, &mut a, 1).expect("retype a");
    assert!((256..320).contains(&f));
    let g = retype_frame(&mut pmm, &mut b, 1).expect("retype b");
    assert!((320..512).contains(&g));
    assert_eq!(a.id(), caps[0].id());
    assert_eq!(b.id(), caps[0].id());
}

#[test]
fn mapping_helpers_compile() {
    let (specs, mut caps) = no_specs();
    let (mut pmm, _out) = fresh_pmm(&specs, &mut caps);

    let f = alloc_frame(&mut pmm).expect("alloc");
    assert_eq!(add_mapping(&mut pmm, f), 1);
    assert_eq!(frame_gen(&pmm, f), 0);
    assert_eq!(remove_mapping(&mut pmm, f), 0);
    release_frame(&mut pmm, f);
    assert!(frame_gen(&pmm, f) >= 1);
}

#[test]
fn split_reports_bad_lengths() {
    let cap = UntypedCap::new(3, 16, 8);
    assert_eq!(cap.base_phys(), 0x10000);
    assert_eq!(cap.end_phys(), 0x18000);
    assert!(cap.split(0x1800).is_err());
    assert!(cap.split(0).is_err());
    assert!(cap.split(0x8000).is_err());
    assert!(cap.split(0x9000).is_err());
    let (a, b) = cap.split(0x7000).expect("split");
    assert_eq!((a.num_frames(), b.num_frames()), (7, 1));
    assert_eq!(b.base_frame(), 23);
}

#[test]
fn frames_are_handed_out_in_address_order() {
    let (specs, mut caps) = no_specs();
    let (mut pmm, out) = fresh_pmm(&specs, &mut caps);
    // The pool starts at 1 MiB, above the legacy area.
    assert_eq!(alloc_frame(&mut pmm), Some(256));
    assert_eq!(alloc_frame(&mut pmm), Some(257));
    // 4096 frames, 256 of them legacy memory; the table and the heap are
    // carved out below 1 MiB.
    assert_eq!(total_frames(&pmm), 4096);
    assert_eq!(out.free_frames, 4096 - 256);
    assert_eq!(free_frame_count(&pmm), 4096 - 256 - 2);
}

#[test]
fn released_frames_come_back_last_in_first_out() {
    let (specs, mut caps) = no_specs();
    let (mut pmm, _out) = fresh_pmm(&specs, &mut caps);
    let a = alloc_frame(&mut pmm).expect("alloc");
    let b = alloc_frame(&mut pmm).expect("alloc");
    let before = free_frame_count(&pmm);
    release_frame(&mut pmm, a);
    release_frame(&mut pmm, b);
    assert_eq!(free_frame_count(&pmm), before + 2);
    assert_eq!(alloc_frame(&mut pmm), Some(b));
    assert_eq!(alloc_frame(&mut pmm), Some(a));
    assert_eq!(frame_gen(&pmm, a), 1);
}

#[test]
fn pins_and_mappings_both_hold_a_frame_back() {
    let (specs, mut caps) = no_specs();
    let (mut pmm, _out) = fresh_pmm(&specs, &mut caps);
    let f = alloc_frame(&mut pmm).expect("alloc");
    assert_eq!(pin_frame(&mut pmm, f), 1);
    assert_eq!(add_mapping(&mut pmm, f), 1);
    release_frame(&mut pmm, f);
    assert_eq!(unpin_frame(&mut pmm, f), 0);
    assert_eq!(frame_info(&pmm, f).owner_tag(), OwnerTag::Pending);
    assert_eq!(remove_mapping(&mut pmm, f), 0);
    assert!(frame_info(&pmm, f).is_free());
    assert_eq!(frame_gen(&pmm, f), 1);
}

#[test]
fn init_reports_each_fault() {
    let (specs, mut caps) = one_spec();
    let text = |regions: &[MemoryRegion], image, specs: &[UntypedSpec], caps: &mut [UntypedCap], heap| {
        let mut pmm = blank_pmm();
        match init(&mut pmm, regions, image, specs, caps, heap) {
            Ok(_) => String::new(),
            Err(e) => e.to_string(),
        }
    };
    assert_eq!(text(&regions(), (0, 0), &specs, &mut [], 0), "untyped output buffer too small");
    assert_eq!(
        text(&[region(0x800, 0x1000, RegionKind::Usable)], (0, 0), &[], &mut caps, 0),
        "usable region not frame-aligned"
    );
    let many: Vec<MemoryRegion> = (0..130u64)
        .map(|i| region(i * 0x2000, 0x1000, RegionKind::Usable))
        .collect();
    assert_eq!(text(&many, (0, 0), &[], &mut caps, 0), "too many memory regions");
    assert_eq!(
        text(&[region(0, 0x1000, RegionKind::Reserved)], (0, 0), &[], &mut caps, 0),
        "no usable memory"
    );
    let high = [region(RAM_SIZE as u64 - 0x1000, 0x1000, RegionKind::Usable)];
    assert_eq!(text(&high, (0, 0), &[], &mut caps, 0), "cannot allocate frame table");
    assert_eq!(
        text(&regions(), (0, 0), &[], &mut caps, RAM_SIZE as u64),
        "cannot allocate kernel heap"
    );
    let twice = [
        region(0, RAM_SIZE as u64, RegionKind::Usable),
        region(0x400000, 0x1000, RegionKind::Usable),
    ];
    assert_eq!(text(&twice, (0, 0), &[], &mut caps, 0), "overlapping memory map entries");
    let odd = [UntypedSpec { base_phys: 0x100800, len: 0x1000 }];
    assert_eq!(text(&regions(), (0, 0), &odd, &mut caps, 0), "untyped spec not frame-aligned");
    let none = [UntypedSpec { base_phys: 0x100000, len: 0 }];
    assert_eq!(text(&regions(), (0, 0), &none, &mut caps, 0), "untyped spec has invalid range");
    let low = [UntypedSpec { base_phys: 0, len: 0x1000 }];
    assert_eq!(
        text(&regions(), (0, 0), &low, &mut caps, 0),
        "untyped spec overlaps a reserved range or another region"
    );

    let mut pmm = blank_pmm();
    assert!(init(&mut pmm, &regions(), (0, 0), &specs, &mut caps, 0).is_ok());
    match init(&mut pmm, &regions(), (0, 0), &specs, &mut caps, 0) {
        Ok(_) => panic!("second initialization must fail"),
        Err(e) => assert_eq!(e, "frame table already initialized"),
    }
}

#[test]
fn unaligned_image_keeps_its_frames_whole() {
    let (specs, mut caps) = no_specs();
    let mut pmm = blank_pmm();
    let out = init(&mut pmm, &regions(), (0x100800, 0x1000), &specs, &mut caps, 0)
        .expect("pmm_init failed");
    // Both frames that the image touches stay out of the pool.
    assert_eq!(out.free_frames, 4096 - 256 - 2);
    assert_eq!(frame_info(&pmm, 256).owner_tag(), OwnerTag::Reserved);
    assert_eq!(frame_info(&pmm, 257).owner_tag(), OwnerTag::Reserved);
    assert_eq!(frame_info(&pmm, 258).owner_tag(), OwnerTag::Free);
    assert_eq!(alloc_frame(&mut pmm), Some(258));
}

#[test]
fn boot_allocator_aligns_and_counts_frames() {
    let r = [region(0x800, 0x8800, RegionKind::Usable)];
    let mut ba = BootAllocator::new(&r);
    assert_eq!(ba.alloc_frames(2), Some(1));
    assert_eq!(ba.allocate(0x10, 0x10), Some(0x3000));
    assert_eq!(ba.alloc_frames(1), Some(4));
    assert_eq!(ba.alloc_frames(5), None);
    assert_eq!(r[0].end(), 0x9000);
}

#[test]
fn memory_between_table_and_heap_is_in_the_pool() {
    let mut pmm = blank_pmm();
    let (specs, mut caps) = no_specs();
    let map = [
        region(0, 0x2000, RegionKind::Usable),
        region(0x10_0000, 0x10_0000, RegionKind::Usable),
        region(0x30_0000, 0x10_0000, RegionKind::Usable),
    ];
    let out = init(&mut pmm, &map, (0, 0), &specs, &mut caps, 0x10_0000).unwrap();
    // The table is in the second region, and the heap takes all of the third.
    assert_eq!(out.total_frames, 1024);
    assert_eq!(out.heap_phys, 0x30_0000);
    assert_eq!(frame_info(&pmm, 256).owner_tag(), OwnerTag::Reserved);
    assert_eq!(frame_info(&pmm, 261).owner_tag(), OwnerTag::Reserved);
    assert_eq!(frame_info(&pmm, 262).owner_tag(), OwnerTag::Free);
    assert_eq!(frame_info(&pmm, 511).owner_tag(), OwnerTag::Free);
    assert_eq!(frame_info(&pmm, 512).owner_tag(), OwnerTag::Reserved);
    assert_eq!(frame_info(&pmm, 768).owner_tag(), OwnerTag::Reserved);
    assert_eq!(out.free_frames, 250);
    assert_eq!(debug_validate_free_lists(&pmm), 250);
}

#[test]
fn regions_out_of_order_keep_table_and_heap_out_of_the_pool() {
    let mut pmm = blank_pmm();
    let (specs, mut caps) = no_specs();
    let map = [
        region(0x30_0000, 0x8000, RegionKind::Usable),
        region(0x10_0000, 0x10_0000, RegionKind::Usable),
    ];
    let out = init(&mut pmm, &map, (0, 0), &specs, &mut caps, 0x4000).unwrap();
    // 776 frames: five for the table in the first region, the heap in the next.
    assert_eq!(out.total_frames, 776);
    assert_eq!(out.heap_phys, 0x10_0000);
    for f in [768u32, 772, 256, 259] {
        assert_eq!(frame_info(&pmm, f).owner_tag(), OwnerTag::Reserved);
    }
    for f in [773u32, 775, 260, 511] {
        assert_eq!(frame_info(&pmm, f).owner_tag(), OwnerTag::Free);
    }
    assert_eq!(out.free_frames, 3 + 252);
}

#[test]
fn refused_initializations_leave_caps_alone() {
    let (specs, mut caps) = one_spec();
    let (mut pmm, _) = fresh_pmm(&specs, &mut caps);
    let mut other = [UntypedCap::new(9, 8, 7)];
    let again = init(&mut pmm, &regions(), (0, 0), &specs, &mut other, HEAP_SIZE);
    assert!(matches!(again, Err("frame table already initialized")));
    assert_eq!(other[0].id(), 9);
    assert_eq!(other[0].base_frame(), 8);
    assert_eq!(other[0].num_frames(), 7);

    // No room for the heap: the frame table is there, with nothing free.
    let mut pmm = blank_pmm();
    let r = init(&mut pmm, &regions(), (0, 0), &specs, &mut other, 32 * 1024 * 1024);
    assert!(matches!(r, Err("cannot allocate kernel heap")));
    assert_eq!(other[0].id(), 9);
    assert_eq!(total_frames(&pmm), 4096);
    assert_eq!(free_frame_count(&pmm), 0);
    assert_eq!(alloc_frame(&mut pmm), None);

    // The caps before a faulty request have been written.
    let mut pmm = blank_pmm();
    let specs = [
        UntypedSpec { base_phys: 0x10_0000, len: 0x1000 },
        UntypedSpec { base_phys: 0x10_0000, len: 0x1000 },
    ];
    let mut two = [UntypedCap::new(9, 8, 7), UntypedCap::new(9, 8, 7)];
    let r = init(&mut pmm, &regions(), (0, 0), &specs, &mut two, HEAP_SIZE);
    assert!(matches!(r, Err("untyped spec overlaps a reserved range or another region")));
    assert_eq!(two[0].id(), 0);
    assert_eq!(two[0].base_frame(), 256);
    assert_eq!(two[0].num_frames(), 1);
    assert_eq!(two[1].id(), 9);
}

#[test]
fn owned_frames_share_no_memory() {
    let (specs, mut caps) = no_specs();
    let (mut pmm, _) = fresh_pmm(&specs, &mut caps);
    let mut owned: Vec<OwnedFrame> = Vec::new();
    for _ in 0..5 {
        owned.push(OwnedFrame::allocate(&mut pmm).unwrap());
    }
    let gone = owned.remove(2);
    gone.release(&mut pmm);
    owned.push(OwnedFrame::allocate(&mut pmm).unwrap());
    for (i, x) in owned.iter().enumerate() {
        assert_eq!(x.phys(), x.frame() as u64 * FRAME_SIZE);
        assert_eq!(x.as_ptr(&pmm), PHYSMAP + x.phys());
        for y in owned.iter().skip(i + 1) {
            let (a, b) = (x.as_ptr(&pmm), y.as_ptr(&pmm));
            assert!(a + FRAME_SIZE <= b || b + FRAME_SIZE <= a);
        }
    }
}

#[test]
fn boot_allocations_ascend() {
    let r = [
        region(0x1000, 0x3000, RegionKind::Usable),
        region(0x4000, 0x1000, RegionKind::Reserved),
        region(0x10000, 0x8000, RegionKind::Usable),
    ];
    let mut ba = BootAllocator::new(&r);
    let mut end = 0;
    for size in [0x1000u64, 0x800, 0x2000, 0x900_0000, 0x100] {
        if let Some(a) = ba.allocate(size, 0x1000) {
            assert!(a >= end);
            end = a + size;
        }
    }
    assert_eq!(end, 0x12000);
}

#[test]
fn faults_leave_what_was_marked_before_them() {
    let (specs, mut caps) = no_specs();
    // The third region meets the second at frame 0x400; the fourth is not
    // reached.
    let twice = [
        region(0x10_0000, 0x20_0000, RegionKind::Usable),
        region(0x40_0000, 0x10_0000, RegionKind::Usable),
        region(0x3f_0000, 0x2_0000, RegionKind::Usable),
        region(0x80_0000, 0x10_0000, RegionKind::Usable),
    ];
    let mut pmm = blank_pmm();
    match init(&mut pmm, &twice, (0, 0), &specs, &mut caps, 0) {
        Ok(_) => panic!("overlap"),
        Err(e) => assert_eq!(e, "overlapping memory map entries"),
    }
    assert_eq!(frame_info(&pmm, 0x450).owner_tag(), OwnerTag::Free);
    assert_eq!(frame_info(&pmm, 0x3f0).owner_tag(), OwnerTag::Free);
    assert_eq!(frame_info(&pmm, 0x3ff).owner_tag(), OwnerTag::Free);
    assert_eq!(frame_info(&pmm, 0x3ef).owner_tag(), OwnerTag::Reserved);
    assert_eq!(frame_info(&pmm, 0x850).owner_tag(), OwnerTag::Reserved);
    // There is a frame table now, so no other call is accepted.
    match init(&mut pmm, &regions(), (0, 0), &specs, &mut caps, 0) {
        Ok(_) => panic!("second initialization"),
        Err(e) => assert_eq!(e, "frame table already initialized"),
    }

    // The second request runs into the first at frame 0x310.
    let specs = [
        UntypedSpec { base_phys: 0x31_0000, len: 0x2000 },
        UntypedSpec { base_phys: 0x30_e000, len: 0x4000 },
    ];
    let mut caps = [UntypedCap::new(9, 9, 9), UntypedCap::new(9, 9, 9)];
    let mut pmm = blank_pmm();
    assert!(init(&mut pmm, &regions(), (0, 0), &specs, &mut caps, 0).is_err());
    assert_eq!(frame_info(&pmm, 0x30e).owner_tag(), OwnerTag::Untyped);
    assert_eq!(frame_info(&pmm, 0x30f).owner().id(), 1);
    assert_eq!(frame_info(&pmm, 0x310).owner().id(), 0);
    assert_eq!(frame_info(&pmm, 0x312).owner_tag(), OwnerTag::Free);
}

#[test]
fn boot_allocation_of_no_frames() {
    let r = [region(0x10000, 0x3000, RegionKind::Usable)];
    let mut ba = BootAllocator::new(&r);
    assert_eq!(ba.alloc_frames(0), Some(0x10));
    assert_eq!(ba.alloc_frames(1), Some(0x10));
    assert_eq!(ba.alloc_frames(0), Some(0x11));
}

#[test]
fn frame_table_lies_in_memory() {
    let (specs, mut caps) = one_spec();
    // The table is at the start of usable memory, three words per frame.
    let (mut pmm, _out) = fresh_pmm(&specs, &mut caps);
    let entry = |pmm: &Pmm, f: u32| -> [u64; 3] {
        let at = f as usize * 3;
        [0, 1, 2].map(|j| pmm.read_word(((at + j) / 512) as u32, (at + j) % 512))
    };
    assert_eq!(entry(&pmm, 0), [0, 0, 0]);
    assert_eq!(entry(&pmm, 0x100), [4, 0, 0]);
    let f = alloc_frame(&mut pmm).unwrap();
    assert_eq!(entry(&pmm, f), [2, 0, 0]);
    assert_eq!(pin_frame(&mut pmm, f), 1);
    assert_eq!(add_mapping(&mut pmm, f), 1);
    assert_eq!(add_mapping(&mut pmm, f), 2);
    assert_eq!(entry(&pmm, f), [2, 2 + (1 << 32), 0]);
    release_frame(&mut pmm, f);
    assert_eq!(entry(&pmm, f), [3, 2 + (1 << 32), 0]);
    remove_mapping(&mut pmm, f);
    remove_mapping(&mut pmm, f);
    unpin_frame(&mut pmm, f);
    assert_eq!(entry(&pmm, f), [1, 0, 1]);
    // An untyped region's frame, granted to domain 7.
    let g = retype_frame(&mut pmm, &mut caps[0], 7).unwrap();
    assert_eq!(entry(&pmm, g), [5 + (7 << 32), 0, 0]);
    // The table holds no frame of the pool.
    while let Some(f) = alloc_frame(&mut pmm) {
        pmm.zero_frame(f);
    }
    assert_eq!(frame_info(&pmm, g).owner_tag(), OwnerTag::Domain);
    assert_eq!(frame_info(&pmm, f).owner_tag(), OwnerTag::Kernel);
}
