use rolnix_kernel::allocator::{alloc_frame, free_frame_count, release_frame};
use rolnix_kernel::boot::{highest_end, MemoryRegion, RegionKind, UntypedSpec};
use rolnix_kernel::bytes::{compare, memcpy, memset};
use rolnix_kernel::frame::{frame_gen, frame_info, OwnerTag};
use rolnix_kernel::heap::{first_free, heap_allocated, heap_total};
use rolnix_kernel::kernel::{
    booted_report, bring_up, choose_untyped, error_report, fault_output, install_heap, map_report,
    read_memory_map, untyped_report, BootError,
    RawSink, KERNEL_HEAP_SIZE, PHYS_MAP_BASE,
};
use rolnix_kernel::math::{align_up, ceil_div, checked_align_up, round_down};
use rolnix_kernel::memmap::{fill_regions, pick_untyped_spec};
use rolnix_kernel::memory::Memory;
use rolnix_kernel::multiboot::{parse, Image, MemEntry};
use rolnix_kernel::pmm::Pmm;
use rolnix_kernel::selftest::{self_test, SelfTestError, TEST_VA, TEST_VA2};
use rolnix_kernel::vmm::PageTable;

const INFO: u64 = 0x9000;
const MMAP: u64 = 0x9100;
const MAGIC: u64 = 0x2BAD_B002;

fn put32(bytes: &mut [u8], at: u64, v: u32) {
    let i = (at - INFO) as usize;
    bytes[i..i + 4].copy_from_slice(&v.to_le_bytes());
}

fn put64(bytes: &mut [u8], at: u64, v: u64) {
    let i = (at - INFO) as usize;
    bytes[i..i + 8].copy_from_slice(&v.to_le_bytes());
}

/// An info block with a memory map of `entries`.
fn info_block(entries: &[(u64, u64, u32)]) -> Vec<u8> {
    let mut bytes = vec![0u8; 0x1000];
    put32(&mut bytes, INFO, 1 << 6);
    put32(&mut bytes, INFO + 44, entries.len() as u32 * 24);
    put32(&mut bytes, INFO + 48, MMAP as u32);
    for (i, (start, len, kind)) in entries.iter().enumerate() {
        let at = MMAP + i as u64 * 24;
        put32(&mut bytes, at, 20);
        put64(&mut bytes, at + 4, *start);
        put64(&mut bytes, at + 12, *len);
        put32(&mut bytes, at + 20, *kind);
    }
    bytes
}

fn usable(start: u64, len: u64) -> MemoryRegion {
    MemoryRegion { start, len, kind: RegionKind::Usable }
}

fn text(bytes: Vec<u8>) -> String {
    String::from_utf8(bytes).unwrap()
}

#[test]
fn memory_map_is_parsed() {
    let bytes = info_block(&[(0, 0x9FC00, 1), (0x100000, 0x700000, 1), (0xF0000, 0x10000, 2)]);
    let image = Image { base: INFO, bytes: &bytes };
    let mut out = [MemEntry { start: 0, len: 0, kind: 0 }; 8];
    assert_eq!(parse(&image, INFO, &mut out), Some(3));
    assert_eq!(out[1], MemEntry { start: 0x100000, len: 0x700000, kind: 1 });
    assert_eq!(out[2], MemEntry { start: 0xF0000, len: 0x10000, kind: 2 });
    // No more than there is room for.
    assert_eq!(parse(&image, INFO, &mut out[..2]), Some(2));
}

#[test]
fn malformed_map_is_refused() {
    let mut bytes = info_block(&[(0, 0x1000, 1), (0x2000, 0x1000, 1), (0x4000, 0x1000, 1)]);
    put32(&mut bytes, MMAP + 24, 16);
    let image = Image { base: INFO, bytes: &bytes };
    let mut out = [MemEntry { start: 0, len: 0, kind: 0 }; 8];
    assert_eq!(parse(&image, INFO, &mut out), None);
    // The record before the malformed one has been written.
    assert_eq!(out[0], MemEntry { start: 0, len: 0x1000, kind: 1 });
    assert_eq!(out[1], MemEntry { start: 0, len: 0, kind: 0 });
    assert!(fill_regions(&image, INFO).is_none());
    assert!(matches!(read_memory_map(&image, MAGIC, INFO), Err(BootError::NoMemoryMap)));
    // A malformed record that there is no room for is not reached.
    assert_eq!(parse(&image, INFO, &mut out[..1]), Some(1));
    // Upper memory does not stand in for a malformed map.
    put32(&mut bytes, MMAP, 16);
    put32(&mut bytes, INFO, (1 << 6) | 1);
    put32(&mut bytes, INFO + 8, 7 * 1024);
    let image = Image { base: INFO, bytes: &bytes };
    assert_eq!(parse(&image, INFO, &mut out), None);
}

#[test]
fn empty_output_without_upper_memory() {
    let bytes = info_block(&[(0, 0x1000, 1)]);
    let image = Image { base: INFO, bytes: &bytes };
    let mut out: [MemEntry; 0] = [];
    assert_eq!(parse(&image, INFO, &mut out), None);
}

#[test]
fn upper_memory_stands_in_for_a_map() {
    let mut bytes = vec![0u8; 64];
    put32(&mut bytes, INFO, 1);
    put32(&mut bytes, INFO + 8, 7 * 1024);
    let image = Image { base: INFO, bytes: &bytes };
    let mut out = [MemEntry { start: 0, len: 0, kind: 0 }; 8];
    assert_eq!(parse(&image, INFO, &mut out), Some(1));
    assert_eq!(out[0], MemEntry { start: 0x100000, len: 7 * 1024 * 1024, kind: 1 });
    put32(&mut bytes, INFO, 0);
    let image = Image { base: INFO, bytes: &bytes };
    assert_eq!(parse(&image, INFO, &mut out), None);
    assert!(fill_regions(&image, INFO).is_none());
}

#[test]
fn regions_are_aligned_and_sorted() {
    let bytes = info_block(&[
        (0x10_0000, 0x2800, 1),
        (0x800, 0x2000, 1),
        (0x5000, 0x123, 2),
        (0x6100, 0x900, 1),
    ]);
    let image = Image { base: INFO, bytes: &bytes };
    let regions = fill_regions(&image, INFO).unwrap();
    assert_eq!(
        regions,
        vec![
            usable(0x1000, 0x1000),
            MemoryRegion { start: 0x5000, len: 0x123, kind: RegionKind::Reserved },
            usable(0x10_0000, 0x2000),
        ]
    );
}

#[test]
fn untyped_region_is_the_top_of_memory() {
    assert_eq!(highest_end(&[]), 0);
    assert_eq!(highest_end(&[usable(0x10_0000, 0x8000), usable(0, 0x9000)]), 0x10_8000);
    assert_eq!(pick_untyped_spec(&[]), None);
    assert_eq!(
        pick_untyped_spec(&[usable(0, 0x9000), usable(0x10_0000, 0x1000_0000)]),
        Some(UntypedSpec { base_phys: 0xC10_0000, len: 0x400_0000 })
    );
    assert_eq!(
        pick_untyped_spec(&[usable(0x10_0000, 0x8000)]),
        Some(UntypedSpec { base_phys: 0x10_0000, len: 0x8000 })
    );
}

#[test]
fn memory_map_errors() {
    let bytes = info_block(&[(0, 0x1000, 2)]);
    let image = Image { base: INFO, bytes: &bytes };
    match read_memory_map(&image, 0x1234, INFO) {
        Err(e) => {
            assert!(matches!(e, BootError::BadMagic(0x1234)));
            assert_eq!(text(error_report(&e)), "PANIC: bad multiboot magic 0x1234\n");
        }
        Ok(_) => panic!("bad magic"),
    }
    // The map is read, and can be shown, although nothing in it is usable.
    let regions = match read_memory_map(&image, MAGIC, INFO) {
        Ok(regions) => regions,
        Err(_) => panic!("a map is there"),
    };
    assert_eq!(
        text(map_report(&regions, (0x10_0000, 0x1000))),
        "rolnix boot harness: 1 regions, kernel image 0x100000..0x101000\n  \
         region 0x0 len 0x1000 Reserved\n"
    );
    match choose_untyped(&regions) {
        Err(e) => assert_eq!(
            text(error_report(&e)),
            "PANIC: no usable region for the untyped cap\n"
        ),
        Ok(_) => panic!("nothing usable"),
    }
    let bytes = info_block(&[]);
    let image = Image { base: INFO, bytes: &bytes };
    match read_memory_map(&image, MAGIC, INFO) {
        Err(e) => assert_eq!(
            text(error_report(&e)),
            "PANIC: bootloader provided no usable memory map\n"
        ),
        Ok(_) => panic!("no map"),
    }
}

const RAM: usize = 64 * 1024 * 1024;

fn machine() -> Pmm {
    Pmm::new(Memory::zeroed(RAM / 8))
}

#[test]
fn kernel_comes_up_and_passes_its_self_test() {
    let bytes = info_block(&[(0, 0x9FC00, 1), (0x100000, RAM as u64 - 0x100000, 1)]);
    let image = Image { base: INFO, bytes: &bytes };
    let regions = match read_memory_map(&image, MAGIC, INFO) {
        Ok(r) => r,
        Err(_) => panic!("memory map"),
    };
    let spec = UntypedSpec { base_phys: 0x200_0000, len: 0x10_0000 };
    let ki = (0x10_0000u64, 0x8_0000u64);
    assert_eq!(
        text(map_report(&regions, ki)),
        "rolnix boot harness: 2 regions, kernel image 0x100000..0x180000\n  \
         region 0x0 len 0x9f000 Usable\n  region 0x100000 len 0x3f00000 Usable\n"
    );
    assert_eq!(text(untyped_report(&spec)), "untyped spec: 0x2000000 len 0x100000\n");
    assert!(choose_untyped(&regions).is_ok());
    let mut pmm = machine();
    let mut b = match bring_up(&mut pmm, &regions, spec, ki) {
        Ok(b) => b,
        Err(e) => panic!("{}", text(error_report(&e))),
    };
    let heap = install_heap(&b.out, Memory::zeroed(KERNEL_HEAP_SIZE as usize / 8));
    assert_eq!(heap_total(&heap), KERNEL_HEAP_SIZE);
    assert_eq!(first_free(&heap), Some((PHYS_MAP_BASE + 0x18_0000, KERNEL_HEAP_SIZE, 0)));
    assert_eq!(heap_allocated(&heap), 0);
    assert_eq!(b.out.total_frames, 0x4000);
    // The frame table takes the low region, the heap the one behind the image.
    assert_eq!(b.out.frame_table_frames, 96);
    assert_eq!(b.out.heap_phys, 0x18_0000);
    assert_eq!(b.cap.num_frames(), 256);
    let report = text(booted_report(&b, &pmm));
    assert!(report.starts_with("pmm_init OK: total_frames=16384 free_frames="));
    assert!(report.contains(" untyped=1 heap=0x180000+0x800000 ram_end=0x4000000\n"));
    assert!(report.ends_with(" translate(0x1000)=Some(4096) translate(physmap)=Some(0)\n"));
    assert_eq!(b.pt.translate(&pmm, PHYS_MAP_BASE + 0x1234), Some(0x1234));
    assert_eq!(b.pt.translate(&pmm, TEST_VA), None);

    // The two frames that are first in the pool.
    let x = alloc_frame(&mut pmm).unwrap();
    let y = alloc_frame(&mut pmm).unwrap();
    release_frame(&mut pmm, y);
    release_frame(&mut pmm, x);
    let (gen_x, gen_y) = (frame_gen(&pmm, x), frame_gen(&pmm, y));
    let first_gen = frame_gen(&pmm, 0x2000);

    let before = free_frame_count(&pmm);
    assert_eq!(self_test(&mut pmm, &mut b.pt, &mut b.cap), Ok(256));
    // One was released twice by the pool check, once by the deferral and the
    // mapping check, and once for each test page; the other was released by
    // the pool check and then taken for a table.
    assert_eq!(frame_gen(&pmm, x), gen_x + 6);
    assert_eq!(frame_gen(&pmm, y), gen_y + 1);
    assert_eq!(frame_info(&pmm, y).owner_tag(), OwnerTag::Kernel);
    assert_eq!(frame_gen(&pmm, 0x2000), first_gen + 2);
    assert_eq!(alloc_frame(&mut pmm), Some(x));
    release_frame(&mut pmm, x);
    // The test pages needed four tables.
    assert_eq!(free_frame_count(&pmm), before - 4);
    assert_eq!(b.pt.translate(&pmm, TEST_VA), None);
    assert_eq!(b.pt.translate(&pmm, TEST_VA2), None);
    // The first granted frame is the kernel's, the others the test domain's.
    assert_eq!(frame_info(&pmm, 0x2000).owner_tag(), OwnerTag::Kernel);
    assert_eq!(frame_info(&pmm, 0x2001).owner_tag(), OwnerTag::Domain);
    assert_eq!(frame_info(&pmm, 0x2001).owner().id(), 7);
    // Nothing is left to grant.
    assert_eq!(self_test(&mut pmm, &mut b.pt, &mut b.cap), Err(SelfTestError::NoUntyped));
}

#[test]
fn self_test_reports_what_it_lacks() {
    let spec = UntypedSpec { base_phys: 0x200_0000, len: 0x10_0000 };
    let regions = [usable(0, RAM as u64)];
    let mut pmm = machine();
    let mut b = match bring_up(&mut pmm, &regions, spec, (0, 0)) {
        Ok(b) => b,
        Err(_) => panic!("bring up"),
    };
    // A table without the windows.
    let mut empty = PageTable::new(&mut pmm).unwrap();
    let (mut half, mut rest) = b.cap.split(0x1000).unwrap();
    assert_eq!(
        self_test(&mut pmm, &mut empty, &mut half),
        Err(SelfTestError::IdentityWindow)
    );
    while free_frame_count(&pmm) > 4 {
        let _ = alloc_frame(&mut pmm);
    }
    // Enough for the memory test, but not for the tables.
    let (mut second, mut third) = rest.split(0x1000).unwrap();
    assert_eq!(
        self_test(&mut pmm, &mut b.pt, &mut second),
        Err(SelfTestError::OutOfFrames)
    );
    while free_frame_count(&pmm) > 1 {
        let _ = alloc_frame(&mut pmm);
    }
    assert_eq!(
        self_test(&mut pmm, &mut b.pt, &mut third),
        Err(SelfTestError::OutOfFrames)
    );
    rest = third;
    assert_eq!(rest.num_frames(), 254);
}

#[test]
fn bring_up_reports_what_is_wrong() {
    let mut pmm = machine();
    let spec = UntypedSpec { base_phys: 0x800, len: 0x1000 };
    match bring_up(&mut pmm, &[usable(0, RAM as u64)], spec, (0, 0)) {
        Err(e) => assert_eq!(
            text(error_report(&e)),
            "pmm_init FAILED: untyped spec not frame-aligned\n"
        ),
        Ok(_) => panic!("spec"),
    }
    let mut pmm = machine();
    let spec = UntypedSpec { base_phys: 0x80_0000, len: 0x2000 };
    match bring_up(&mut pmm, &[usable(0x10_0000, 0x80_0000)], spec, (0, 0)) {
        Err(e) => assert_eq!(
            text(error_report(&e)),
            "pmm_init FAILED: cannot allocate kernel heap\n"
        ),
        Ok(_) => panic!("heap"),
    }
    // Frame table at 0x100000, heap up to 0x90e000; the root and the tables of
    // the two windows take five frames.
    let mut pmm = machine();
    let spec = UntypedSpec { base_phys: 0x91_2000, len: 0x1000 };
    match bring_up(&mut pmm, &[usable(0x10_0000, 0x81_3000)], spec, (0, 0)) {
        Err(e) => assert_eq!(
            text(error_report(&e)),
            "PANIC: cannot allocate kernel page tables\n"
        ),
        Ok(_) => panic!("tables"),
    }
    let mut pmm = machine();
    let spec = UntypedSpec { base_phys: 0x91_3000, len: 0x1000 };
    assert!(bring_up(&mut pmm, &[usable(0x10_0000, 0x81_4000)], spec, (0, 0)).is_ok());
    assert_eq!(free_frame_count(&pmm), 0);
}

#[test]
fn panic_reports_are_bounded() {
    let mut sink = RawSink::new();
    sink.write(b"PANIC: ");
    sink.write(&[b'x'; 1000]);
    sink.write(&[b'y'; 100]);
    let out = sink.as_slice();
    assert_eq!(out.len(), 1024);
    assert_eq!(&out[..8], b"PANIC: x");
    assert_eq!(out[1006], b'x');
    assert_eq!(out[1007], b'y');
    assert_eq!(out[1023], b'y');
}

#[test]
fn fault_reports_must_be_text() {
    assert_eq!(fault_output(b"EXCEPTION"), b"EXCEPTION".to_vec());
    assert_eq!(fault_output(&[0xFF]), b"<non-utf8>\r\n".to_vec());
}

#[test]
fn byte_helpers() {
    let mut dst = *b"xxxxxx";
    memcpy(&mut dst, b"abcdef", 3);
    assert_eq!(&dst, b"abcxxx");
    memset(&mut dst, 0x141, 2);
    assert_eq!(&dst, b"AAcxxx");
    memset(&mut dst, -1, 1);
    assert_eq!(dst[0], 0xFF);
    assert_eq!(compare(b"abc", b"abd", 2), 0);
    assert_eq!(compare(b"abc", b"abd", 3), -1);
    assert_eq!(compare(&[200], &[10], 1), 190);
}

#[test]
fn rounding() {
    assert_eq!(align_up(0x1001, 0x1000), 0x2000);
    assert_eq!(align_up(0x1000, 0x1000), 0x1000);
    assert_eq!(checked_align_up(u64::MAX, 0x1000), None);
    assert_eq!(checked_align_up(1, 16), Some(16));
    assert_eq!(round_down(0x1FFF, 0x1000), 0x1000);
    assert_eq!(ceil_div(4097, 4096), 2);
}

#[test]
fn memory_words() {
    let mut m = Memory::new(vec![1, 2, 3, 4]);
    assert_eq!(m.len(), 4);
    m.write(2, 9);
    assert_eq!(m.read(2), 9);
    m.zero(1, 2);
    assert_eq!((m.read(0), m.read(1), m.read(2), m.read(3)), (1, 0, 0, 4));
}
