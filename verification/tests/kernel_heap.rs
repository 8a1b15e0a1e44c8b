use rolnix_kernel::heap::{
    first_free, heap_alloc, heap_allocated, heap_free, heap_init, heap_total, read_payload,
    write_payload, Heap,
};
use rolnix_kernel::memory::Memory;

const BASE: u64 = 0x4_0000;

fn fresh_heap(size: usize) -> Heap {
    let mut heap = Heap::new(Memory::zeroed(size / 8));
    heap_init(&mut heap, BASE, size as u64);
    heap
}

#[test]
fn alloc_free_round_trip() {
    let mut heap = fresh_heap(16 * 1024);
    let a = heap_alloc(&mut heap, 32, 8);
    assert!(a != 0);
    for i in 0..4 {
        write_payload(&mut heap, a + i * 8, 0xAAAA_AAAA_AAAA_AAAA);
    }
    let b = heap_alloc(&mut heap, 64, 8);
    assert!(b != 0);
    assert_ne!(a, b);
    assert_eq!(read_payload(&heap, a + 24), 0xAAAA_AAAA_AAAA_AAAA);
    heap_free(&mut heap, a);
    heap_free(&mut heap, b);
    // After both frees, the whole heap must be one coalesced free block.
    let (head, size, next) = first_free(&heap).expect("free block");
    assert_ne!(head, 0);
    assert_eq!(size, 16 * 1024);
    assert_eq!(next, 0);
    assert_eq!(heap_allocated(&heap), 0);
}

#[test]
fn large_alignment() {
    let mut heap = fresh_heap(64 * 1024);
    let a = heap_alloc(&mut heap, 100, 4096);
    assert!(a != 0);
    assert_eq!(a % 4096, 0);
    heap_free(&mut heap, a);
}

#[test]
fn reuses_freed_space() {
    let mut heap = fresh_heap(16 * 1024);
    let a = heap_alloc(&mut heap, 128, 8);
    heap_free(&mut heap, a);
    let b = heap_alloc(&mut heap, 128, 8);
    assert_eq!(a, b);
    heap_free(&mut heap, b);
}

#[test]
fn block_sizes_and_addresses() {
    let mut heap = fresh_heap(1024);
    assert_eq!(heap_total(&heap), 1024);
    // 16 bytes of header before the payload, sizes rounded up to 16.
    let a = heap_alloc(&mut heap, 20, 1);
    assert_eq!(a, BASE + 16);
    assert_eq!(heap_allocated(&heap), 48);
    let b = heap_alloc(&mut heap, 1, 1);
    assert_eq!(b, BASE + 48 + 16);
    assert_eq!(heap_allocated(&heap), 48 + 32);
    assert_eq!(first_free(&heap), Some((BASE + 80, 1024 - 80, 0)));
    heap_free(&mut heap, a);
    assert_eq!(first_free(&heap), Some((BASE, 48, BASE + 80)));
    heap_free(&mut heap, b);
    assert_eq!(first_free(&heap), Some((BASE, 1024, 0)));
}

#[test]
fn exhausted_heap_returns_null() {
    let mut heap = fresh_heap(256);
    assert_eq!(heap_alloc(&mut heap, 1024, 8), 0);
    let a = heap_alloc(&mut heap, 240, 8);
    assert!(a != 0);
    assert_eq!(first_free(&heap), None);
    assert_eq!(heap_alloc(&mut heap, 1, 1), 0);
    heap_free(&mut heap, a);
    assert_eq!(heap_alloc(&mut heap, 240, 8), a);
}

#[test]
fn null_before_init() {
    let mut heap = Heap::new(Memory::zeroed(16));
    assert_eq!(heap_alloc(&mut heap, 8, 8), 0);
    assert_eq!(heap_allocated(&heap), 0);
}

#[test]
fn payloads_do_not_disturb_each_other() {
    let mut heap = fresh_heap(4096);
    let a = heap_alloc(&mut heap, 64, 8);
    let b = heap_alloc(&mut heap, 64, 8);
    let c = heap_alloc(&mut heap, 64, 8);
    for i in 0..8 {
        write_payload(&mut heap, a + i * 8, i);
        write_payload(&mut heap, b + i * 8, 100 + i);
        write_payload(&mut heap, c + i * 8, 200 + i);
    }
    heap_free(&mut heap, b);
    for i in 0..8 {
        assert_eq!(read_payload(&heap, a + i * 8), i);
        assert_eq!(read_payload(&heap, c + i * 8), 200 + i);
    }
    // First fit: the hole is used again.
    assert_eq!(heap_alloc(&mut heap, 48, 8), b);
}
