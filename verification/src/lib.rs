//! Physical memory, virtual memory and process management of a small x86-64
//! kernel.
//!
//! Allocation state lives in exactly one place: the per-frame [`frame::FrameInfo`]
//! array that [`pmm::Pmm`] keeps in memory. The free lists are a derived view over that
//! array. The only functions that change a frame's owner are
//! [`allocator::alloc_frame`], [`allocator::release_frame`],
//! [`untyped::retype_frame`] and the boot-time region setup in
//! [`boot::pmm_init`].
//!
//! A frame may only be released when it has no pins and no mappings;
//! otherwise it becomes `Pending` and returns to a free list once the last
//! pin or mapping is gone.
//!
//! Nothing here touches hardware. Memory is a [`memory::Memory`] that the
//! caller hands in, device setup is returned as a list of port writes, and
//! what alternates with the hardware (the keyboard's initialization, the
//! shell's input loop, system calls, the timer tick) is a step from a state and
//! an event to the next state and an action.
//!
//! From the bottom up:
//! - memory: [`arch`], [`memory`], [`math`], [`bytes`], [`frame`], [`ram`],
//!   [`allocator`], [`pmm`], [`owned`], [`untyped`], [`boot`], [`heap`];
//! - address spaces: [`page_tree`], [`vmm`];
//! - processes: [`sched`], [`process`], [`user`], [`spinlock`];
//! - devices: [`io`], [`pic`], [`pit`], [`serial`], [`keyboard`], [`tss`],
//!   [`idt`];
//! - booting: [`multiboot`], [`memmap`], [`kernel`], [`selftest`];
//! - the console: [`text`], [`shell`].

pub mod allocator;
pub mod arch;
pub mod boot;
pub mod bytes;
pub mod frame;
pub mod heap;
pub mod idt;
pub mod io;
pub mod kernel;
pub mod keyboard;
pub mod math;
pub mod memmap;
pub mod memory;
pub mod multiboot;
pub mod owned;
pub mod page_tree;
pub mod pic;
pub mod pit;
pub mod pmm;
pub mod process;
pub mod ram;
pub mod sched;
pub mod selftest;
pub mod serial;
pub mod shell;
pub mod spinlock;
pub mod text;
pub mod tss;
pub mod untyped;
pub mod user;
pub mod vmm;

pub use allocator::{alloc_frame, free_frame_count, release_frame};
pub use arch::{phys_to_virt, physmap_base, virt_to_phys};
pub use boot::{
    pmm_init, BootAllocator, BootInfo, MemoryRegion, PmInitOut, RegionKind, UntypedSpec,
};
pub use frame::{
    add_mapping, frame_gen, frame_info, pin_frame, remove_mapping, unpin_frame, DomainId,
    FrameIndex, FrameInfo, FrameOwner, OwnerTag, UntypedId,
};
pub use heap::{heap_allocated, heap_init, heap_total, KernelHeap};
pub use idt::{init, set_fault_sink, set_irq_handler, InterruptFrame};
pub use owned::OwnedFrame;
pub use sched::{
    current_pid, free_slot, init_idle, kill, snapshot, start_process, user_code_va,
    user_stack_top, ProcDesc, MAX_PROCESSES,
};
pub use spinlock::SpinLock;
pub use untyped::{retype_frame, RetypeError, UntypedCap};
pub use vmm::{Flags, MapError, PageTable};
