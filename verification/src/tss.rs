//! x86-64 TSS + GDT: a descriptor table with a TSS providing a kernel stack
//! (`rsp0`) and a dedicated double-fault stack (`ist[0]`).
//!
//! Selectors 0x08/0x10/0x18 are 32-bit code, data and 64-bit code; the
//! 16-byte TSS descriptor is at selector 0x20 and ring-3 user code/data
//! segments at 0x30/0x38. The IDT's #DF gate references [`DF_GATE_IST`], so a
//! double fault switches to the IST stack instead of pushing onto whatever
//! stack the faulting frame was using.

use vstd::prelude::*;

verus! {

/// Selector of the code64 segment; matches the IDT gate selector.
pub const GDT_CODE64_SELECTOR: u16 = 0x18;

/// Selector of the TSS descriptor (index 4 -> 0x20).
pub const TSS_SELECTOR: u16 = 0x20;

/// Ring-3 code64 segment (index 6, RPL 3 -> 0x33), used for user programs.
pub const USER_CODE64_SELECTOR: u16 = 0x33;

/// Ring-3 data segment (index 7, RPL 3 -> 0x3B), used as the user stack/data
/// segment. The RPL is baked in because `iretq` demands RPL == new CPL.
pub const USER_DATA_SELECTOR: u16 = 0x3B;

/// IST index (1-based) the #DF gate uses; refers to `TSS.ist[0]`.
pub const DF_GATE_IST: u8 = 1;

/// Exception vector of #DF, which the IDT gives an IST-bearing gate.
pub const DF_VECTOR: usize = 8;

/// Size of a stack that the TSS provides.
pub const STACK_SIZE: u64 = 16384;

/// The AMD64 TSS: 104 bytes without padding.
#[derive(Clone, Copy)]
pub struct TaskStateSegment {
    pub rsp0: u64,
    pub rsp1: u64,
    pub rsp2: u64,
    pub ist: [u64; 7],
    pub iomap_base: u16,
}

impl TaskStateSegment {
    /// A TSS with every field zero.
    pub fn new() -> (r: TaskStateSegment)
        ensures
            r.rsp0 == 0,
            r.rsp1 == 0,
            r.rsp2 == 0,
            r.ist@ == Seq::new(7, |i: int| 0u64),
            r.iomap_base == 0,
    {
        let r = TaskStateSegment { rsp0: 0, rsp1: 0, rsp2: 0, ist: [0; 7], iomap_base: 0 };
        assert(r.ist@ =~= Seq::new(7, |i: int| 0u64));
        r
    }
}

/// Point `TSS.rsp0` (the stack ring-3 to ring-0 transitions use) at `top`.
/// Called on every process switch; the boot value from [`init`] covers the
/// time before.
pub fn set_rsp0(tss: &mut TaskStateSegment, top: u64)
    ensures
        *final(tss) == (TaskStateSegment { rsp0: top, ..*old(tss) }),
{
    tss.rsp0 = top;
}

/// Base address in a segment descriptor.
pub open spec fn descriptor_base(d: u64) -> u64 {
    ((d >> 16) & 0xFF_FFFF) | (((d >> 56) & 0xFF) << 24)
}

/// Low 16 bits of the limit in a segment descriptor.
pub open spec fn descriptor_limit_low(d: u64) -> u64 {
    d & 0xFFFF
}

/// Type/access byte of a segment descriptor.
pub open spec fn descriptor_access(d: u64) -> u64 {
    (d >> 40) & 0xFF
}

/// High 4 bits of the limit and the G/D/B/L/AVL nibble of a descriptor.
pub open spec fn descriptor_flags(d: u64) -> u64 {
    (d >> 48) & 0xFF
}

/// `d` is the descriptor with the given fields. They fill all of its bits.
pub open spec fn is_descriptor(d: u64, base: u32, limit: u32, access: u8, flags: u8) -> bool {
    &&& descriptor_base(d) == base
    &&& descriptor_limit_low(d) == limit & 0xFFFF
    &&& descriptor_access(d) == access
    &&& descriptor_flags(d) == ((limit >> 16) & 0xF) | flags as u32
}

proof fn lemma_descriptor(base: u64, limit: u64, access: u64, flags: u64, high: u64)
    by (bit_vector)
    requires
        base <= 0xFFFF_FFFF,
        limit <= 0xFFFF_FFFF,
        access <= 0xFF,
        flags <= 0xFF,
        high == ((limit >> 16) & 0xF) | flags,
    ensures
        ({
            let d = (limit & 0xFFFF) | ((base & 0xFFFF) << 16) | ((base & 0x00FF_0000) << 16) | (
            access << 40) | (high << 48) | ((base & 0xFF00_0000) << 32);
            &&& ((d >> 16) & 0xFF_FFFF) | (((d >> 56) & 0xFF) << 24) == base
            &&& d & 0xFFFF == limit & 0xFFFF
            &&& (d >> 40) & 0xFF == access
            &&& (d >> 48) & 0xFF == high
        }),
{
}

proof fn lemma_descriptor_unique(d: u64, e: u64)
    by (bit_vector)
    requires
        ((d >> 16) & 0xFF_FFFF) | (((d >> 56) & 0xFF) << 24) == ((e >> 16) & 0xFF_FFFF) | (((e
            >> 56) & 0xFF) << 24),
        d & 0xFFFF == e & 0xFFFF,
        (d >> 40) & 0xFF == (e >> 40) & 0xFF,
        (d >> 48) & 0xFF == (e >> 48) & 0xFF,
    ensures
        d == e,
{
}

/// A descriptor is determined by its fields.
pub proof fn law_descriptor_is_determined(
    d: u64,
    e: u64,
    base: u32,
    limit: u32,
    access: u8,
    flags: u8,
)
    requires
        is_descriptor(d, base, limit, access, flags),
        is_descriptor(e, base, limit, access, flags),
    ensures
        d == e,
{
    lemma_descriptor_unique(d, e);
}

/// Build a 64-bit code/data segment descriptor.
///
/// `access` is the type/access byte (P/DPL/S/type), `flags` the G/D/B/L/AVL
/// nibble.
pub fn code_data_descriptor(base: u32, limit: u32, access: u8, flags: u8) -> (r: u64)
    ensures
        is_descriptor(r, base, limit, access, flags),
{
    let high: u32 = ((limit >> 16) & 0xF) | flags as u32;
    proof {
        lemma_descriptor(
            base as u64,
            limit as u64,
            access as u64,
            flags as u64,
            high as u64,
        );
    }
    (limit as u64 & 0xFFFF)  // limit[15:0]
        | ((base as u64 & 0xFFFF) << 16)  // base[15:0]
        | ((base as u64 & 0x00FF_0000) << 16)  // base[23:16]
        | ((access as u64) << 40)  // type/access
        | ((high as u64) << 48)  // limit[19:16] | flags
        | ((base as u64 & 0xFF00_0000) << 32)  // base[31:24]
}

/// Build the 16-byte system descriptor for a TSS. The first 8 bytes share the
/// code/data descriptor layout; the upper 8 bytes hold base[63:32].
pub fn system_descriptor(base: u64, limit: u16, access: u8) -> (r: [u64; 2])
    ensures
        is_descriptor(
            r@[0],
            (base % 0x1_0000_0000) as u32,
            limit as u32,
            access,
            0,
        ),
        r@[1] == base / 0x1_0000_0000,
{
    let low = code_data_descriptor((base % 0x1_0000_0000) as u32, limit as u32, access, 0x0);
    [low, base / 0x1_0000_0000]
}

/// The GDT for a TSS at `tss_addr`: entry `i` of `gdt`.
pub open spec fn gdt_ok(gdt: Seq<u64>, tss_addr: u64) -> bool {
    &&& gdt.len() == 8
    &&& gdt[0] == 0
    &&& is_descriptor(gdt[1], 0, 0xFFFFF, 0x9A, 0xCF)
    &&& is_descriptor(gdt[2], 0, 0xFFFFF, 0x92, 0xCF)
    &&& is_descriptor(gdt[3], 0, 0xFFFFF, 0x9A, 0xAF)
    &&& is_descriptor(gdt[4], (tss_addr % 0x1_0000_0000) as u32, 103, 0x89, 0)
    &&& gdt[5] == tss_addr / 0x1_0000_0000
    &&& is_descriptor(gdt[6], 0, 0xFFFFF, 0xFA, 0xAF)
    &&& is_descriptor(gdt[7], 0, 0xFFFFF, 0xF2, 0xCF)
}

/// Fill in the TSS, which lies at `tss_addr`, and return the GDT for it. The
/// stacks start at `kernel_stack` and `df_stack`. Boot-only; loading GDT and
/// TSS into the processor is up to the caller.
pub fn init(tss: &mut TaskStateSegment, tss_addr: u64, kernel_stack: u64, df_stack: u64) -> (r: [u64; 8])
    requires
        kernel_stack + STACK_SIZE <= u64::MAX,
        df_stack + STACK_SIZE <= u64::MAX,
    ensures
        gdt_ok(r@, tss_addr),
        final(tss).rsp0 == kernel_stack + STACK_SIZE,
        final(tss).rsp0 - kernel_stack == 16384,
        final(tss).ist@[0] - df_stack == 16384,
        final(tss).rsp1 == old(tss).rsp1,
        final(tss).rsp2 == old(tss).rsp2,
        final(tss).ist@ == old(tss).ist@.update(0, (df_stack + STACK_SIZE) as u64),
        final(tss).iomap_base == old(tss).iomap_base,
{
    tss.rsp0 = kernel_stack + STACK_SIZE;
    tss.ist[0] = df_stack + STACK_SIZE;
    let system = system_descriptor(tss_addr, 103, 0x89);
    [
        0,
        code_data_descriptor(0, 0xFFFFF, 0x9A, 0xCF),  // 0x08 code32
        code_data_descriptor(0, 0xFFFFF, 0x92, 0xCF),  // 0x10 data
        code_data_descriptor(0, 0xFFFFF, 0x9A, 0xAF),  // 0x18 code64
        system[0],  // 0x20 TSS
        system[1],
        code_data_descriptor(0, 0xFFFFF, 0xFA, 0xAF),  // 0x30 code64 ring3
        code_data_descriptor(0, 0xFFFFF, 0xF2, 0xCF),  // 0x38 data ring3
    ]
}

/// What the fields of a descriptor are, by its bits.
pub proof fn law_descriptor_fields(d: u64)
    ensures
        descriptor_limit_low(d) == d % 0x1_0000,
        descriptor_base(d) == (d / 0x1_0000) % 0x100_0000 + (d / 0x100_0000_0000_0000) * 0x100_0000,
        descriptor_access(d) == (d / 0x100_0000_0000) % 0x100,
        descriptor_flags(d) == (d / 0x1_0000_0000_0000) % 0x100,
{
    lemma_descriptor_bits(d);
}

proof fn lemma_descriptor_bits(d: u64)
    by (bit_vector)
    ensures
        d & 0xFFFF == d % 0x1_0000,
        ((d >> 16) & 0xFF_FFFF) | (((d >> 56) & 0xFF) << 24) == (d / 0x1_0000) % 0x100_0000 + (d
            / 0x100_0000_0000_0000) * 0x100_0000,
        (d >> 40) & 0xFF == (d / 0x100_0000_0000) % 0x100,
        (d >> 48) & 0xFF == (d / 0x1_0000_0000_0000) % 0x100,
{
}

/// Where the fields of a descriptor are: the limit in bits 0..15 and 48..51,
/// the base in bits 16..39 and 56..63, the access byte in bits 40..47, and the
/// flags from bit 52 on.
pub proof fn law_descriptor_layout(d: u64, base: u32, limit: u32, access: u8, flags: u8)
    requires
        is_descriptor(d, base, limit, access, flags),
    ensures
        d % 0x1_0000 == limit % 0x1_0000,
        flags % 16 == 0 ==> (d / 0x1_0000_0000_0000) % 16 == (limit / 0x1_0000) % 16,
        limit == 0xF_FFFF ==> (d / 0x1_0000_0000_0000) % 16 == 15,
        (d / 0x1_0000) % 0x100_0000 + (d / 0x100_0000_0000_0000) * 0x100_0000 == base,
        (d / 0x100_0000_0000) % 0x100 == access,
        (d / 0x10_0000_0000_0000) % 16 == flags / 16,
{
    law_descriptor_fields(d);
    lemma_limit_bits(limit, flags as u32);
    let high = (d / 0x1_0000_0000_0000) as int;
    assert(d / 0x10_0000_0000_0000 == high / 16);
    assert(high % 0x100 / 16 == high / 16 % 16);
    assert(high % 0x100 % 16 == high % 16);
}

proof fn lemma_limit_bits(limit: u32, flags: u32)
    by (bit_vector)
    requires
        flags < 0x100,
    ensures
        limit & 0xFFFF == limit % 0x1_0000,
        flags % 16 == 0 ==> (((limit >> 16) & 0xF) | flags) % 16 == (limit / 0x1_0000) % 16,
        limit == 0xF_FFFF ==> (((limit >> 16) & 0xF) | flags) % 16 == 15,
        (((limit >> 16) & 0xF) | flags) / 16 == flags / 16,
        (((limit >> 16) & 0xF) | flags) < 0x100,
{
}

/// The segment that selector `sel` names in `gdt` may be used from ring `ring`
/// on, is present, and holds code if `code` holds, 64-bit code if `long` does.
pub open spec fn segment_is(gdt: Seq<u64>, sel: int, ring: int, code: bool, long: bool) -> bool {
    let access = descriptor_access(gdt[sel / 8]) as int;
    let flags = descriptor_flags(gdt[sel / 8]) as int;
    &&& access / 0x80 == 1
    &&& access / 0x20 % 4 == ring
    &&& access / 0x10 % 2 == 1
    &&& access / 8 % 2 == (if code {
        1int
    } else {
        0
    })
    &&& access / 2 % 2 == 1
    &&& flags / 0x20 % 2 == (if long {
        1int
    } else {
        0
    })
}

/// The selectors name what they are for: kernel code and data for ring 0, user
/// code and data for ring 3, asked for from ring 3, and the TSS.
pub proof fn law_selectors_name_their_segments(gdt: Seq<u64>, tss_addr: u64)
    requires
        gdt_ok(gdt, tss_addr),
    ensures
        gdt[0] == 0,
        segment_is(gdt, 0x08, 0, true, false),
        segment_is(gdt, 0x10, 0, false, false),
        segment_is(gdt, GDT_CODE64_SELECTOR as int, 0, true, true),
        segment_is(gdt, USER_CODE64_SELECTOR as int, 3, true, true),
        segment_is(gdt, USER_DATA_SELECTOR as int, 3, false, false),
        GDT_CODE64_SELECTOR % 8 == 0,
        USER_CODE64_SELECTOR % 8 == 3,
        USER_DATA_SELECTOR % 8 == 3,
        TSS_SELECTOR % 8 == 0,
        descriptor_access(gdt[TSS_SELECTOR as int / 8]) == 0x89,
        descriptor_limit_low(gdt[TSS_SELECTOR as int / 8]) == 104 - 1,
        descriptor_base(gdt[TSS_SELECTOR as int / 8]) + gdt[TSS_SELECTOR as int / 8 + 1]
            * 0x1_0000_0000 == tss_addr,
{
    assert(((0xFFFFFu32 >> 16) & 0xF) | 0xCFu32 == 0xCF && ((0xFFFFFu32 >> 16) & 0xF) | 0xAFu32
        == 0xAF && 103u32 & 0xFFFF == 103) by (bit_vector);
}

} // verus!
