//! x86-64 interrupt descriptor table: exception, IRQ and syscall gates, and
//! the exception report.
//!
//! Vectors 0..32 get interrupt gates for the exceptions, 0x20..0x2F those for
//! the remapped IRQs (see [`crate::pic`]), and 0x80 the ring-3 syscall gate.
//! The #DF gate (vector 8) additionally gets an IST index, so it runs on the
//! dedicated double-fault stack (see [`crate::tss`]). All other vectors stay
//! not present, so that a stray interrupt is reported as a #GP.

use crate::io::{out, PortWrite};
use crate::pic;
use crate::text::{self, push_dec2, push_hex, push_str};
use crate::tss;
use vstd::prelude::*;

verus! {

/// Code segment selector for 64-bit mode.
pub const GDT_CODE64: u16 = 0x18;

/// Interrupt-gate attribute byte: present, ring 0, 64-bit interrupt gate.
pub const GATE_ATTRS: u8 = 0x8E;

/// Same gate with DPL 3, so ring-3 code can enter via `int 0x80`.
pub const GATE_ATTRS_USER: u8 = 0xEE;

/// First vector of the remapped IRQ range.
pub const IRQ_BASE: u8 = pic::MASTER_BASE;

/// Vector of the ring-3 syscall gate.
pub const SYSCALL_VECTOR: usize = 0x80;

/// Number of vectors.
pub const VECTORS: usize = 256;

/// A gate of the interrupt descriptor table.
#[derive(Clone, Copy, PartialEq, Eq, Debug, Structural)]
pub struct IdtEntry {
    pub offset_low: u16,
    pub selector: u16,
    pub ist: u8,
    pub attrs: u8,
    pub offset_mid: u16,
    pub offset_high: u32,
    pub reserved: u32,
}

impl IdtEntry {
    /// A not-present entry: triggering it raises #GP.
    pub open spec fn missing_spec() -> IdtEntry {
        IdtEntry {
            offset_low: 0,
            selector: 0,
            ist: 0,
            attrs: 0,
            offset_mid: 0,
            offset_high: 0,
            reserved: 0,
        }
    }

    /// A gate that enters the code at `offset`.
    pub open spec fn gate_spec(offset: u64, selector: u16, ist: u8, attrs: u8) -> IdtEntry {
        IdtEntry {
            offset_low: (offset % 0x1_0000) as u16,
            selector,
            ist,
            attrs,
            offset_mid: (offset / 0x1_0000 % 0x1_0000) as u16,
            offset_high: (offset / 0x1_0000_0000) as u32,
            reserved: 0,
        }
    }

    /// The address that this entry leads to.
    pub open spec fn offset(self) -> int {
        self.offset_low + self.offset_mid * 0x1_0000 + self.offset_high * 0x1_0000_0000
    }

    /// A gate enters the address that it was made for.
    pub proof fn law_gate_enters_offset(offset: u64, selector: u16, ist: u8, attrs: u8)
        ensures
            IdtEntry::gate_spec(offset, selector, ist, attrs).offset() == offset,
    {
    }

    /// A not-present entry: triggering it raises #GP.
    #[verifier::when_used_as_spec(missing_spec)]
    pub fn missing() -> (r: IdtEntry)
        ensures
            r == IdtEntry::missing(),
    {
        IdtEntry {
            offset_low: 0,
            selector: 0,
            ist: 0,
            attrs: 0,
            offset_mid: 0,
            offset_high: 0,
            reserved: 0,
        }
    }

    /// A gate that enters the code at `offset`.
    #[verifier::when_used_as_spec(gate_spec)]
    pub fn gate(offset: u64, selector: u16, ist: u8, attrs: u8) -> (r: IdtEntry)
        ensures
            r == IdtEntry::gate(offset, selector, ist, attrs),
    {
        IdtEntry {
            offset_low: (offset % 0x1_0000) as u16,
            selector,
            ist,
            attrs,
            offset_mid: (offset / 0x1_0000 % 0x1_0000) as u16,
            offset_high: (offset / 0x1_0000_0000) as u32,
            reserved: 0,
        }
    }
}

/// The interrupt descriptor table.
pub struct Idt {
    pub entries: [IdtEntry; 256],
}

/// True if `vector` is an exception, an IRQ or the system call.
pub open spec fn is_handled(vector: int) -> bool {
    vector < 32 || IRQ_BASE <= vector < IRQ_BASE + 16 || vector == SYSCALL_VECTOR
}

/// The entry for `vector`, given the addresses of the stubs.
pub open spec fn idt_entry(
    stubs: Seq<u64>,
    irq_stubs: Seq<u64>,
    syscall_stub: u64,
    vector: int,
) -> IdtEntry {
    if vector < 32 {
        IdtEntry::gate(
            stubs[vector],
            GDT_CODE64,
            if vector == tss::DF_VECTOR {
                tss::DF_GATE_IST
            } else {
                0
            },
            GATE_ATTRS,
        )
    } else if IRQ_BASE <= vector < IRQ_BASE + 16 {
        IdtEntry::gate(irq_stubs[vector - IRQ_BASE], GDT_CODE64, 0, GATE_ATTRS)
    } else {
        IdtEntry::gate(syscall_stub, GDT_CODE64, 0, GATE_ATTRS_USER)
    }
}

impl Idt {
    /// A table with every vector not present.
    pub fn new() -> (r: Idt)
        ensures
            forall|v: int| 0 <= v < VECTORS ==> r.entries@[v] == IdtEntry::missing(),
    {
        Idt { entries: [IdtEntry::missing(); 256] }
    }
}

/// Populate the table: `stubs` are the addresses of the 32 exception stubs,
/// `irq_stubs` those of the 16 IRQ stubs. Boot-only: called once, before any
/// exception can be raised; loading the table into the processor is up to the
/// caller.
pub fn init(idt: &mut Idt, stubs: &[u64; 32], irq_stubs: &[u64; 16], syscall_stub: u64)
    ensures
        forall|v: int|
            0 <= v < VECTORS ==> #[trigger] final(idt).entries@[v] == (if is_handled(v) {
                idt_entry(stubs@, irq_stubs@, syscall_stub, v)
            } else {
                old(idt).entries@[v]
            }),
{
    let mut i: usize = 0;
    while i < 32
        invariant
            i <= 32,
            forall|v: int|
                0 <= v < VECTORS ==> #[trigger] idt.entries@[v] == (if v < i {
                    idt_entry(stubs@, irq_stubs@, syscall_stub, v)
                } else {
                    old(idt).entries@[v]
                }),
        decreases 32 - i,
    {
        // #DF gets an IST so its handler runs on the TSS's dedicated stack
        // (the current stack is usually what caused the #DF).
        let ist = if i == tss::DF_VECTOR {
            tss::DF_GATE_IST
        } else {
            0
        };
        idt.entries[i] = IdtEntry::gate(stubs[i], GDT_CODE64, ist, GATE_ATTRS);
        i = i + 1;
    }
    let mut i: usize = 0;
    while i < 16
        invariant
            i <= 16,
            forall|v: int|
                0 <= v < VECTORS ==> #[trigger] idt.entries@[v] == (if v < 32 || IRQ_BASE <= v
                    < IRQ_BASE + i {
                    idt_entry(stubs@, irq_stubs@, syscall_stub, v)
                } else {
                    old(idt).entries@[v]
                }),
        decreases 16 - i,
    {
        idt.entries[IRQ_BASE as usize + i] = IdtEntry::gate(
            irq_stubs[i],
            GDT_CODE64,
            0,
            GATE_ATTRS,
        );
        i = i + 1;
    }
    idt.entries[SYSCALL_VECTOR] = IdtEntry::gate(syscall_stub, GDT_CODE64, 0, GATE_ATTRS_USER);
}

// ---------------------------------------------------------------------------
// The saved frame
// ---------------------------------------------------------------------------

/// What the CPU pushed, plus the vector, error-code and register words of the
/// stubs. Field order matches the stack: lowest address first. The `user_*`
/// fields only carry meaningful values for ring-3 to ring-0 transitions.
#[derive(Clone, Copy, PartialEq, Eq, Debug, Structural)]
pub struct InterruptFrame {
    pub rsp: u64,
    pub r15: u64,
    pub r14: u64,
    pub r13: u64,
    pub r12: u64,
    pub r11: u64,
    pub r10: u64,
    pub r9: u64,
    pub r8: u64,
    pub rbp: u64,
    pub rdi: u64,
    pub rsi: u64,
    pub rdx: u64,
    pub rcx: u64,
    pub rbx: u64,
    pub rax: u64,
    pub vector: u64,
    pub error_code: u64,
    pub rip: u64,
    pub cs: u64,
    pub rflags: u64,
    pub user_rsp: u64,
    pub user_ss: u64,
}

/// Number of words in an [`InterruptFrame`].
pub const FRAME_REGISTERS: usize = 23;

impl InterruptFrame {
    /// The frame's words, lowest address first.
    pub open spec fn words(self) -> Seq<u64> {
        seq![
            self.rsp,
            self.r15,
            self.r14,
            self.r13,
            self.r12,
            self.r11,
            self.r10,
            self.r9,
            self.r8,
            self.rbp,
            self.rdi,
            self.rsi,
            self.rdx,
            self.rcx,
            self.rbx,
            self.rax,
            self.vector,
            self.error_code,
            self.rip,
            self.cs,
            self.rflags,
            self.user_rsp,
            self.user_ss,
        ]
    }

    /// A frame is its words: saving it and loading it back changes nothing.
    pub proof fn law_frame_is_its_words(f: InterruptFrame, g: InterruptFrame)
        requires
            f.words() == g.words(),
        ensures
            f == g,
    {
        let a = f.words();
        let b = g.words();
        assert(forall|i: int| 0 <= i < 23 ==> a[i] == b[i]);
        assert(a[0] == b[0] && a[1] == b[1] && a[2] == b[2] && a[3] == b[3] && a[4] == b[4]);
        assert(a[5] == b[5] && a[6] == b[6] && a[7] == b[7] && a[8] == b[8] && a[9] == b[9]);
        assert(a[10] == b[10] && a[11] == b[11] && a[12] == b[12] && a[13] == b[13]);
        assert(a[14] == b[14] && a[15] == b[15] && a[16] == b[16] && a[17] == b[17]);
        assert(a[18] == b[18] && a[19] == b[19] && a[20] == b[20] && a[21] == b[21]);
        assert(a[22] == b[22]);
    }

    /// The frame's words, lowest address first.
    pub fn to_words(&self) -> (r: [u64; 23])
        ensures
            r@ == self.words(),
    {
        [
            self.rsp,
            self.r15,
            self.r14,
            self.r13,
            self.r12,
            self.r11,
            self.r10,
            self.r9,
            self.r8,
            self.rbp,
            self.rdi,
            self.rsi,
            self.rdx,
            self.rcx,
            self.rbx,
            self.rax,
            self.vector,
            self.error_code,
            self.rip,
            self.cs,
            self.rflags,
            self.user_rsp,
            self.user_ss,
        ]
    }

    /// The frame with the given words.
    pub fn from_words(w: &[u64; 23]) -> (r: InterruptFrame)
        ensures
            r.words() == w@,
    {
        let r = InterruptFrame {
            rsp: w[0],
            r15: w[1],
            r14: w[2],
            r13: w[3],
            r12: w[4],
            r11: w[5],
            r10: w[6],
            r9: w[7],
            r8: w[8],
            rbp: w[9],
            rdi: w[10],
            rsi: w[11],
            rdx: w[12],
            rcx: w[13],
            rbx: w[14],
            rax: w[15],
            vector: w[16],
            error_code: w[17],
            rip: w[18],
            cs: w[19],
            rflags: w[20],
            user_rsp: w[21],
            user_ss: w[22],
        };
        assert(r.words() =~= w@);
        r
    }
}

// ---------------------------------------------------------------------------
// Fault reporting
// ---------------------------------------------------------------------------

/// Name of the exception with number `vector`.
pub open spec fn exception_name_spec(vector: u64) -> Seq<char> {
    if vector == 0 {
        "divide error"@
    } else if vector == 1 {
        "debug"@
    } else if vector == 2 {
        "nmi"@
    } else if vector == 3 {
        "breakpoint"@
    } else if vector == 4 {
        "overflow"@
    } else if vector == 5 {
        "bound range"@
    } else if vector == 6 {
        "invalid opcode"@
    } else if vector == 7 {
        "device not available"@
    } else if vector == 8 {
        "double fault"@
    } else if vector == 9 {
        "coprocessor overrun"@
    } else if vector == 10 {
        "invalid tss"@
    } else if vector == 11 {
        "segment not present"@
    } else if vector == 12 {
        "stack fault"@
    } else if vector == 13 {
        "general protection"@
    } else if vector == 14 {
        "page fault"@
    } else if vector == 16 {
        "x87 exception"@
    } else if vector == 17 {
        "alignment check"@
    } else if vector == 18 {
        "machine check"@
    } else if vector == 19 {
        "simd exception"@
    } else if vector == 20 {
        "virtualization"@
    } else {
        "reserved"@
    }
}

/// Name of the exception with number `vector`.
pub fn exception_name(vector: u64) -> (r: &'static str)
    ensures
        r@ == exception_name_spec(vector),
{
    match vector {
        0 => "divide error",
        1 => "debug",
        2 => "nmi",
        3 => "breakpoint",
        4 => "overflow",
        5 => "bound range",
        6 => "invalid opcode",
        7 => "device not available",
        8 => "double fault",
        9 => "coprocessor overrun",
        10 => "invalid tss",
        11 => "segment not present",
        12 => "stack fault",
        13 => "general protection",
        14 => "page fault",
        16 => "x87 exception",
        17 => "alignment check",
        18 => "machine check",
        19 => "simd exception",
        20 => "virtualization",
        _ => "reserved",
    }
}

/// What the error code of a page fault says.
pub open spec fn page_fault_reason_spec(code: u64) -> Seq<char> {
    let low = code % 32;
    if low == 0b00000 {
        "not present, read"@
    } else if low == 0b00001 {
        "protection violation, read"@
    } else if low == 0b00010 {
        "not present, write"@
    } else if low == 0b00011 {
        "protection violation, write"@
    } else if low == 0b00100 {
        "not present, instruction fetch"@
    } else if low == 0b00101 {
        "protection violation, instruction fetch"@
    } else if low == 0b00110 {
        "not present, write, reserved-bit"@
    } else if low == 0b01010 {
        "not present, write, user-mode"@
    } else if low == 0b01110 {
        "not present, write, user-mode, reserved-bit"@
    } else if low == 0b10010 {
        "not present, write, instruction fetch"@
    } else {
        "unspecified"@
    }
}

/// What the error code of a page fault says.
pub fn page_fault_reason(code: u64) -> (r: &'static str)
    ensures
        r@ == page_fault_reason_spec(code),
{
    let low: u64 = code % 32;
    match low {
        0b00000 => "not present, read",
        0b00001 => "protection violation, read",
        0b00010 => "not present, write",
        0b00011 => "protection violation, write",
        0b00100 => "not present, instruction fetch",
        0b00101 => "protection violation, instruction fetch",
        0b00110 => "not present, write, reserved-bit",
        0b01010 => "not present, write, user-mode",
        0b01110 => "not present, write, user-mode, reserved-bit",
        0b10010 => "not present, write, instruction fetch",
        _ => "unspecified",
    }
}

/// `head`, followed by what is said of the exception after its name.
pub open spec fn with_detail(head: Seq<u8>, frame: InterruptFrame, cr2: u64) -> Seq<u8> {
    if frame.vector == 14 {
        head + text::text(" ("@) + text::text(page_fault_reason_spec(frame.error_code))
            + text::text("): cr2="@) + text::hex(cr2 as int)
    } else if frame.error_code != 0 {
        head + text::text(": error_code="@) + text::hex(frame.error_code as int)
    } else {
        head
    }
}

/// `head`, followed by what is said of the registers.
pub open spec fn with_registers(head: Seq<u8>, frame: InterruptFrame) -> Seq<u8> {
    head + text::text("\r\n  rip="@) + text::hex(frame.rip as int) + text::text(" cs="@)
        + text::hex(frame.cs as int) + text::text(" rflags="@) + text::hex(frame.rflags as int)
        + text::text(" rsp="@) + text::hex(frame.rsp as int) + text::text("\r\n  rax="@)
        + text::hex(frame.rax as int) + text::text(" rbx="@) + text::hex(frame.rbx as int)
        + text::text(" rbp="@) + text::hex(frame.rbp as int) + text::text(" rdi="@) + text::hex(
        frame.rdi as int,
    ) + text::text("\r\n"@)
}

/// The report of the exception that `frame` describes.
pub open spec fn report(frame: InterruptFrame, cr2: u64) -> Seq<u8> {
    let head = text::text("\r\nEXCEPTION #"@) + text::dec2(frame.vector as int) + text::text(" "@)
        + text::text(exception_name_spec(frame.vector));
    with_registers(with_detail(head, frame, cr2), frame)
}

/// The report of the exception that `frame` describes; `cr2` is the faulting
/// address of a page fault. The caller prints it and halts.
pub fn handle_exception(frame: &InterruptFrame, cr2: u64) -> (r: Vec<u8>)
    ensures
        r@ == report(*frame, cr2),
{
    let mut out: Vec<u8> = Vec::new();
    push_str(&mut out, "\r\nEXCEPTION #");
    assert(out@ =~= text::text("\r\nEXCEPTION #"@));
    push_dec2(&mut out, frame.vector);
    push_str(&mut out, " ");
    push_str(&mut out, exception_name(frame.vector));
    if frame.vector == 14 {
        push_str(&mut out, " (");
        push_str(&mut out, page_fault_reason(frame.error_code));
        push_str(&mut out, "): cr2=");
        push_hex(&mut out, cr2);
    } else if frame.error_code != 0 {
        push_str(&mut out, ": error_code=");
        push_hex(&mut out, frame.error_code);
    }
    push_str(&mut out, "\r\n  rip=");
    push_hex(&mut out, frame.rip);
    push_str(&mut out, " cs=");
    push_hex(&mut out, frame.cs);
    push_str(&mut out, " rflags=");
    push_hex(&mut out, frame.rflags);
    push_str(&mut out, " rsp=");
    push_hex(&mut out, frame.rsp);
    push_str(&mut out, "\r\n  rax=");
    push_hex(&mut out, frame.rax);
    push_str(&mut out, " rbx=");
    push_hex(&mut out, frame.rbx);
    push_str(&mut out, " rbp=");
    push_hex(&mut out, frame.rbp);
    push_str(&mut out, " rdi=");
    push_hex(&mut out, frame.rdi);
    push_str(&mut out, "\r\n");
    out
}

/// Where exception reports go: the address of a registered sink, or 0.
pub struct FaultSinks {
    pub(crate) sink: u64,
}

impl FaultSinks {
    /// The registered sink, if any.
    pub open(crate) spec fn sink_spec(&self) -> Option<u64> {
        if self.sink != 0 {
            Some(self.sink)
        } else {
            None
        }
    }

    /// No sink is registered.
    pub fn new() -> (r: FaultSinks)
        ensures
            r.sink() is None,
    {
        FaultSinks { sink: 0 }
    }

    /// The sink that a report goes to; until one is set, reports go nowhere.
    #[verifier::when_used_as_spec(sink_spec)]
    pub fn sink(&self) -> (r: Option<u64>)
        ensures
            r == self.sink(),
    {
        if self.sink != 0 {
            Some(self.sink)
        } else {
            None
        }
    }
}

/// Register the sink that receives exception reports, by its address.
pub fn set_fault_sink(sinks: &mut FaultSinks, sink: u64)
    requires
        sink != 0,
    ensures
        final(sinks).sink() == Some(sink),
{
    sinks.sink = sink;
}

// ---------------------------------------------------------------------------
// IRQ dispatch
// ---------------------------------------------------------------------------

/// The handlers registered for the 16 remapped IRQs, by their addresses.
/// Populated at boot via [`set_irq_handler`], before interrupts are enabled.
pub struct IrqHandlers {
    pub(crate) handlers: [Option<u64>; 16],
}

impl IrqHandlers {
    /// The handler of `irq`.
    pub open(crate) spec fn handler(&self, irq: int) -> Option<u64> {
        self.handlers@[irq]
    }

    /// No handler is registered.
    pub fn new() -> (r: IrqHandlers)
        ensures
            forall|irq: int| 0 <= irq < 16 ==> r.handler(irq) is None,
    {
        IrqHandlers { handlers: [None; 16] }
    }
}

/// Register `handler` for `irq` (0..15), replacing any previous one. Pass
/// `None` to unregister.
pub fn set_irq_handler(table: &mut IrqHandlers, irq: u8, handler: Option<u64>)
    requires
        irq < 16,
    ensures
        forall|i: int|
            0 <= i < 16 ==> #[trigger] final(table).handler(i) == (if i == irq {
                handler
            } else {
                old(table).handler(i)
            }),
{
    table.handlers[irq as usize] = handler;
}

/// What to do on an IRQ: acknowledge it, then run the handler.
pub struct IrqDispatch {
    pub irq: u8,
    pub eoi: Vec<PortWrite>,
    pub handler: Option<u64>,
}

/// Acknowledge the IRQ and find its registered handler, if any. The EOI comes
/// first so that a slow handler does not hold the line.
pub fn handle_irq(table: &IrqHandlers, frame: &InterruptFrame) -> (r: IrqDispatch)
    requires
        IRQ_BASE <= frame.vector < IRQ_BASE + 16,
    ensures
        r.irq == frame.vector - IRQ_BASE,
        r.irq == frame.vector - 32,
        r.eoi@ == (if r.irq >= 8 {
            seq![out(pic::PIC2_CMD, pic::OCW2_EOI), out(pic::PIC1_CMD, pic::OCW2_EOI)]
        } else {
            seq![out(pic::PIC1_CMD, pic::OCW2_EOI)]
        }),
        r.handler == table.handler(r.irq as int),
{
    let irq = (frame.vector - IRQ_BASE as u64) as u8;
    let eoi = pic::send_eoi(irq);
    IrqDispatch { irq, eoi, handler: table.handlers[irq as usize] }
}

/// The vectors with a gate: the 32 exceptions, behind them the 16 IRQs, and
/// the system call.
pub proof fn law_vectors_with_a_gate(vector: int)
    requires
        0 <= vector < 256,
    ensures
        is_handled(vector) <==> vector < 0x30 || vector == 0x80,
        IRQ_BASE == 32,
{
}

/// What a gate does: it is present, enters ring-0 code in 64-bit mode with
/// interrupts off, and can be entered from ring 3 only if it is the system
/// call's. The double fault, and it alone, changes to the first stack of the
/// TSS.
pub proof fn law_gates(
    stubs: Seq<u64>,
    irq_stubs: Seq<u64>,
    syscall_stub: u64,
    vector: int,
)
    requires
        0 <= vector < 256,
        is_handled(vector),
    ensures
        ({
            let e = idt_entry(stubs, irq_stubs, syscall_stub, vector);
            &&& e.offset() == (if vector < 32 {
                stubs[vector]
            } else if vector < 48 {
                irq_stubs[vector - 32]
            } else {
                syscall_stub
            })
            &&& e.selector == tss::GDT_CODE64_SELECTOR
            &&& e.attrs / 0x80 == 1
            &&& e.attrs % 0x20 == 0xE
            &&& e.attrs / 0x20 % 4 == (if vector == 0x80 {
                3int
            } else {
                0
            })
            &&& e.ist == (if vector == 8 {
                1int
            } else {
                0
            })
            &&& e.reserved == 0
        }),
{
}

/// An entry that is missing is not present.
pub proof fn law_missing_is_not_present()
    ensures
        IdtEntry::missing().attrs / 0x80 == 0,
        IdtEntry::missing().offset() == 0,
{
}

/// The exceptions go by these names; what the processor does not define is
/// reserved.
#[verifier::spinoff_prover]
pub proof fn law_exception_names(vector: u64)
    ensures
        vector < 21 ==> exception_name_spec(vector) == seq![
            "divide error"@,
            "debug"@,
            "nmi"@,
            "breakpoint"@,
            "overflow"@,
            "bound range"@,
            "invalid opcode"@,
            "device not available"@,
            "double fault"@,
            "coprocessor overrun"@,
            "invalid tss"@,
            "segment not present"@,
            "stack fault"@,
            "general protection"@,
            "page fault"@,
            "reserved"@,
            "x87 exception"@,
            "alignment check"@,
            "machine check"@,
            "simd exception"@,
            "virtualization"@,
        ][vector as int],
        vector >= 21 ==> exception_name_spec(vector) == "reserved"@,
{
}

/// What is said of a page fault goes by the low five bits of its error code.
/// Where something is said, bit 0 tells a protection violation from a page
/// that is not present, and bit 1 a write.
#[verifier::spinoff_prover]
pub proof fn law_page_fault_reasons(code: u64)
    ensures
        page_fault_reason_spec(code) == page_fault_reason_spec(code % 32),
        page_fault_reason_spec(code) != "unspecified"@ ==> {
            &&& code % 2 == 1 ==> page_fault_reason_spec(code).subrange(0, 20)
                == "protection violation"@
            &&& code % 2 == 0 ==> page_fault_reason_spec(code).subrange(0, 11) == "not present"@
            &&& (code / 2) % 2 == 1 && code % 2 == 0 ==> page_fault_reason_spec(code).subrange(
                11,
                18,
            ) == ", write"@
            &&& (code / 2) % 2 == 1 && code % 2 == 1 ==> page_fault_reason_spec(code).subrange(
                20,
                27,
            ) == ", write"@
            &&& (code / 2) % 2 == 0 && (code / 4) % 2 == 0 ==> page_fault_reason_spec(code).last() == 'd'
            &&& (code / 2) % 2 == 0 && (code / 4) % 2 == 1 ==> page_fault_reason_spec(code).last() == 'h'
        },
        page_fault_reason_spec(code) != "unspecified"@ <==> code % 32 <= 6 || code % 32 == 10
            || code % 32 == 14 || code % 32 == 18,
{
    reveal_strlit("unspecified");
    reveal_strlit("protection violation");
    reveal_strlit("not present");
    reveal_strlit(", write");
    reveal_strlit("not present, read");
    reveal_strlit("protection violation, read");
    reveal_strlit("not present, write");
    reveal_strlit("protection violation, write");
    reveal_strlit("not present, instruction fetch");
    reveal_strlit("protection violation, instruction fetch");
    reveal_strlit("not present, write, reserved-bit");
    reveal_strlit("not present, write, user-mode");
    reveal_strlit("not present, write, user-mode, reserved-bit");
    reveal_strlit("not present, write, instruction fetch");
    let s = page_fault_reason_spec(code);
    assert("unspecified"@[0] == 'u');
    if s != "unspecified"@ {
        if code % 2 == 1 {
            assert(s.subrange(0, 20) =~= "protection violation"@);
        } else {
            assert(s.subrange(0, 11) =~= "not present"@);
        }
        if (code / 2) % 2 == 1 {
            if code % 2 == 0 {
                assert(s.subrange(11, 18) =~= ", write"@);
            } else {
                assert(s.subrange(20, 27) =~= ", write"@);
            }
        }
    }
}

/// A report begins with the number and the name of the exception and ends with
/// the registers, whatever is said between them; what that is, hangs on the
/// exception: of a page fault the address and the reason, of another the error
/// code unless it is zero.
#[verifier::spinoff_prover]
pub proof fn law_report_says_what_happened(frame: InterruptFrame, cr2: u64)
    ensures
        ({
            let head = text::text("\r\nEXCEPTION #"@) + text::dec2(frame.vector as int)
                + text::text(" "@) + text::text(exception_name_spec(frame.vector));
            let tail = with_registers(Seq::empty(), frame);
            &&& frame.vector == 14 ==> report(frame, cr2) == head + text::text(" ("@) + text::text(
                page_fault_reason_spec(frame.error_code),
            ) + text::text("): cr2="@) + text::hex(cr2 as int) + tail
            &&& frame.vector != 14 && frame.error_code != 0 ==> report(frame, cr2) == head
                + text::text(": error_code="@) + text::hex(frame.error_code as int) + tail
            &&& frame.vector != 14 && frame.error_code == 0 ==> report(frame, cr2) == head + tail
        }),
{
    let head = text::text("\r\nEXCEPTION #"@) + text::dec2(frame.vector as int) + text::text(" "@)
        + text::text(exception_name_spec(frame.vector));
    lemma_registers_follow(with_detail(head, frame, cr2), frame);
}

/// What is said of the registers follows what is before it.
proof fn lemma_registers_follow(head: Seq<u8>, f: InterruptFrame)
    ensures
        with_registers(head, f) == head + with_registers(Seq::empty(), f),
{
    let none = Seq::<u8>::empty();
    assert(head =~= head + none);
    let a = none + text::text("\r\n  rip="@);
    lemma_grows(head, none, text::text("\r\n  rip="@));
    let b = a + text::hex(f.rip as int);
    lemma_grows(head, a, text::hex(f.rip as int));
    let c = b + text::text(" cs="@);
    lemma_grows(head, b, text::text(" cs="@));
    let d = c + text::hex(f.cs as int);
    lemma_grows(head, c, text::hex(f.cs as int));
    let e = d + text::text(" rflags="@);
    lemma_grows(head, d, text::text(" rflags="@));
    let g = e + text::hex(f.rflags as int);
    lemma_grows(head, e, text::hex(f.rflags as int));
    let h = g + text::text(" rsp="@);
    lemma_grows(head, g, text::text(" rsp="@));
    let i = h + text::hex(f.rsp as int);
    lemma_grows(head, h, text::hex(f.rsp as int));
    let j = i + text::text("\r\n  rax="@);
    lemma_grows(head, i, text::text("\r\n  rax="@));
    let k = j + text::hex(f.rax as int);
    lemma_grows(head, j, text::hex(f.rax as int));
    let l = k + text::text(" rbx="@);
    lemma_grows(head, k, text::text(" rbx="@));
    let m = l + text::hex(f.rbx as int);
    lemma_grows(head, l, text::hex(f.rbx as int));
    let n = m + text::text(" rbp="@);
    lemma_grows(head, m, text::text(" rbp="@));
    let o = n + text::hex(f.rbp as int);
    lemma_grows(head, n, text::hex(f.rbp as int));
    let p = o + text::text(" rdi="@);
    lemma_grows(head, o, text::text(" rdi="@));
    let q = p + text::hex(f.rdi as int);
    lemma_grows(head, p, text::hex(f.rdi as int));
    lemma_grows(head, q, text::text("\r\n"@));
}

/// Text grows at its end.
proof fn lemma_grows(head: Seq<u8>, tail: Seq<u8>, more: Seq<u8>)
    ensures
        head + tail + more == head + (tail + more),
{
    assert(head + tail + more =~= head + (tail + more));
}

/// Where the words of a frame are: what the processor pushes on an interrupt
/// from ring 3 is on top, in the order in which it takes it back, below it the
/// error code and the vector, and below those the registers.
pub proof fn law_frame_layout(f: InterruptFrame)
    ensures
        f.words().len() == 23,
        f.words()[22] == f.user_ss && f.words()[21] == f.user_rsp && f.words()[20] == f.rflags
            && f.words()[19] == f.cs && f.words()[18] == f.rip,
        f.words()[17] == f.error_code && f.words()[16] == f.vector,
        f.words()[15] == f.rax && f.words()[14] == f.rbx && f.words()[13] == f.rcx
            && f.words()[12] == f.rdx && f.words()[11] == f.rsi && f.words()[10] == f.rdi
            && f.words()[9] == f.rbp,
        f.words()[8] == f.r8 && f.words()[7] == f.r9 && f.words()[6] == f.r10 && f.words()[5]
            == f.r11 && f.words()[4] == f.r12 && f.words()[3] == f.r13 && f.words()[2] == f.r14
            && f.words()[1] == f.r15 && f.words()[0] == f.rsp,
{
}

/// The report shows the registers, each once, in hexadecimal.
#[verifier::spinoff_prover]
pub proof fn law_report_shows_the_registers(head: Seq<u8>, f: InterruptFrame)
    ensures
        exists|
            a: Seq<u8>,
            b: Seq<u8>,
            c: Seq<u8>,
            d: Seq<u8>,
            e: Seq<u8>,
            g: Seq<u8>,
            h: Seq<u8>,
            i: Seq<u8>,
            j: Seq<u8>,
        |
            with_registers(head, f) == #[trigger] (head + a + text::hex(f.rip as int) + b
                + text::hex(f.cs as int) + c + text::hex(f.rflags as int) + d + text::hex(
                f.rsp as int,
            ) + e + text::hex(f.rax as int) + g + text::hex(f.rbx as int) + h + text::hex(
                f.rbp as int,
            ) + i + text::hex(f.rdi as int) + j),
{
    let a = text::text("\r\n  rip="@);
    let b = text::text(" cs="@);
    let c = text::text(" rflags="@);
    let d = text::text(" rsp="@);
    let e = text::text("\r\n  rax="@);
    let g = text::text(" rbx="@);
    let h = text::text(" rbp="@);
    let i = text::text(" rdi="@);
    let j = text::text("\r\n"@);
    assert(with_registers(head, f) == head + a + text::hex(f.rip as int) + b + text::hex(
        f.cs as int,
    ) + c + text::hex(f.rflags as int) + d + text::hex(f.rsp as int) + e + text::hex(f.rax as int)
        + g + text::hex(f.rbx as int) + h + text::hex(f.rbp as int) + i + text::hex(f.rdi as int)
        + j);
}

} // verus!
