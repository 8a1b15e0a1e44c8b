//! Preemptive round-robin multitasking for ring-3 processes.
//!
//! The PIT tick (IRQ0) preempts the current process and switches to the next
//! ready one; `int 0x80` adds cooperative [`yield_now`] and [`exit_current`].
//! The interactive shell is process 0 (idle), created by [`init_idle`];
//! [`start_process`] registers a ring-3 program (already mapped as USER) and
//! the scheduler starts running it on the next tick.
//!
//! A switch is a stack swap: on preemption a full [`InterruptFrame`] is saved
//! on the process's private kernel stack, and a [`Switch`] says which frame to
//! resume and which kernel stack goes with it. A freshly created process
//! carries a hand-built frame, so its first switch is an entry into ring 3.

use crate::idt::{InterruptFrame, FRAME_REGISTERS};
use crate::memory::Memory;
use crate::tss;
use vstd::prelude::*;
use vstd::string::*;

verus! {

/// Maximum number of processes (slot 0 is always the idle shell).
pub const MAX_PROCESSES: usize = 16;

/// Per-process ring-0 stack size.
pub const KSTACK_SIZE: u64 = 0x4000;

/// Start of the per-process virtual region, above the identity window
/// (0..512 MiB) so it starts unmapped in the kernel page table.
pub const PROC_BASE: u64 = 0x8000_0000;

/// Address-space stride between two processes' regions.
pub const PROC_STRIDE: u64 = 0x20_0000;

/// Offset of the user stack within a process's region (code is at the base).
pub const PROC_STACK_OFFSET: u64 = 0x10_0000;

/// Size of the initial frame, in bytes.
pub const FRAME_BYTES: u64 = 184;

/// Bytes of a process name.
pub const NAME_SIZE: usize = 16;

/// The first (user-executable, USER-mapped) byte of process `pid`'s region.
pub fn user_code_va(pid: u32) -> (r: u64)
    ensures
        r == PROC_BASE + pid * PROC_STRIDE,
{
    PROC_BASE + pid as u64 * PROC_STRIDE
}

/// Top of process `pid`'s user stack (one page above [`user_code_va`]'s
/// region's stack slot).
pub fn user_stack_top(pid: u32) -> (r: u64)
    ensures
        r == PROC_BASE + pid * PROC_STRIDE + PROC_STACK_OFFSET + 4096,
{
    PROC_BASE + pid as u64 * PROC_STRIDE + PROC_STACK_OFFSET + 4096
}

/// The regions of two processes do not overlap, and a process's code and
/// stack lie in its own region.
pub proof fn law_regions_are_disjoint(p: u32, q: u32)
    requires
        p < q,
    ensures
        PROC_BASE + p * PROC_STRIDE + PROC_STRIDE <= PROC_BASE + q * PROC_STRIDE,
        PROC_BASE + p * PROC_STRIDE + PROC_STACK_OFFSET + 4096 <= PROC_BASE + p * PROC_STRIDE
            + PROC_STRIDE,
{
}

/// The state of a slot of the process table.
#[derive(Clone, Copy, PartialEq, Eq, Debug, Structural)]
pub enum State {
    Unused,
    Ready,
    Running,
    Zombie,
}

/// A process.
#[derive(Clone, Copy)]
pub struct Process {
    pub pid: u32,
    pub state: State,
    /// Top of the private ring-0 stack (`TSS.rsp0`).
    pub kernel_stack_top: u64,
    /// Address of the saved (or initial) [`InterruptFrame`] on that stack.
    pub ctx: u64,
    pub name: [u8; 16],
}

impl Process {
    /// The process in another state.
    pub open spec fn with_state(self, state: State) -> Process {
        Process { state, ..self }
    }

    /// The process with its frame saved at `ctx`.
    pub open spec fn saved_at(self, ctx: u64) -> Process {
        Process { ctx, ..self }
    }

    /// True if the slot holds a process that has not ended.
    pub open spec fn live(self) -> bool {
        self.state == State::Ready || self.state == State::Running
    }
}

/// The process table, the process on the CPU, and the kernel stacks.
pub struct Scheduler {
    pub(crate) processes: [Process; 16],
    pub(crate) current: usize,
    pub(crate) scheduling: bool,
    pub(crate) stacks: Memory,
    /// Address of the kernel stacks.
    pub(crate) stacks_at: u64,
}

/// The frame to resume, and the kernel stack that goes with it.
#[derive(Clone, Copy, PartialEq, Eq, Debug, Structural)]
pub struct Switch {
    pub ctx: u64,
    pub rsp0: u64,
}

/// Copy of a process for the shell's `ps` command.
#[derive(Clone, Copy)]
pub struct ProcDesc {
    pub pid: u32,
    pub running: bool,
    pub name: [u8; 16],
}

/// What `ps` shows of a process.
pub open spec fn described(p: Process) -> ProcDesc {
    ProcDesc { pid: p.pid, running: p.state == State::Running, name: p.name }
}

/// What `ps` shows of the live processes among the first `n` slots.
pub open spec fn live_list(processes: Seq<Process>, n: int) -> Seq<ProcDesc>
    decreases n,
{
    if n <= 0 {
        Seq::empty()
    } else if processes[n - 1].live() {
        live_list(processes, n - 1).push(described(processes[n - 1]))
    } else {
        live_list(processes, n - 1)
    }
}

/// There are no more live processes than slots.
pub proof fn lemma_live_list_len(processes: Seq<Process>, n: int)
    requires
        0 <= n,
    ensures
        live_list(processes, n).len() <= n,
    decreases n,
{
    if n > 0 {
        lemma_live_list_len(processes, n - 1);
    }
}

/// The slot that is `i` turns after slot `cur`.
pub open spec fn turn(cur: int, i: int) -> int {
    (cur + i) % 16
}

/// Slot `idx` is the first ready one after slot `cur`.
pub open spec fn is_next_ready(processes: Seq<Process>, cur: int, idx: int) -> bool {
    exists|i: int|
        1 <= i < 16 && #[trigger] turn(cur, i) == idx && processes[idx].state == State::Ready
            && forall|j: int| 1 <= j < i ==> processes[#[trigger] turn(cur, j)].state != State::Ready
}

/// No slot but `cur` is ready.
pub open spec fn no_other_ready(processes: Seq<Process>, cur: int) -> bool {
    forall|i: int| 1 <= i < 16 ==> processes[#[trigger] turn(cur, i)].state != State::Ready
}

/// A name as it is stored: at most 15 bytes, filled up with zeroes.
pub open spec fn stored_name(name: Seq<u8>) -> Seq<u8> {
    Seq::new(
        16,
        |i: int|
            if i < 15 && i < name.len() {
                name[i]
            } else {
                0u8
            },
    )
}

/// The frame that a process is entered by: ring-3 selectors, interrupts on,
/// the process number in `rdi`.
pub open spec fn initial_frame(pid: u32, entry: u64) -> InterruptFrame {
    InterruptFrame {
        rsp: 0,
        r15: 0,
        r14: 0,
        r13: 0,
        r12: 0,
        r11: 0,
        r10: 0,
        r9: 0,
        r8: 0,
        rbp: 0,
        rdi: pid as u64,
        rsi: 0,
        rdx: 0,
        rcx: 0,
        rbx: 0,
        rax: 0,
        vector: 0,
        error_code: 0,
        rip: entry,
        cs: tss::USER_CODE64_SELECTOR as u64,
        rflags: 0x202,
        user_rsp: (PROC_BASE + pid * PROC_STRIDE + PROC_STACK_OFFSET + 4096) as u64,
        user_ss: tss::USER_DATA_SELECTOR as u64,
    }
}

impl Scheduler {
    /// The process table.
    pub open(crate) spec fn table(self) -> Seq<Process> {
        self.processes@
    }

    /// The slot of the process on the CPU.
    pub open(crate) spec fn cur(self) -> int {
        self.current as int
    }

    /// True once the scheduler is enabled.
    pub open(crate) spec fn enabled(self) -> bool {
        self.scheduling
    }

    /// Address of the kernel stacks.
    pub open(crate) spec fn kstacks_at(self) -> int {
        self.stacks_at as int
    }

    /// The words of the kernel stacks.
    pub open(crate) spec fn kstack_words(self) -> Seq<u64> {
        self.stacks@
    }

    /// Top of the kernel stack of slot `slot`.
    pub open spec fn kstack_top(self, slot: int) -> int {
        self.kstacks_at() + (slot + 1) * KSTACK_SIZE
    }

    /// The words of the frame saved at address `ctx`.
    pub open spec fn frame_words(self, ctx: int) -> Seq<u64> {
        self.kstack_words().subrange(
            (ctx - self.kstacks_at()) / 8,
            (ctx - self.kstacks_at()) / 8 + FRAME_REGISTERS,
        )
    }

    /// The invariant of the scheduler: the current process is in the table,
    /// no other is running, and a process knows its slot.
    pub open(crate) spec fn wf(self) -> bool {
        &&& self.current < MAX_PROCESSES
        &&& self.processes@[self.current as int].pid == self.current
        &&& self.stacks_at > 0
        &&& self.stacks_at % 16 == 0
        &&& self.stacks@.len() == 16 * 2048
        &&& self.stacks_at + 16 * KSTACK_SIZE <= u64::MAX
        &&& forall|i: int|
            0 <= i < 16 ==> ((#[trigger] self.processes@[i]).state == State::Running ==> i
                == self.current)
        &&& forall|i: int|
            0 <= i < 16 ==> ((#[trigger] self.processes@[i]).state != State::Unused ==> self.processes@[i].pid
                == i)
    }

    /// An empty process table over kernel stacks at `stacks_at`.
    pub fn new(stacks: Memory, stacks_at: u64) -> (r: Scheduler)
        requires
            stacks@.len() == 16 * 2048,
            stacks_at > 0,
            stacks_at % 16 == 0,
            stacks_at + 16 * KSTACK_SIZE <= u64::MAX,
        ensures
            r.wf(),
            r.cur() == 0,
            !r.enabled(),
            r.kstacks_at() == stacks_at,
            r.kstack_words() == stacks@,
            forall|i: int| 0 <= i < 16 ==> (#[trigger] r.table()[i]).state == State::Unused,
    {
        let unused = Process {
            pid: 0,
            state: State::Unused,
            kernel_stack_top: 0,
            ctx: 0,
            name: [0; 16],
        };
        Scheduler { processes: [unused; 16], current: 0, scheduling: false, stacks, stacks_at }
    }

    /// The process in slot `slot`.
    pub fn process(&self, slot: usize) -> (r: &Process)
        requires
            slot < MAX_PROCESSES,
        ensures
            *r == self.table()[slot as int],
    {
        &self.processes[slot]
    }

    /// The frame saved at address `ctx` on one of the kernel stacks.
    pub fn frame_at(&self, ctx: u64) -> (r: InterruptFrame)
        requires
            self.wf(),
            self.kstacks_at() <= ctx,
            ctx % 8 == 0,
            ctx + FRAME_BYTES <= self.kstacks_at() + 16 * KSTACK_SIZE,
        ensures
            r.words() == self.frame_words(ctx as int),
    {
        let first = ((ctx - self.stacks_at) / 8) as usize;
        let mut words: [u64; 23] = [0; 23];
        let mut i: usize = 0;
        while i < FRAME_REGISTERS
            invariant
                i <= FRAME_REGISTERS,
                first + FRAME_REGISTERS <= self.stacks@.len(),
                self.stacks@.len() == 16 * 2048,
                forall|j: int| 0 <= j < i ==> words@[j] == self.stacks@[first + j],
            decreases FRAME_REGISTERS - i,
        {
            words[i] = self.stacks.read(first + i);
            i = i + 1;
        }
        let r = InterruptFrame::from_words(&words);
        assert(r.words() =~= self.frame_words(ctx as int));
        r
    }
}

/// The name of the idle process.
pub open spec fn idle_name() -> Seq<u8> {
    seq![105u8, 100, 108, 101, 0, 0, 0, 0, 0, 0, 0, 0, 0, 0, 0, 0]
}

/// Register the boot flow as process 0 (idle) and enable the scheduler.
/// Boot-only, once, before the shell runs.
pub fn init_idle(sched: &mut Scheduler, kernel_stack_top: u64)
    requires
        old(sched).wf(),
        forall|i: int| 0 < i < 16 ==> (#[trigger] old(sched).table()[i]).state != State::Running,
    ensures
        final(sched).wf(),
        final(sched).cur() == 0,
        final(sched).enabled(),
        final(sched).kstacks_at() == old(sched).kstacks_at(),
        final(sched).kstack_words() == old(sched).kstack_words(),
        forall|i: int|
            0 < i < 16 ==> #[trigger] final(sched).table()[i] == old(sched).table()[i],
        final(sched).table()[0].pid == 0,
        final(sched).table()[0].state == State::Ready,
        final(sched).table()[0].kernel_stack_top == kernel_stack_top,
        final(sched).table()[0].ctx == 0,
        final(sched).table()[0].name@ == idle_name(),
        forall|i: int|
            0 <= i < 16 ==> (#[trigger] final(sched).table()[i]).state != State::Running,
        final(sched).table()[0].live(),
{
    let idle = Process {
        pid: 0,
        state: State::Ready,
        kernel_stack_top,
        ctx: 0,
        name: [105, 100, 108, 101, 0, 0, 0, 0, 0, 0, 0, 0, 0, 0, 0, 0],
    };
    assert(idle.name@ =~= idle_name());
    sched.processes[0] = idle;
    sched.current = 0;
    sched.scheduling = true;
    proof {
        assert forall|i: int| 0 <= i < 16 implies (#[trigger] sched.processes@[i]).state
            != State::Running && (sched.processes@[i].state != State::Unused
            ==> sched.processes@[i].pid == i) by {
            assert(i > 0 ==> sched.processes@[i] == old(sched).table()[i]);
        }
    }
}

/// First slot that is not holding a live process (idle is slot 0, so `None`
/// means the table is full). The caller must keep interrupts disabled across
/// the matching [`start_process`] so no tick can allocate the slot in
/// between.
pub fn free_slot(sched: &Scheduler) -> (r: Option<u32>)
    ensures
        r is None <==> forall|i: int| 1 <= i < 16 ==> (#[trigger] sched.table()[i]).live(),
        r matches Some(slot) ==> {
            &&& 1 <= slot < 16
            &&& !sched.table()[slot as int].live()
            &&& forall|i: int| 1 <= i < slot ==> (#[trigger] sched.table()[i]).live()
        },
{
    let mut i: usize = 1;
    while i < MAX_PROCESSES
        invariant
            1 <= i <= 16,
            forall|j: int| 1 <= j < i ==> (#[trigger] sched.table()[j]).live(),
        decreases 16 - i,
    {
        let state = sched.processes[i].state;
        if state == State::Unused || state == State::Zombie {
            assert(!sched.table()[i as int].live());
            return Some(i as u32);
        }
        i = i + 1;
    }
    None
}

/// Register a ring-3 process. `entry` must already be mapped USER-executable
/// (see [`user_code_va`]); the process's user stack and kernel stack are
/// assigned from the process number. Call with interrupts disabled.
pub fn start_process(sched: &mut Scheduler, pid: u32, entry: u64, name: &str)
    requires
        old(sched).wf(),
        pid < MAX_PROCESSES,
    ensures
        final(sched).wf(),
        final(sched).cur() == old(sched).cur(),
        final(sched).enabled() == old(sched).enabled(),
        final(sched).kstacks_at() == old(sched).kstacks_at(),
        forall|i: int|
            0 <= i < 16 && i != pid ==> #[trigger] final(sched).table()[i] == old(sched).table()[i],
        ({
            let p = final(sched).table()[pid as int];
            &&& p.pid == pid
            &&& p.state == State::Ready
            &&& p.kernel_stack_top == old(sched).kstack_top(pid as int)
            &&& p.ctx == old(sched).kstack_top(pid as int) - 192
            &&& p.ctx % 16 == 0
            &&& p.name@ == stored_name(name.spec_bytes())
            &&& final(sched).frame_words(p.ctx as int) == initial_frame(pid, entry).words()
            &&& forall|w: int|
                0 <= w < 16 * 2048 && !(p.ctx <= old(sched).kstacks_at() + w * 8 < p.ctx
                    + FRAME_BYTES) ==> #[trigger] final(sched).kstack_words()[w] == old(sched).kstack_words()[w]
        }),
        final(sched).kstack_words().len() == old(sched).kstack_words().len(),
{
    start_named(sched, pid, entry, name.as_bytes());
}

/// [`start_process`] for a process whose name is given by its bytes.
pub fn start_named(sched: &mut Scheduler, pid: u32, entry: u64, name: &[u8])
    requires
        old(sched).wf(),
        pid < MAX_PROCESSES,
    ensures
        final(sched).wf(),
        final(sched).cur() == old(sched).cur(),
        final(sched).enabled() == old(sched).enabled(),
        final(sched).kstacks_at() == old(sched).kstacks_at(),
        forall|i: int|
            0 <= i < 16 && i != pid ==> #[trigger] final(sched).table()[i] == old(sched).table()[i],
        ({
            let p = final(sched).table()[pid as int];
            &&& p.pid == pid
            &&& p.state == State::Ready
            &&& p.kernel_stack_top == old(sched).kstack_top(pid as int)
            &&& p.ctx == old(sched).kstack_top(pid as int) - 192
            &&& p.ctx % 16 == 0
            &&& p.name@ == stored_name(name@)
            &&& final(sched).frame_words(p.ctx as int) == initial_frame(pid, entry).words()
            &&& forall|w: int|
                0 <= w < 16 * 2048 && !(p.ctx <= old(sched).kstacks_at() + w * 8 < p.ctx
                    + FRAME_BYTES) ==> #[trigger] final(sched).kstack_words()[w] == old(sched).kstack_words()[w]
        }),
        final(sched).kstack_words().len() == old(sched).kstack_words().len(),
{
    let slot = pid as usize;
    let stack_base = sched.stacks_at + slot as u64 * KSTACK_SIZE;
    let stack_top = stack_base + KSTACK_SIZE;
    // The initial frame sits just below the top of the kernel stack, on a
    // 16-byte boundary; the process is entered by resuming it.
    let below = stack_top - FRAME_BYTES;
    let frame_addr = below - below % 16;
    let frame = InterruptFrame {
        rsp: 0,
        r15: 0,
        r14: 0,
        r13: 0,
        r12: 0,
        r11: 0,
        r10: 0,
        r9: 0,
        r8: 0,
        rbp: 0,
        rdi: pid as u64,
        rsi: 0,
        rdx: 0,
        rcx: 0,
        rbx: 0,
        rax: 0,
        vector: 0,
        error_code: 0,
        rip: entry,
        cs: tss::USER_CODE64_SELECTOR as u64,
        rflags: 0x202,  // IF + reserved bit 1
        user_rsp: user_stack_top(pid),
        user_ss: tss::USER_DATA_SELECTOR as u64,
    };
    let words = frame.to_words();
    let first = ((frame_addr - sched.stacks_at) / 8) as usize;
    let ghost old_words = sched.stacks@;
    proof {
        assert(frame_addr == stack_top - 192);
        assert(first == slot * 2048 + 2024);
    }
    let mut i: usize = 0;
    while i < FRAME_REGISTERS
        invariant
            i <= FRAME_REGISTERS,
            first == slot * 2048 + 2024,
            slot < 16,
            sched.stacks@.len() == 16 * 2048,
            old_words.len() == 16 * 2048,
            sched.stacks_at == old(sched).stacks_at,
            sched.processes == old(sched).processes,
            sched.current == old(sched).current,
            sched.scheduling == old(sched).scheduling,
            forall|w: int|
                0 <= w < 16 * 2048 ==> #[trigger] sched.stacks@[w] == (if first <= w < first + i {
                    words@[w - first]
                } else {
                    old_words[w]
                }),
        decreases FRAME_REGISTERS - i,
    {
        sched.stacks.write(first + i, words[i]);
        i = i + 1;
    }
    let bytes = name;
    let mut nb: [u8; 16] = [0; 16];
    let mut k: usize = 0;
    while k < 15 && k < bytes.len()
        invariant
            k <= 15,
            k <= bytes@.len(),
            forall|j: int| 0 <= j < k ==> nb@[j] == bytes@[j],
            forall|j: int| k <= j < 16 ==> nb@[j] == 0,
        decreases 15 - k,
    {
        nb[k] = bytes[k];
        k = k + 1;
    }
    assert(nb@ =~= stored_name(bytes@));
    sched.processes[slot] = Process {
        pid,
        state: State::Ready,
        kernel_stack_top: stack_top,
        ctx: frame_addr,
        name: nb,
    };
    assert(sched.frame_words(frame_addr as int) =~= frame.words());
}

/// Process `pid` can be killed: it is alive, and not idle.
pub open spec fn killable(table: Seq<Process>, pid: u32) -> bool {
    0 < pid < 16 && table[pid as int].live()
}

/// What killing process `pid` does: a process that can be killed becomes a
/// zombie, and nothing else changes.
pub open spec fn after_kill(a: Scheduler, b: Scheduler, pid: u32) -> bool {
    &&& b.wf()
    &&& b.cur() == a.cur()
    &&& b.enabled() == a.enabled()
    &&& b.kstacks_at() == a.kstacks_at()
    &&& b.kstack_words() == a.kstack_words()
    &&& b.table() == (if killable(a.table(), pid) {
        a.table().update(pid as int, a.table()[pid as int].with_state(State::Zombie))
    } else {
        a.table()
    })
}

/// Mark `pid` for termination. Returns `false` for pid 0, unknown pids and
/// already-dead ones. A zombie is skipped by the scheduler and its slot is
/// reusable by the next [`start_process`].
pub fn kill(sched: &mut Scheduler, pid: u32) -> (r: bool)
    requires
        old(sched).wf(),
    ensures
        r == killable(old(sched).table(), pid),
        after_kill(*old(sched), *final(sched), pid),
{
    if pid == 0 || pid as usize >= MAX_PROCESSES {
        return false;
    }
    let slot = pid as usize;
    let state = sched.processes[slot].state;
    if state == State::Zombie || state == State::Unused {
        return false;
    }
    sched.processes[slot].state = State::Zombie;
    assert(sched.table() =~= old(sched).table().update(
        pid as int,
        old(sched).table()[pid as int].with_state(State::Zombie),
    ));
    true
}

/// The pid of the process currently on the CPU.
pub fn current_pid(sched: &Scheduler) -> (r: u32)
    requires
        sched.wf(),
    ensures
        r == sched.table()[sched.cur()].pid,
        r == sched.cur(),
{
    sched.processes[sched.current].pid
}

/// Fill `buf` with one entry per live process. Returns the count.
pub fn snapshot(sched: &Scheduler, buf: &mut [ProcDesc]) -> (r: usize)
    ensures
        final(buf)@.len() == old(buf)@.len(),
        r == (if live_list(sched.table(), 16).len() < old(buf)@.len() {
            live_list(sched.table(), 16).len() as int
        } else {
            old(buf)@.len() as int
        }),
        forall|i: int| 0 <= i < r ==> #[trigger] final(buf)@[i] == live_list(sched.table(), 16)[i],
        forall|i: int|
            r <= i < old(buf)@.len() ==> #[trigger] final(buf)@[i] == old(buf)@[i],
{
    let mut n: usize = 0;
    let mut i: usize = 0;
    while i < MAX_PROCESSES
        invariant
            i <= 16,
            buf@.len() == old(buf)@.len(),
            n <= buf@.len(),
            n == (if live_list(sched.table(), i as int).len() < buf@.len() {
                live_list(sched.table(), i as int).len() as int
            } else {
                buf@.len() as int
            }),
            forall|j: int|
                0 <= j < n ==> #[trigger] buf@[j] == live_list(sched.table(), i as int)[j],
            forall|j: int| n <= j < old(buf)@.len() ==> #[trigger] buf@[j] == old(buf)@[j],
        decreases 16 - i,
    {
        let p = sched.processes[i];
        if p.state != State::Unused && p.state != State::Zombie && n < buf.len() {
            buf[n] = ProcDesc { pid: p.pid, running: p.state == State::Running, name: p.name };
            n = n + 1;
        }
        i = i + 1;
    }
    n
}

/// The next ready process after the current one, if any.
pub fn pick_next_other(sched: &Scheduler) -> (r: Option<usize>)
    requires
        sched.wf(),
    ensures
        r is None <==> no_other_ready(sched.table(), sched.cur()),
        r matches Some(idx) ==> idx < 16 && idx != sched.cur() && is_next_ready(
            sched.table(),
            sched.cur(),
            idx as int,
        ),
{
    let cur = sched.current;
    let mut i: usize = 1;
    while i < MAX_PROCESSES
        invariant
            1 <= i <= 16,
            cur < 16,
            cur == sched.cur(),
            forall|j: int|
                1 <= j < i ==> sched.table()[#[trigger] turn(cur as int, j)].state != State::Ready,
        decreases 16 - i,
    {
        let idx = (cur + i) % MAX_PROCESSES;
        assert(idx == turn(cur as int, i as int));
        if sched.processes[idx].state == State::Ready {
            return Some(idx);
        }
        i = i + 1;
    }
    None
}

/// Commit to running process `idx`: mark it Running and make it current.
fn do_switch(sched: &mut Scheduler, idx: usize) -> (r: Switch)
    requires
        old(sched).wf(),
        idx < 16,
        forall|i: int| 0 <= i < 16 ==> (#[trigger] old(sched).table()[i]).state != State::Running,
        old(sched).table()[idx as int].state == State::Ready,
    ensures
        final(sched).wf(),
        final(sched).cur() == idx,
        final(sched).enabled() == old(sched).enabled(),
        final(sched).kstacks_at() == old(sched).kstacks_at(),
        final(sched).kstack_words() == old(sched).kstack_words(),
        final(sched).table() == old(sched).table().update(
            idx as int,
            old(sched).table()[idx as int].with_state(State::Running),
        ),
        r.ctx == old(sched).table()[idx as int].ctx,
        r.rsp0 == old(sched).table()[idx as int].kernel_stack_top,
{
    sched.processes[idx].state = State::Running;
    sched.current = idx;
    assert(sched.table() =~= old(sched).table().update(
        idx as int,
        old(sched).table()[idx as int].with_state(State::Running),
    ));
    Switch { ctx: sched.processes[idx].ctx, rsp0: sched.processes[idx].kernel_stack_top }
}

/// The table once the current process has been set aside, ready, with its
/// frame at `frame_addr`. A zombie is left as it is.
pub open spec fn set_aside(table: Seq<Process>, cur: int, frame_addr: u64) -> Seq<Process> {
    if table[cur].state == State::Zombie {
        table
    } else {
        table.update(cur, table[cur].with_state(State::Ready).saved_at(frame_addr))
    }
}

/// The table once the current process, set aside before, goes on. A zombie
/// is left as it is.
pub open spec fn taken_up(table: Seq<Process>, cur: int) -> Seq<Process> {
    if table[cur].state == State::Zombie {
        table
    } else {
        table.update(cur, table[cur].with_state(State::Running))
    }
}

/// What giving up the CPU does: the next ready process runs, or the current
/// one goes on where no other is ready.
pub open spec fn handed_over(
    a: Scheduler,
    b: Scheduler,
    frame_addr: u64,
    r: Option<Switch>,
) -> bool {
    let aside = set_aside(a.table(), a.cur(), frame_addr);
    &&& b.wf()
    &&& b.enabled() == a.enabled()
    &&& b.kstacks_at() == a.kstacks_at()
    &&& b.kstack_words() == a.kstack_words()
    &&& r is None <==> no_other_ready(a.table(), a.cur())
    &&& r is None ==> b.cur() == a.cur() && b.table() == taken_up(aside, a.cur())
    &&& r matches Some(switch) ==> {
        &&& b.cur() != a.cur()
        &&& is_next_ready(a.table(), a.cur(), b.cur())
        &&& b.table() == aside.update(b.cur(), aside[b.cur()].with_state(State::Running))
        &&& switch.ctx == a.table()[b.cur()].ctx
        &&& switch.rsp0 == a.table()[b.cur()].kernel_stack_top
    }
}

/// Setting the current process aside changes nothing for the others.
proof fn lemma_set_aside(table: Seq<Process>, cur: int, frame_addr: u64)
    requires
        table.len() == 16,
        0 <= cur < 16,
    ensures
        no_other_ready(set_aside(table, cur, frame_addr), cur) == no_other_ready(table, cur),
        forall|idx: int|
            #![trigger is_next_ready(table, cur, idx)]
            0 <= idx < 16 && idx != cur && is_next_ready(
                set_aside(table, cur, frame_addr),
                cur,
                idx,
            ) ==> is_next_ready(table, cur, idx),
{
    let aside = set_aside(table, cur, frame_addr);
    assert forall|i: int| 1 <= i < 16 implies aside[#[trigger] turn(cur, i)] == table[turn(
        cur,
        i,
    )] by {
        assert(turn(cur, i) != cur);
    }
    if no_other_ready(aside, cur) {
        assert forall|i: int| 1 <= i < 16 implies table[#[trigger] turn(cur, i)].state
            != State::Ready by {
            assert(aside[turn(cur, i)].state != State::Ready);
        }
    }
    if no_other_ready(table, cur) {
        assert forall|i: int| 1 <= i < 16 implies aside[#[trigger] turn(cur, i)].state
            != State::Ready by {
            assert(table[turn(cur, i)].state != State::Ready);
        }
    }
    assert forall|idx: int|
        #![trigger is_next_ready(table, cur, idx)]
        0 <= idx < 16 && idx != cur && is_next_ready(aside, cur, idx) implies is_next_ready(
        table,
        cur,
        idx,
    ) by {
        let i = choose|i: int|
            1 <= i < 16 && #[trigger] turn(cur, i) == idx && aside[idx].state == State::Ready
                && forall|j: int|
                1 <= j < i ==> aside[#[trigger] turn(cur, j)].state != State::Ready;
        assert(turn(cur, i) == idx);
        assert forall|j: int| 1 <= j < i implies table[#[trigger] turn(cur, j)].state
            != State::Ready by {
            assert(aside[turn(cur, j)].state != State::Ready);
        }
    }
}

/// Set the current process aside and hand the CPU to the next ready one.
fn hand_over(sched: &mut Scheduler, frame_addr: u64) -> (r: Option<Switch>)
    requires
        old(sched).wf(),
    ensures
        handed_over(*old(sched), *final(sched), frame_addr, r),
{
    let cur = sched.current;
    proof {
        lemma_set_aside(sched.table(), cur as int, frame_addr);
    }
    let zombie = sched.processes[cur].state == State::Zombie;
    if !zombie {
        sched.processes[cur].state = State::Ready;
        sched.processes[cur].ctx = frame_addr;
    }
    assert(sched.table() =~= set_aside(old(sched).table(), cur as int, frame_addr));
    match pick_next_other(sched) {
        Some(next) => {
            assert(is_next_ready(old(sched).table(), cur as int, next as int));
            Some(do_switch(sched, next))
        },
        None => {
            // No other ready process: keep running.
            let ghost aside = sched.table();
            if !zombie {
                sched.processes[cur].state = State::Running;
            }
            assert(sched.table() =~= taken_up(aside, cur as int));
            None
        },
    }
}

/// PIT tick: preempt the current process, whose frame is at `frame_addr`,
/// unless nothing else is ready.
pub fn on_tick(sched: &mut Scheduler, frame_addr: u64) -> (r: Option<Switch>)
    requires
        old(sched).wf(),
    ensures
        handed_over(*old(sched), *final(sched), frame_addr, r),
{
    hand_over(sched, frame_addr)
}

/// `SYS_YIELD`: give up the rest of the timeslice voluntarily.
pub fn yield_now(sched: &mut Scheduler, frame_addr: u64) -> (r: Option<Switch>)
    requires
        old(sched).wf(),
    ensures
        handed_over(*old(sched), *final(sched), frame_addr, r),
{
    hand_over(sched, frame_addr)
}

/// `SYS_EXIT`: mark the current process dead; it is never resumed.
pub fn exit_current(sched: &mut Scheduler) -> (r: Switch)
    requires
        old(sched).wf(),
        !no_other_ready(old(sched).table(), old(sched).cur()),
    ensures
        final(sched).wf(),
        final(sched).enabled() == old(sched).enabled(),
        final(sched).kstacks_at() == old(sched).kstacks_at(),
        final(sched).kstack_words() == old(sched).kstack_words(),
        final(sched).cur() != old(sched).cur(),
        is_next_ready(old(sched).table(), old(sched).cur(), final(sched).cur()),
        final(sched).table() == old(sched).table().update(
            old(sched).cur(),
            old(sched).table()[old(sched).cur()].with_state(State::Zombie),
        ).update(
            final(sched).cur(),
            old(sched).table()[final(sched).cur()].with_state(State::Running),
        ),
        r.ctx == old(sched).table()[final(sched).cur()].ctx,
        r.rsp0 == old(sched).table()[final(sched).cur()].kernel_stack_top,
{
    let cur = sched.current;
    let next = match pick_next_other(sched) {
        Some(next) => next,
        None => 0,
    };
    sched.processes[cur].state = State::Zombie;
    assert(sched.table() =~= old(sched).table().update(
        cur as int,
        old(sched).table()[cur as int].with_state(State::Zombie),
    ));
    do_switch(sched, next)
}

// ---------------------------------------------------------------------------
// Laws
// ---------------------------------------------------------------------------

/// How many turns slot `idx` is after slot `cur`.
pub open spec fn distance(cur: int, idx: int) -> int {
    (idx - cur) % 16
}

/// Round robin: a tick brings every waiting process nearer to the CPU.
pub proof fn law_every_ready_process_gets_nearer(
    a: Scheduler,
    b: Scheduler,
    frame_addr: u64,
    r: Option<Switch>,
    idx: int,
)
    requires
        a.wf(),
        handed_over(a, b, frame_addr, r),
        0 <= idx < 16,
        idx != a.cur(),
        a.table()[idx].state == State::Ready,
    ensures
        r is Some,
        b.cur() == idx || b.table()[idx].state == State::Ready && distance(b.cur(), idx) < distance(
            a.cur(),
            idx,
        ),
{
    let cur = a.cur();
    let d = distance(cur, idx);
    assert(turn(cur, d) == idx);
    if r is None {
        assert(a.table()[turn(cur, d)].state != State::Ready);
    }
    let i = choose|i: int|
        1 <= i < 16 && #[trigger] turn(cur, i) == b.cur() && a.table()[b.cur()].state
            == State::Ready && forall|j: int|
            1 <= j < i ==> a.table()[#[trigger] turn(cur, j)].state != State::Ready;
    if i > d {
        assert(a.table()[turn(cur, d)].state != State::Ready);
    }
}

/// What is not ready is not switched to: the process that a tick switches to
/// was ready, so no zombie is resumed, and a zombie stays one.
pub proof fn law_zombies_are_not_resumed(
    a: Scheduler,
    b: Scheduler,
    frame_addr: u64,
    r: Option<Switch>,
)
    requires
        a.wf(),
        handed_over(a, b, frame_addr, r),
    ensures
        r is Some ==> a.table()[b.cur()].state == State::Ready,
        forall|i: int|
            0 <= i < 16 && (#[trigger] a.table()[i]).state == State::Zombie
                ==> b.table()[i].state == State::Zombie && (r is Some ==> i != b.cur()),
{
}

/// Every ready process runs within 15 ticks: among the states that the ticks
/// go through there is one in which it is on the CPU.
pub proof fn law_ready_process_runs_within_15_ticks(
    states: Seq<Scheduler>,
    frames: Seq<u64>,
    switches: Seq<Option<Switch>>,
    idx: int,
) -> (k: int)
    requires
        states.len() > distance(states[0].cur(), idx),
        frames.len() == states.len() - 1,
        switches.len() == states.len() - 1,
        states[0].wf(),
        forall|i: int|
            0 <= i < states.len() - 1 ==> (#[trigger] states[i]).wf() && handed_over(
                states[i],
                states[i + 1],
                frames[i],
                switches[i],
            ),
        0 <= idx < 16,
        idx != states[0].cur(),
        states[0].table()[idx].state == State::Ready,
    ensures
        0 < k <= distance(states[0].cur(), idx) <= 15,
        states[k].cur() == idx,
    decreases states.len(),
{
    let a = states[0];
    let b = states[1];
    assert(0 < distance(a.cur(), idx) < 16);
    assert(a.wf() && handed_over(a, b, frames[0], switches[0]));
    law_every_ready_process_gets_nearer(a, b, frames[0], switches[0], idx);
    if b.cur() == idx {
        1
    } else {
        let rest = states.skip(1);
        assert forall|i: int| 0 <= i < rest.len() - 1 implies (#[trigger] rest[i]).wf()
            && handed_over(rest[i], rest[i + 1], frames.skip(1)[i], switches.skip(1)[i]) by {
            assert(states[i + 1].wf());
            assert(frames.skip(1)[i] == frames[i + 1]);
            assert(switches.skip(1)[i] == switches[i + 1]);
        }
        let k = law_ready_process_runs_within_15_ticks(
            rest,
            frames.skip(1),
            switches.skip(1),
            idx,
        );
        assert(states[k + 1] == rest[k]);
        k + 1
    }
}

/// A killed process is skipped by the scheduler, and its slot is free.
pub proof fn law_killed_slot_is_free(a: Scheduler, b: Scheduler, pid: u32)
    requires
        after_kill(a, b, pid),
        killable(a.table(), pid),
    ensures
        !b.table()[pid as int].live(),
        !is_next_ready(b.table(), b.cur(), pid as int),
        !killable(b.table(), pid),
{
}

/// While idle is alive, a process that is not idle can give up the CPU for
/// good: there is always another to run.
pub proof fn law_idle_is_the_fallback(sched: Scheduler)
    requires
        sched.wf(),
        sched.cur() != 0,
        sched.table()[0].live(),
    ensures
        !no_other_ready(sched.table(), sched.cur()),
{
    let cur = sched.cur();
    assert(sched.table()[0].state == State::Ready);
    assert(turn(cur, 16 - cur) == 0);
}

/// Handing over the CPU keeps every process alive.
pub proof fn law_handing_over_keeps_processes(
    a: Scheduler,
    b: Scheduler,
    frame_addr: u64,
    r: Option<Switch>,
    i: int,
)
    requires
        a.wf(),
        handed_over(a, b, frame_addr, r),
        0 <= i < 16,
        a.table()[i].live(),
    ensures
        b.table()[i].live(),
{
}

/// The kernel stack of a process, with its initial frame, lies apart from
/// those of the others.
pub proof fn law_kernel_stacks_are_disjoint(sched: Scheduler, p: int, q: int)
    requires
        sched.wf(),
        0 <= p < q < 16,
    ensures
        sched.kstack_top(p) <= sched.kstack_top(q) - KSTACK_SIZE,
        sched.kstack_top(p) - KSTACK_SIZE <= sched.kstack_top(p) - 192,
        sched.kstack_top(p) - 192 + FRAME_BYTES <= sched.kstack_top(p),
{
}

/// A process starts with its stack pointer at the end of the stack page in its
/// own region: the 4 KiB below it lie 1 MiB into the 2 MiB that the process
/// number gives.
pub proof fn law_process_starts_on_its_own_stack(pid: u32, entry: u64)
    ensures
        initial_frame(pid, entry).user_rsp == PROC_BASE + pid * PROC_STRIDE + PROC_STACK_OFFSET
            + 4096,
        initial_frame(pid, entry).user_rsp == 0x8000_0000 + pid * 0x20_0000 + 0x10_1000,
        PROC_BASE + pid * PROC_STRIDE <= initial_frame(pid, entry).user_rsp - 4096,
        initial_frame(pid, entry).user_rsp <= PROC_BASE + (pid + 1) * PROC_STRIDE,
        initial_frame(pid, entry).user_rsp % 16 == 0,
{
}

/// The stacks that two processes start on share no byte.
pub proof fn law_initial_stacks_are_disjoint(p: u32, q: u32, entry: u64, other: u64)
    requires
        p < q,
    ensures
        initial_frame(p, entry).user_rsp <= initial_frame(q, other).user_rsp - 0x20_0000,
{
}

/// A process is entered in ring 3 at its entry, with interrupts on and no
/// right to the ports, and finds its number in `rdi`, and zeroes in the other
/// registers.
pub proof fn law_process_is_entered_in_ring_3(pid: u32, entry: u64)
    ensures
        ({
            let f = initial_frame(pid, entry);
            &&& f.rip == entry
            &&& f.rdi == pid
            &&& f.cs % 4 == 3
            &&& f.user_ss % 4 == 3
            &&& f.cs / 8 != f.user_ss / 8
            &&& (f.rflags / 0x200) % 2 == 1
            &&& (f.rflags / 2) % 2 == 1
            &&& (f.rflags / 0x1000) % 4 == 0
            &&& f.rax == 0 && f.rbx == 0 && f.rcx == 0 && f.rdx == 0 && f.rsi == 0 && f.rbp == 0
            &&& f.r8 == 0 && f.r9 == 0 && f.r10 == 0 && f.r11 == 0
            &&& f.r12 == 0 && f.r13 == 0 && f.r14 == 0 && f.r15 == 0
            &&& f.vector == 0 && f.error_code == 0
        }),
{
}

/// A name is stored as far as 15 bytes reach, with zeroes behind it, so that
/// names that differ in those bytes are stored differently.
pub proof fn law_names_are_kept(name: Seq<u8>, other: Seq<u8>)
    ensures
        stored_name(name).len() == 16,
        name.len() <= 15 ==> stored_name(name).take(name.len() as int) == name,
        name.len() > 15 ==> stored_name(name).take(15) == name.take(15),
        forall|i: int|
            name.len() <= i < 16 || i == 15 ==> #[trigger] stored_name(name)[i] == 0,
        name.len() == other.len() <= 15 && stored_name(name) == stored_name(other) ==> name
            == other,
{
    assert(name.len() <= 15 ==> stored_name(name).take(name.len() as int) =~= name);
    assert(name.len() > 15 ==> stored_name(name).take(15) =~= name.take(15));
    if name.len() == other.len() <= 15 && stored_name(name) == stored_name(other) {
        assert(stored_name(other).take(other.len() as int) =~= other);
    }
}

/// The idle process goes by the name of `idle`.
pub proof fn law_idle_name()
    ensures
        idle_name() == stored_name(seq!['i' as u8, 'd' as u8, 'l' as u8, 'e' as u8]),
{
    assert(idle_name() =~= stored_name(seq!['i' as u8, 'd' as u8, 'l' as u8, 'e' as u8]));
}

/// Any process but idle can be killed while it is ready or running, and then
/// is a zombie: killed once, it cannot be killed again, and every other process
/// is as it was.
pub proof fn law_kill_ends_one_process(a: Scheduler, b: Scheduler, pid: u32)
    requires
        after_kill(a, b, pid),
    ensures
        killable(a.table(), pid) <==> pid != 0 && pid <= 15 && (a.table()[pid as int].state
            == State::Ready || a.table()[pid as int].state == State::Running),
        killable(a.table(), pid) ==> b.table()[pid as int].state == State::Zombie,
        !killable(b.table(), pid),
        forall|i: int| 0 <= i < 16 && i != pid ==> #[trigger] b.table()[i] == a.table()[i],
        !killable(a.table(), pid) ==> b.table() == a.table(),
{
}

/// The process that gives up the CPU comes back where it was: its frame is the
/// one that it was interrupted with, and its stack and name are kept. No other
/// process loses its frame.
pub proof fn law_interrupted_process_resumes_where_it_was(
    a: Scheduler,
    b: Scheduler,
    frame_addr: u64,
    r: Option<Switch>,
    i: int,
)
    requires
        a.wf(),
        handed_over(a, b, frame_addr, r),
        0 <= i < 16,
    ensures
        a.table()[a.cur()].state != State::Zombie ==> b.table()[a.cur()].ctx == frame_addr,
        a.table()[a.cur()].live() && r is Some ==> b.table()[a.cur()].state == State::Ready,
        a.table()[a.cur()].live() && r is None ==> b.table()[a.cur()].state == State::Running,
        i != a.cur() ==> b.table()[i].ctx == a.table()[i].ctx,
        b.table()[i].pid == a.table()[i].pid,
        b.table()[i].kernel_stack_top == a.table()[i].kernel_stack_top,
        b.table()[i].name == a.table()[i].name,
        r is Some ==> b.table()[b.cur()].state == State::Running && b.cur() != a.cur(),
        r matches Some(s) ==> s.ctx == b.table()[b.cur()].ctx && s.rsp0
            == b.table()[b.cur()].kernel_stack_top,
        i != a.cur() && i != b.cur() ==> b.table()[i] == a.table()[i],
{
}

/// `ps` shows every live process once, in the order of the slots, under its
/// number and name, and shows as running the one on the CPU.
pub proof fn law_ps_shows_live_processes(sched: Scheduler, n: int)
    requires
        sched.wf(),
        0 <= n <= 16,
    ensures
        ({
            let list = live_list(sched.table(), n);
            &&& forall|j: int|
                0 <= j < list.len() ==> {
                    let p = #[trigger] list[j];
                    &&& p.pid < n
                    &&& sched.table()[p.pid as int].state == State::Ready
                        || sched.table()[p.pid as int].state == State::Running
                    &&& p.name == sched.table()[p.pid as int].name
                    &&& p.running ==> p.pid == sched.cur()
                    &&& p.running <==> sched.table()[p.pid as int].state == State::Running
                }
            &&& forall|i: int|
                0 <= i < n && (#[trigger] sched.table()[i]).live() ==> exists|j: int|
                    0 <= j < list.len() && (#[trigger] list[j]).pid == i
            &&& forall|i: int, j: int|
                0 <= i < j < list.len() ==> (#[trigger] list[i]).pid < (#[trigger] list[j]).pid
        }),
    decreases n,
{
    if n > 0 {
        law_ps_shows_live_processes(sched, n - 1);
        let rest = live_list(sched.table(), n - 1);
        let list = live_list(sched.table(), n);
        let last = sched.table()[n - 1];
        assert forall|i: int|
            0 <= i < n && (#[trigger] sched.table()[i]).live() implies exists|j: int|
            0 <= j < list.len() && (#[trigger] list[j]).pid == i by {
            if i == n - 1 {
                assert(list[list.len() - 1].pid == i);
            } else {
                let j = choose|j: int| 0 <= j < rest.len() && (#[trigger] rest[j]).pid == i;
                assert(list[j].pid == i);
            }
        }
        assert forall|j: int| 0 <= j < list.len() implies {
            let p = #[trigger] list[j];
            &&& p.pid < n
            &&& sched.table()[p.pid as int].state == State::Ready || sched.table()[p.pid as int].state
                == State::Running
            &&& p.name == sched.table()[p.pid as int].name
            &&& p.running ==> p.pid == sched.cur()
            &&& p.running <==> sched.table()[p.pid as int].state == State::Running
        } by {
            if j < rest.len() {
                assert(list[j] == rest[j]);
            }
        }
        assert forall|i: int, j: int| 0 <= i < j < list.len() implies (#[trigger] list[i]).pid < (
        #[trigger] list[j]).pid by {
            assert(list[i] == rest[i]);
            if j < rest.len() {
                assert(list[j] == rest[j]);
            }
        }
    }
}

} // verus!
