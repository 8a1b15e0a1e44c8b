//! Ring-3 user mode: `int 0x80` syscalls for the scheduler's processes.
//!
//! A process is entered by its initial frame (see
//! [`crate::sched::start_process`]); from there it issues syscalls via
//! `int 0x80` (gate DPL 3, vector 0x80):
//!   * [`SYS_PUTC`] (rax=0, rdi=byte): write a byte to the registered console.
//!   * [`SYS_GETC`] (rax=1): non-blocking keyboard poll; `u64::MAX` = none.
//!   * [`SYS_EXIT`] (rax=2): mark the process dead ([`crate::sched`]).
//!   * [`SYS_GETPID`] (rax=3): return the process id.
//!   * [`SYS_YIELD`] (rax=4): give up the rest of the timeslice.

use crate::idt::InterruptFrame;
use crate::keyboard::{poll_char, Keyboard};
use crate::sched::{self, current_pid, exit_current, yield_now, Scheduler, Switch};
use vstd::prelude::*;

verus! {

pub const SYS_PUTC: u64 = 0;

pub const SYS_GETC: u64 = 1;

pub const SYS_EXIT: u64 = 2;

pub const SYS_GETPID: u64 = 3;

pub const SYS_YIELD: u64 = 4;

/// What a syscall returns for "none" and for an unknown number.
pub const NONE: u64 = 0xffff_ffff_ffff_ffff;

/// The byte sink [`SYS_PUTC`] writes to: its address, or 0.
pub struct Console {
    pub(crate) sink: u64,
}

impl Console {
    /// The registered sink, if any.
    pub open(crate) spec fn sink(&self) -> Option<u64> {
        if self.sink != 0 {
            Some(self.sink)
        } else {
            None
        }
    }

    /// No sink is registered.
    pub fn new() -> (r: Console)
        ensures
            r.sink() is None,
    {
        Console { sink: 0 }
    }
}

/// Register the byte sink [`SYS_PUTC`] writes to (e.g. the boot COM1 port).
/// Boot-only, once, before any user process can run.
pub fn set_console(console: &mut Console, sink: u64)
    requires
        sink != 0,
    ensures
        final(console).sink() == Some(sink),
{
    console.sink = sink;
}

/// What is left to do for a syscall.
#[derive(Clone, Copy, PartialEq, Eq, Debug, Structural)]
pub enum SyscallAction {
    /// Return to the process.
    Resume,
    /// Hand the byte to the sink, then return to the process.
    Emit(u64, u8),
    /// Switch to another process.
    Switch(Switch),
}

/// Dispatches `int 0x80` from ring 3. Runs in interrupt-gate context (IF=0);
/// `frame` is the frame of the calling process, at `frame_addr`.
pub fn handle_syscall(
    frame: &mut InterruptFrame,
    frame_addr: u64,
    sched: &mut Scheduler,
    kbd: &mut Keyboard,
    console: &Console,
) -> (r: SyscallAction)
    requires
        old(sched).wf(),
        old(kbd).wf(),
        old(frame).rax == SYS_EXIT ==> !sched::no_other_ready(
            old(sched).table(),
            old(sched).cur(),
        ),
    ensures
        final(sched).wf(),
        final(sched).enabled() == old(sched).enabled(),
        final(sched).kstacks_at() == old(sched).kstacks_at(),
        final(sched).kstack_words() == old(sched).kstack_words(),
        final(kbd).wf(),
        final(kbd).keys() == old(kbd).keys(),
        *final(frame) == (InterruptFrame { rax: final(frame).rax, ..*old(frame) }),
        final(frame).rax == (if old(frame).rax == SYS_GETC {
            if old(kbd).queue().len() > 0 {
                old(kbd).queue()[0] as u64
            } else {
                NONE
            }
        } else if old(frame).rax == SYS_GETPID {
            old(sched).cur() as u64
        } else if old(frame).rax > SYS_YIELD {
            NONE
        } else {
            old(frame).rax
        }),
        final(kbd).queue() == (if old(frame).rax == SYS_GETC && old(kbd).queue().len() > 0 {
            old(kbd).queue().drop_first()
        } else {
            old(kbd).queue()
        }),
        old(frame).rax != SYS_EXIT && old(frame).rax != SYS_YIELD ==> *final(sched) == *old(sched),
        old(frame).rax == 1 ==> (final(frame).rax == u64::MAX <==> old(kbd).queue().len() == 0),
        old(frame).rax == 1 && old(kbd).queue().len() > 0 ==> final(frame).rax
            == old(kbd).queue().first(),
        old(frame).rax == 3 ==> final(frame).rax == old(sched).cur() && final(frame).rax < 16,
        old(frame).rax >= 5 ==> final(frame).rax == u64::MAX,
        old(frame).rax == 0 || old(frame).rax == 2 || old(frame).rax == 4 ==> final(frame).rax
            == old(frame).rax,
        old(frame).rax == 2 ==> final(sched).table()[old(sched).cur()].state
            == sched::State::Zombie && r is Switch,
        old(frame).rax == 0 && console.sink() is Some ==> (r matches SyscallAction::Emit(s, b)
            && Some(s) == console.sink() && b == old(frame).rdi % 256),
        old(frame).rax == SYS_PUTC ==> r == (match console.sink() {
            Some(sink) => SyscallAction::Emit(sink, (old(frame).rdi % 256) as u8),
            None => SyscallAction::Resume,
        }),
        old(frame).rax == SYS_GETC || old(frame).rax == SYS_GETPID || old(frame).rax > SYS_YIELD
            ==> r == SyscallAction::Resume,
        old(frame).rax == SYS_YIELD ==> sched::handed_over(
            *old(sched),
            *final(sched),
            frame_addr,
            match r {
                SyscallAction::Switch(s) => Some(s),
                _ => None,
            },
        ) && !(r is Emit),
        old(frame).rax == SYS_EXIT ==> {
            &&& sched::is_next_ready(old(sched).table(), old(sched).cur(), final(sched).cur())
            &&& final(sched).table() == old(sched).table().update(
                old(sched).cur(),
                old(sched).table()[old(sched).cur()].with_state(sched::State::Zombie),
            ).update(
                final(sched).cur(),
                old(sched).table()[final(sched).cur()].with_state(sched::State::Running),
            )
            &&& r == SyscallAction::Switch(
                (Switch {
                    ctx: old(sched).table()[final(sched).cur()].ctx,
                    rsp0: old(sched).table()[final(sched).cur()].kernel_stack_top,
                }),
            )
        },
{
    match frame.rax {
        SYS_PUTC => {
            if console.sink != 0 {
                SyscallAction::Emit(console.sink, (frame.rdi % 256) as u8)
            } else {
                SyscallAction::Resume
            }
        },
        SYS_GETC => {
            frame.rax = match poll_char(kbd) {
                Some(c) => c as u64,
                None => NONE,
            };
            SyscallAction::Resume
        },
        SYS_EXIT => SyscallAction::Switch(exit_current(sched)),
        SYS_GETPID => {
            frame.rax = current_pid(sched) as u64;
            SyscallAction::Resume
        },
        SYS_YIELD => {
            match yield_now(sched, frame_addr) {
                Some(switch) => SyscallAction::Switch(switch),
                None => SyscallAction::Resume,
            }
        },
        _ => {
            frame.rax = NONE;
            SyscallAction::Resume
        },
    }
}

} // verus!
