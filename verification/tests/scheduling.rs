use rolnix_kernel::memory::Memory;
use rolnix_kernel::sched::{
    current_pid, exit_current, free_slot, init_idle, kill, on_tick, pick_next_other, snapshot,
    start_process, user_code_va, user_stack_top, yield_now, ProcDesc, Scheduler, State,
    MAX_PROCESSES,
};
use rolnix_kernel::tss::{USER_CODE64_SELECTOR, USER_DATA_SELECTOR};

const STACKS: u64 = 0x10_0000;

fn reset() -> Scheduler {
    Scheduler::new(Memory::zeroed(16 * 2048), STACKS)
}

fn blank() -> [ProcDesc; 16] {
    [ProcDesc { pid: 0, running: false, name: [0; 16] }; 16]
}

#[test]
fn idle_is_slot_zero() {
    let mut sched = reset();
    init_idle(&mut sched, 0x1000);
    let mut buf = blank();
    let n = snapshot(&sched, &mut buf);
    assert_eq!(n, 1);
    assert_eq!(buf[0].pid, 0);
    assert_eq!(core::str::from_utf8(&buf[0].name).unwrap(), "idle\0\0\0\0\0\0\0\0\0\0\0\0");
}

#[test]
fn start_process_assigns_stacks_and_frame() {
    let mut sched = reset();
    let pid = free_slot(&sched).expect("free slot");
    assert_eq!(pid, 1);
    start_process(&mut sched, pid, 0x8000_0000, "demo");
    assert_eq!(user_code_va(1), 0x8020_0000);
    assert_eq!(user_code_va(2), 0x8040_0000);

    let p = *sched.process(pid as usize);
    assert_eq!(p.state, State::Ready);
    assert!(p.kernel_stack_top > 0);
    // The initial frame is a valid iretq tail into ring 3.
    assert_eq!(p.ctx % 16, 0, "frame must be 16-aligned");
    let f = sched.frame_at(p.ctx);
    assert_eq!(f.rip, 0x8000_0000);
    assert_eq!(f.cs, USER_CODE64_SELECTOR as u64);
    assert_eq!(f.user_ss, USER_DATA_SELECTOR as u64);
    assert_eq!(f.user_rsp, user_stack_top(pid));
    assert_eq!(f.rflags & (1 << 9), 1 << 9, "IF must be set");
    assert_eq!(f.rdi, pid as u64);
    assert_eq!(core::str::from_utf8(&p.name).unwrap(), "demo\0\0\0\0\0\0\0\0\0\0\0\0");
}

#[test]
fn kill_turns_zombie_and_frees_slot() {
    let mut sched = reset();
    let pid = free_slot(&sched).unwrap();
    start_process(&mut sched, pid, 0x8000_0000, "p");
    assert!(kill(&mut sched, pid));
    assert!(!kill(&mut sched, pid), "already zombie");
    assert!(!kill(&mut sched, 0), "idle is not killable");
    assert_eq!(free_slot(&sched).unwrap(), pid, "zombie slot is reusable");
}

#[test]
fn table_full_returns_none() {
    let mut sched = reset();
    init_idle(&mut sched, 0x1000);
    for _ in 1..MAX_PROCESSES {
        let pid = free_slot(&sched).expect("slot");
        start_process(&mut sched, pid, 0x8000_0000, "x");
    }
    assert_eq!(free_slot(&sched), None);
}

#[test]
fn pick_round_robins_after_current() {
    let mut sched = reset();
    init_idle(&mut sched, 0x1000);
    for pid in 1..=3u32 {
        start_process(&mut sched, pid, 0x8000_0000, "x");
    }
    // Each tick hands the CPU to the process that was picked.
    assert_eq!(pick_next_other(&sched), Some(1));
    assert!(on_tick(&mut sched, 0x900).is_some());
    assert_eq!(current_pid(&sched), 1);
    assert_eq!(pick_next_other(&sched), Some(2));
    assert!(on_tick(&mut sched, 0x900).is_some());
    assert_eq!(pick_next_other(&sched), Some(3));
    assert!(on_tick(&mut sched, 0x900).is_some());
    assert_eq!(pick_next_other(&sched), Some(0), "wraps to idle");
    // A zombie is skipped.
    assert!(kill(&mut sched, 2));
    assert!(on_tick(&mut sched, 0x900).is_some());
    assert!(on_tick(&mut sched, 0x900).is_some());
    assert_eq!(current_pid(&sched), 1);
    assert_eq!(pick_next_other(&sched), Some(3));
}

#[test]
fn tick_saves_and_resumes_contexts() {
    let mut sched = reset();
    // With nothing else to run, the boot flow keeps the CPU.
    assert!(on_tick(&mut sched, 0x900).is_none());
    assert_eq!(sched.process(0).state, State::Running);
    init_idle(&mut sched, 0x1000);
    start_process(&mut sched, 1, 0x8020_0000, "a");
    let ctx = sched.process(1).ctx;
    let top = sched.process(1).kernel_stack_top;
    assert_eq!(top, STACKS + 2 * 16384);
    assert_eq!(ctx, top - 192);
    let s = on_tick(&mut sched, 0x900).expect("switch");
    assert_eq!(s.ctx, ctx);
    assert_eq!(s.rsp0, top);
    assert_eq!(sched.process(0).ctx, 0x900);
    assert_eq!(sched.process(0).state, State::Ready);
    assert_eq!(sched.process(1).state, State::Running);
    // Yielding goes back to idle, where it left off.
    let s = yield_now(&mut sched, 0x800).expect("switch");
    assert_eq!(s.ctx, 0x900);
    assert_eq!(s.rsp0, 0x1000);
    assert_eq!(sched.process(1).ctx, 0x800);
}

#[test]
fn exit_never_resumes() {
    let mut sched = reset();
    init_idle(&mut sched, 0x1000);
    start_process(&mut sched, 1, 0x8020_0000, "a");
    assert!(on_tick(&mut sched, 0x900).is_some());
    let s = exit_current(&mut sched);
    assert_eq!(s.ctx, 0x900);
    assert_eq!(current_pid(&sched), 0);
    assert_eq!(sched.process(1).state, State::Zombie);
    assert_eq!(pick_next_other(&sched), None);
    assert!(on_tick(&mut sched, 0x900).is_none());
    assert_eq!(free_slot(&sched), Some(1));
}

#[test]
fn long_names_are_cut() {
    let mut sched = reset();
    start_process(&mut sched, 1, 0, "abcdefghijklmnopqrst");
    assert_eq!(&sched.process(1).name, b"abcdefghijklmno\0");
}

#[test]
fn killed_current_process_is_not_resumed() {
    let mut sched = reset();
    init_idle(&mut sched, 0x1000);
    start_process(&mut sched, 1, 0x8020_0000, "a");
    let ctx = sched.process(1).ctx;
    assert!(on_tick(&mut sched, 0x900).is_some());
    assert_eq!(current_pid(&sched), 1);
    assert!(kill(&mut sched, 1));
    let s = on_tick(&mut sched, 0x800).expect("switch");
    assert_eq!(s.ctx, 0x900);
    assert_eq!(current_pid(&sched), 0);
    assert_eq!(sched.process(1).state, State::Zombie);
    assert_eq!(sched.process(1).ctx, ctx);
    assert_eq!(pick_next_other(&sched), None);
    assert!(on_tick(&mut sched, 0x900).is_none());
    assert_eq!(free_slot(&sched), Some(1));
}
