use rolnix_kernel::allocator::{free_frame_count, release_frame};
use rolnix_kernel::boot::{pmm_init, BootInfo, MemoryRegion, RegionKind};
use rolnix_kernel::frame::{frame_info, OwnerTag};
use rolnix_kernel::heap::{heap_alloc, heap_init, Heap};
use rolnix_kernel::idt::InterruptFrame;
use rolnix_kernel::keyboard::{irq_handler, Keyboard};
use rolnix_kernel::memory::Memory;
use rolnix_kernel::pmm::Pmm;
use rolnix_kernel::process::{spawn_notice, spawn_process};
use rolnix_kernel::sched::{
    init_idle, on_tick, start_named, user_code_va, user_stack_top, Scheduler, State,
};
use rolnix_kernel::shell::{
    edit_line, execute, heap_use, parse_command, prompt, run, Command, Shell, ShellAction, Turn,
};
use rolnix_kernel::text::{
    is_utf8, parse_u32, push_dec, push_dec2, push_hex, push_padded, push_str,
};
use rolnix_kernel::untyped::UntypedCap;
use rolnix_kernel::user::{
    handle_syscall, set_console, Console, SyscallAction, SYS_EXIT, SYS_GETC, SYS_GETPID, SYS_PUTC,
    SYS_YIELD,
};
use rolnix_kernel::vmm::PageTable;

const RAM_SIZE: usize = 16 * 1024 * 1024;

struct Machine {
    pmm: Pmm,
    pt: PageTable,
    sched: Scheduler,
    heap: Heap,
}

fn machine() -> Machine {
    let regions = [MemoryRegion { start: 0, len: RAM_SIZE as u64, kind: RegionKind::Usable }];
    let mut caps = [UntypedCap::new(0, 0, 0)];
    let mut pmm = Pmm::new(Memory::zeroed(RAM_SIZE / 8));
    let boot = BootInfo {
        physmap_base: 0xFFFF_8000_0000_0000,
        regions: &regions,
        kernel_image: (0, 0),
    };
    assert!(pmm_init(&mut pmm, &boot, &[], &mut caps, 0).is_ok());
    let pt = PageTable::new(&mut pmm).unwrap();
    let mut sched = Scheduler::new(Memory::zeroed(16 * 2048), 0x10_0000);
    init_idle(&mut sched, 0x1000);
    let mut heap = Heap::new(Memory::zeroed(512));
    heap_init(&mut heap, 0x4000, 4096);
    Machine { pmm, pt, sched, heap }
}

fn command(m: &mut Machine, line: &str) -> (String, ShellAction) {
    let (out, action) =
        execute(line.as_bytes(), &mut m.pmm, &mut m.pt, &mut m.sched, heap_use(&m.heap), 42, b"code");
    (String::from_utf8(out).unwrap(), action)
}

fn printed(m: &mut Machine, line: &str) -> String {
    let (out, action) = command(m, line);
    assert_eq!(action, ShellAction::Prompt);
    out
}

#[test]
fn numbers_as_text() {
    let mut out = Vec::new();
    push_dec(&mut out, 0);
    push_str(&mut out, " ");
    push_dec(&mut out, 18446744073709551615);
    push_str(&mut out, " ");
    push_dec2(&mut out, 7);
    push_str(&mut out, " ");
    push_dec2(&mut out, 123);
    push_str(&mut out, " ");
    push_hex(&mut out, 0);
    push_str(&mut out, " ");
    push_hex(&mut out, 0xDEAD_BEEF);
    push_str(&mut out, " ");
    push_padded(&mut out, "ready", 8);
    push_str(&mut out, "|");
    assert_eq!(
        String::from_utf8(out).unwrap(),
        "0 18446744073709551615 07 123 0x0 0xdeadbeef ready   |"
    );
}

#[test]
fn numbers_from_text() {
    assert_eq!(parse_u32(b"0"), Some(0));
    assert_eq!(parse_u32(b"4294967295"), Some(u32::MAX));
    assert_eq!(parse_u32(b"4294967296"), None);
    assert_eq!(parse_u32(b"007"), Some(7));
    assert_eq!(parse_u32(b"+5"), Some(5));
    assert_eq!(parse_u32(b"-5"), None);
    assert_eq!(parse_u32(b""), None);
    assert_eq!(parse_u32(b"+"), None);
    assert_eq!(parse_u32(b"1 2"), None);
}

#[test]
fn utf8_is_recognized() {
    for s in ["", "abc", "\u{e9}", "\u{20ac}x", "\u{1F600}", "\u{10FFFF}", "\0\0"] {
        assert!(is_utf8(s.as_bytes()));
    }
    let bad: [&[u8]; 8] = [
        &[0x80],
        &[0xC3],
        &[0xC0, 0x80],
        &[0xE2, 0x82],
        &[0xED, 0xA0, 0x80],
        &[0xF4, 0x90, 0x80, 0x80],
        &[0xFF],
        &[0x61, 0xE9, 0x61],
    ];
    for s in bad {
        assert!(!is_utf8(s));
        assert!(std::str::from_utf8(s).is_err());
    }
}

#[test]
fn lines_are_edited() {
    let mut line = Vec::new();
    assert_eq!(edit_line(&mut line, '\u{8}'), (false, vec![]));
    assert_eq!(edit_line(&mut line, 'a'), (false, b"a".to_vec()));
    assert_eq!(edit_line(&mut line, ' '), (false, b" ".to_vec()));
    assert_eq!(edit_line(&mut line, '\t'), (false, vec![]));
    assert_eq!(edit_line(&mut line, '\u{e9}'), (false, vec![]));
    assert_eq!(edit_line(&mut line, 'b'), (false, b"b".to_vec()));
    assert_eq!(edit_line(&mut line, '\u{7f}'), (false, vec![8, 32, 8]));
    assert_eq!(line, b"a ".to_vec());
    assert_eq!(edit_line(&mut line, '\r'), (true, b"\r\n".to_vec()));
    let mut line = vec![b'x'; 127];
    assert_eq!(edit_line(&mut line, 'y'), (false, vec![]));
    assert_eq!(line.len(), 127);
}

#[test]
fn shell_turns() {
    assert_eq!(prompt(), "rolnix> ");
    let mut shell = Shell::new();
    assert!(matches!(run(&mut shell, None, None), Turn::Wait));
    // The keyboard comes before the serial port.
    match run(&mut shell, Some('p'), Some(b'q')) {
        Turn::Echo(e) => assert_eq!(e, b"p".to_vec()),
        _ => panic!("echo"),
    }
    match run(&mut shell, None, Some(b's')) {
        Turn::Echo(e) => assert_eq!(e, b"s".to_vec()),
        _ => panic!("echo"),
    }
    match run(&mut shell, None, Some(b'\r')) {
        Turn::Enter(e, line) => {
            assert_eq!(e, b"\r\n".to_vec());
            assert_eq!(line, b"ps".to_vec());
        }
        _ => panic!("enter"),
    }
    match run(&mut shell, Some('\n'), None) {
        Turn::Enter(_, line) => assert_eq!(line, Vec::<u8>::new()),
        _ => panic!("enter"),
    }
}

#[test]
fn commands_are_parsed() {
    assert!(matches!(parse_command(b"   "), Command::Nothing));
    assert!(matches!(parse_command(b" help me"), Command::Help));
    match parse_command(b"echo  a   b ") {
        Command::Echo(s) => assert_eq!(s, b"a b".to_vec()),
        _ => panic!("echo"),
    }
    match parse_command(b"spawn") {
        Command::Spawn(s) => assert_eq!(s, b"proc".to_vec()),
        _ => panic!("spawn"),
    }
    assert!(matches!(parse_command(b"kill"), Command::KillUsage));
    assert!(matches!(parse_command(b"kill 7"), Command::Kill(7)));
    assert!(matches!(parse_command(b"kill 1 2"), Command::KillBadNumber));
    assert!(matches!(parse_command(b"shutdown"), Command::Halt));
    assert!(matches!(parse_command(b"exit"), Command::Halt));
    assert!(matches!(parse_command(b"halts"), Command::Unknown(_)));
}

#[test]
fn commands_are_executed() {
    let mut m = machine();
    assert_eq!(printed(&mut m, ""), "");
    assert_eq!(
        printed(&mut m, "help"),
        "commands: help, echo <text>, info, ticks, spawn [name], ps, kill <pid>, fault, double, halt\n"
    );
    assert_eq!(printed(&mut m, "echo  hello   world"), "hello world\n");
    assert_eq!(printed(&mut m, "echo"), "\n");
    let _ = heap_alloc(&mut m.heap, 16, 16);
    let free = free_frame_count(&m.pmm);
    assert_eq!(printed(&mut m, "info"), format!("frames free: {free}   heap: 32/4096\n"));
    assert_eq!(printed(&mut m, "ticks"), "ticks = 42\n");
    assert_eq!(printed(&mut m, "kill"), "usage: kill <pid>\n");
    assert_eq!(printed(&mut m, "kill x"), "kill: pid must be a number\n");
    assert_eq!(printed(&mut m, "kill 3"), "kill 3: not a live process\n");
    assert_eq!(printed(&mut m, "kill 0"), "kill 0: not a live process\n");
    assert_eq!(printed(&mut m, "frob it"), "unknown command 'frob' (type 'help')\n");
    assert_eq!(command(&mut m, "fault"), (String::new(), ShellAction::Fault));
    assert_eq!(command(&mut m, "double"), (String::new(), ShellAction::DoubleFault));
    assert_eq!(command(&mut m, "halt"), (String::new(), ShellAction::Halt));
}

#[test]
fn processes_are_spawned_listed_and_killed() {
    let mut m = machine();
    assert_eq!(
        printed(&mut m, "spawn demo"),
        "spawned pid 1 ('demo') at 0x80200000, stack 0x80300000\nstarted pid 1 ('demo')\n"
    );
    assert_eq!(
        printed(&mut m, "spawn"),
        "spawned pid 2 ('proc') at 0x80400000, stack 0x80500000\nstarted pid 2 ('proc')\n"
    );
    assert_eq!(
        printed(&mut m, "ps"),
        "3 process(es):\n  pid 0  ready    idle\n  pid 1  ready    demo\n  pid 2  ready    proc\n"
    );
    assert!(on_tick(&mut m.sched, 0x900).is_some());
    assert!(printed(&mut m, "ps").contains("  pid 1  running  demo\n"));
    assert_eq!(printed(&mut m, "kill 2"), "pid 2 killed\n");
    assert_eq!(printed(&mut m, "kill 2"), "kill 2: not a live process\n");
    assert!(printed(&mut m, "ps").starts_with("2 process(es):\n"));
    // A name that is cut in the middle of a character is not shown.
    start_named(&mut m.sched, 3, 0, "aaaaaaaaaaaaaa\u{e9}".as_bytes());
    assert!(printed(&mut m, "ps").ends_with("  pid 3  ready    <bad>\n"));
}

#[test]
fn program_is_loaded_into_its_region() {
    let mut m = machine();
    let image: Vec<u8> = (0..5000u32).map(|i| (i % 251) as u8).collect();
    let before = free_frame_count(&m.pmm);
    let pid = spawn_process(&mut m.pmm, &mut m.pt, &mut m.sched, b"big", &image).unwrap();
    assert_eq!(pid, 1);
    // Two pages of code, one of stack, three tables.
    assert_eq!(free_frame_count(&m.pmm), before - 6);
    for i in [0usize, 4095, 4096, 4999] {
        let pa = m.pt.translate(&m.pmm, user_code_va(pid) + i as u64).unwrap();
        assert_eq!(m.pmm.read_byte((pa / 4096) as u32, (pa % 4096) as usize), image[i]);
    }
    assert!(m.pt.translate(&m.pmm, user_code_va(pid) + 8192).is_none());
    assert!(m.pt.translate(&m.pmm, user_stack_top(pid) - 1).is_some());
    assert!(m.pt.translate(&m.pmm, user_stack_top(pid)).is_none());
    assert_eq!(m.sched.process(1).state, State::Ready);
    assert_eq!(
        spawn_notice(1, b"big"),
        b"spawned pid 1 ('big') at 0x80200000, stack 0x80300000\n".to_vec()
    );
}

#[test]
fn spawning_stops_when_slots_or_frames_run_out() {
    let mut m = machine();
    for _ in 1..16 {
        assert!(spawn_process(&mut m.pmm, &mut m.pt, &mut m.sched, b"x", b"x").is_some());
    }
    let before = free_frame_count(&m.pmm);
    assert_eq!(spawn_process(&mut m.pmm, &mut m.pt, &mut m.sched, b"x", b"x"), None);
    assert_eq!(free_frame_count(&m.pmm), before);

    // A killed process's region is used again as it is.
    assert_eq!(printed(&mut m, "kill 4"), "pid 4 killed\n");
    assert_eq!(spawn_process(&mut m.pmm, &mut m.pt, &mut m.sched, b"x", b"x"), Some(4));
    assert_eq!(free_frame_count(&m.pmm), before);

    let mut m = machine();
    while free_frame_count(&m.pmm) > 4 {
        let _ = rolnix_kernel::allocator::alloc_frame(&mut m.pmm);
    }
    assert_eq!(
        printed(&mut m, "spawn"),
        "spawn failed: no free slot or out of memory\n"
    );
}

#[test]
fn system_calls() {
    let mut m = machine();
    let mut kbd = Keyboard::new();
    let mut console = Console::new();
    let mut frame = InterruptFrame::from_words(&[0; 23]);

    frame.rax = SYS_PUTC;
    frame.rdi = 0x141;
    let a = handle_syscall(&mut frame, 0x800, &mut m.sched, &mut kbd, &console);
    assert!(matches!(a, SyscallAction::Resume));
    set_console(&mut console, 0xBEEF);
    let a = handle_syscall(&mut frame, 0x800, &mut m.sched, &mut kbd, &console);
    assert!(matches!(a, SyscallAction::Emit(0xBEEF, 0x41)));

    frame.rax = SYS_GETC;
    handle_syscall(&mut frame, 0x800, &mut m.sched, &mut kbd, &console);
    assert_eq!(frame.rax, u64::MAX);
    irq_handler(&mut kbd, 0x1E);
    frame.rax = SYS_GETC;
    handle_syscall(&mut frame, 0x800, &mut m.sched, &mut kbd, &console);
    assert_eq!(frame.rax, 'a' as u64);

    frame.rax = 99;
    handle_syscall(&mut frame, 0x800, &mut m.sched, &mut kbd, &console);
    assert_eq!(frame.rax, u64::MAX);

    assert_eq!(printed(&mut m, "spawn p").len() > 0, true);
    frame.rax = SYS_YIELD;
    let a = handle_syscall(&mut frame, 0x800, &mut m.sched, &mut kbd, &console);
    assert!(matches!(a, SyscallAction::Switch(_)));
    frame.rax = SYS_GETPID;
    handle_syscall(&mut frame, 0x800, &mut m.sched, &mut kbd, &console);
    assert_eq!(frame.rax, 1);
    frame.rax = SYS_EXIT;
    match handle_syscall(&mut frame, 0x700, &mut m.sched, &mut kbd, &console) {
        SyscallAction::Switch(s) => assert_eq!(s.ctx, 0x800),
        _ => panic!("switch"),
    }
    assert_eq!(m.sched.process(1).state, State::Zombie);
}

#[test]
fn processes_keep_their_own_memory() {
    let mut m = machine();
    let a = spawn_process(&mut m.pmm, &mut m.pt, &mut m.sched, b"a", b"first").unwrap();
    let pa = m.pt.translate(&m.pmm, user_code_va(a)).unwrap();
    let b = spawn_process(&mut m.pmm, &mut m.pt, &mut m.sched, b"b", b"second").unwrap();
    let pb = m.pt.translate(&m.pmm, user_code_va(b)).unwrap();
    assert_ne!(pa / 4096, pb / 4096);
    assert_eq!(m.pt.translate(&m.pmm, user_code_va(a)), Some(pa));
    for (i, byte) in b"first".iter().enumerate() {
        assert_eq!(m.pmm.read_byte((pa / 4096) as u32, i), *byte);
    }
    for (i, byte) in b"second".iter().enumerate() {
        assert_eq!(m.pmm.read_byte((pb / 4096) as u32, i), *byte);
    }
}

#[test]
fn spawn_after_one_that_ran_out_of_frames_maps_the_rest() {
    let mut m = machine();
    let image: Vec<u8> = (0..5000u32).map(|i| (i % 251) as u8).collect();
    let mut taken = Vec::new();
    while free_frame_count(&m.pmm) > 5 {
        taken.push(rolnix_kernel::allocator::alloc_frame(&mut m.pmm).unwrap());
    }
    // Three tables and two pages of code, and no frame for the stack.
    assert_eq!(spawn_process(&mut m.pmm, &mut m.pt, &mut m.sched, b"big", &image), None);
    assert_eq!(free_frame_count(&m.pmm), 0);
    assert!(m.pt.translate(&m.pmm, user_code_va(1)).is_some());
    assert!(m.pt.translate(&m.pmm, user_stack_top(1) - 1).is_none());
    assert_eq!(spawn_process(&mut m.pmm, &mut m.pt, &mut m.sched, b"big", &image), None);
    release_frame(&mut m.pmm, taken[0]);
    assert_eq!(spawn_process(&mut m.pmm, &mut m.pt, &mut m.sched, b"big", &image), Some(1));
    assert_eq!(free_frame_count(&m.pmm), 0);
    for i in [0usize, 4095, 4096, 4999] {
        let pa = m.pt.translate(&m.pmm, user_code_va(1) + i as u64).unwrap();
        assert_eq!(m.pmm.read_byte((pa / 4096) as u32, (pa % 4096) as usize), image[i]);
    }
    assert!(m.pt.translate(&m.pmm, user_stack_top(1) - 1).is_some());
}

#[test]
fn words_end_at_any_white_space() {
    assert!(matches!(parse_command(b"ps\t"), Command::Ps));
    assert!(matches!(parse_command(b"\t\r\n \x0b\x0c"), Command::Nothing));
    match parse_command(b"echo\ta\x0bb\r\n") {
        Command::Echo(s) => assert_eq!(s, b"a b"),
        _ => panic!("echo"),
    }
    assert!(matches!(parse_command(b"ps\x08"), Command::Unknown(_)));
    assert!(matches!(parse_command(b"ps\x0e"), Command::Unknown(_)));
}

#[test]
fn any_line_can_be_edited() {
    let mut line = vec![0xFFu8; 200];
    let (done, echo) = edit_line(&mut line, 'x');
    assert!(!done && echo.is_empty());
    assert_eq!(line.len(), 200);
    let (_, echo) = edit_line(&mut line, '\u{8}');
    assert_eq!(echo, [8, 32, 8]);
    assert_eq!(line.len(), 199);
}

#[test]
fn characters_may_take_several_bytes() {
    // No-break space, em space, line separator and ideographic space part
    // words; the bytes of other characters do not.
    let echoed = |line: &str| match parse_command(line.as_bytes()) {
        Command::Echo(s) => String::from_utf8(s).unwrap(),
        _ => panic!("not an echo"),
    };
    assert_eq!(echoed("echo\u{a0}a\u{2003}b\u{2028}c\u{3000}d\u{85}e"), "a b c d e");
    assert_eq!(echoed("echo \u{1680}x\u{205f}y\u{202f}z\u{2009}"), "x y z");
    assert_eq!(echoed("echo h\u{e9}llo \u{20ac}\u{2e80}"), "h\u{e9}llo \u{20ac}\u{2e80}");
    assert_eq!(echoed("echo a\u{200b}b"), "a\u{200b}b");
    // A backspace removes a character, not a byte.
    let mut line = "a\u{20ac}\u{e9}".as_bytes().to_vec();
    assert_eq!(edit_line(&mut line, '\u{8}'), (false, vec![8, 32, 8]));
    assert_eq!(line, "a\u{20ac}".as_bytes());
    assert_eq!(edit_line(&mut line, '\u{7f}'), (false, vec![8, 32, 8]));
    assert_eq!(line, b"a");
    assert_eq!(edit_line(&mut line, '\u{8}'), (false, vec![8, 32, 8]));
    assert_eq!(edit_line(&mut line, '\u{8}'), (false, vec![]));
}

#[test]
fn process_pages_are_counted_and_not_shared() {
    let mut m = machine();
    let mut frames = Vec::new();
    for name in [b"a", b"b", b"c"] {
        let pid = spawn_process(&mut m.pmm, &mut m.pt, &mut m.sched, name, &[7; 5000]).unwrap();
        for va in [user_code_va(pid), user_code_va(pid) + 4096, user_stack_top(pid) - 4096] {
            let frame = (m.pt.translate(&m.pmm, va).unwrap() / 4096) as u32;
            assert_eq!(frame_info(&m.pmm, frame).mappings(), 1);
            assert_eq!(frame_info(&m.pmm, frame).owner_tag(), OwnerTag::Kernel);
            assert!(!frames.contains(&frame));
            frames.push(frame);
        }
    }
}
