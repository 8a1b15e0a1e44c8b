use rolnix_kernel::idt::{
    exception_name, handle_exception, handle_irq, init as idt_init, page_fault_reason,
    set_fault_sink, set_irq_handler, FaultSinks, Idt, IdtEntry, InterruptFrame, IrqHandlers,
};
use rolnix_kernel::io::{out, PortWrite};
use rolnix_kernel::keyboard::{
    init as keyboard_init, irq_handler, poll_char, shifted_symbol, translate, InitAction,
    InitEvent, Keyboard,
};
use rolnix_kernel::pic::{mask, mask_all, pic_mask_port, remap, send_eoi, unmask};
use rolnix_kernel::pit::set_frequency;
use rolnix_kernel::serial::{raw_write, SerialPort};
use rolnix_kernel::tss::{
    code_data_descriptor, init as tss_init, set_rsp0, system_descriptor, TaskStateSegment,
};

fn frame() -> InterruptFrame {
    InterruptFrame::from_words(&[0; 23])
}

fn text(bytes: &[u8]) -> String {
    String::from_utf8(bytes.to_vec()).unwrap()
}

fn pairs(writes: &[PortWrite]) -> Vec<(u16, u8)> {
    writes.iter().map(|w| (w.port, w.value)).collect()
}

#[test]
fn port_writes() {
    let w = out(0x80, 7);
    assert_eq!((w.port, w.value), (0x80, 7));
}

#[test]
fn pic_is_remapped_and_masked() {
    assert_eq!(
        pairs(&remap()),
        vec![
            (0x20, 0x11),
            (0xA0, 0x11),
            (0x21, 0x20),
            (0xA1, 0x28),
            (0x21, 0x04),
            (0xA1, 0x02),
            (0x21, 0x01),
            (0xA1, 0x01),
            (0x21, 0xFF),
            (0xA1, 0xFF),
        ]
    );
    assert_eq!(pairs(&mask_all()), vec![(0x21, 0xFF), (0xA1, 0xFF)]);
}

#[test]
fn pic_masks_one_line() {
    assert_eq!(pic_mask_port(1), (0x21, 1));
    assert_eq!(pic_mask_port(9), (0xA1, 1));
    assert_eq!(pairs(&[unmask(1, 0xFF)]), vec![(0x21, 0xFD)]);
    assert_eq!(pairs(&[mask(1, 0xFD)]), vec![(0x21, 0xFF)]);
    assert_eq!(pairs(&[unmask(12, 0xFF)]), vec![(0xA1, 0xEF)]);
    assert_eq!(pairs(&[mask(0, 0x00)]), vec![(0x21, 0x01)]);
}

#[test]
fn slave_interrupts_are_acknowledged_twice() {
    assert_eq!(pairs(&send_eoi(0)), vec![(0x20, 0x20)]);
    assert_eq!(pairs(&send_eoi(8)), vec![(0xA0, 0x20), (0x20, 0x20)]);
}

#[test]
fn pit_divisors() {
    // 1193182 / 100 = 11931 = 0x2E9B.
    assert_eq!(pairs(&set_frequency(100)), vec![(0x43, 0x36), (0x40, 0x9B), (0x40, 0x2E)]);
    // Clamped at both ends.
    assert_eq!(pairs(&set_frequency(1)), vec![(0x43, 0x36), (0x40, 0xFF), (0x40, 0xFF)]);
    assert_eq!(pairs(&set_frequency(2_000_000)), vec![(0x43, 0x36), (0x40, 2), (0x40, 0)]);
}

#[test]
fn serial_port_setup_and_text() {
    let port = SerialPort::const_new();
    assert_eq!(
        pairs(&port.init()),
        vec![
            (0x3F9, 0x00),
            (0x3FB, 0x80),
            (0x3F8, 0x01),
            (0x3F9, 0x00),
            (0x3FB, 0x03),
            (0x3FA, 0xC7),
        ]
    );
    assert_eq!(port.write_str(b"a\nb"), b"a\r\nb".to_vec());
    assert_eq!(raw_write(b"a\nb"), b"a\rb".to_vec());
    assert!(port.tx_ready(0x20));
    assert!(!port.tx_ready(0xDF));
    assert!(port.rx_ready(0x01));
    assert_eq!(port.try_read(0x01, 0x41), Some(0x41));
    assert_eq!(port.try_read(0xFE, 0x41), None);
    assert_eq!(pairs(&[port.write_byte(0x42)]), vec![(0x3F8, 0x42)]);
}

#[test]
fn descriptors() {
    assert_eq!(code_data_descriptor(0, 0xFFFFF, 0x9A, 0xAF), 0x00AF_9A00_0000_FFFF);
    assert_eq!(code_data_descriptor(0, 0xFFFFF, 0xF2, 0xCF), 0x00CF_F200_0000_FFFF);
    assert_eq!(
        code_data_descriptor(0x1234_5678, 0xABCDE, 0x92, 0xC0),
        0x12CA_9234_5678_BCDE
    );
    assert_eq!(
        system_descriptor(0xFFFF_8000_1234_5678, 103, 0x89),
        [0x1200_8934_5678_0067, 0xFFFF_8000]
    );
}

#[test]
fn descriptor_table_and_stacks() {
    let mut tss = TaskStateSegment::new();
    let gdt = tss_init(&mut tss, 0x5000, 0x10_0000, 0x20_0000);
    assert_eq!(tss.rsp0, 0x10_0000 + 16384);
    assert_eq!(tss.ist[0], 0x20_0000 + 16384);
    assert_eq!(gdt[0], 0);
    assert_eq!(gdt[3], 0x00AF_9A00_0000_FFFF);
    assert_eq!(gdt[4], 0x0000_8900_5000_0067);
    assert_eq!(gdt[5], 0);
    assert_eq!(gdt[6], 0x00AF_FA00_0000_FFFF);
    set_rsp0(&mut tss, 0x1234);
    assert_eq!(tss.rsp0, 0x1234);
    assert_eq!(tss.ist[0], 0x20_0000 + 16384);
}

#[test]
fn interrupt_gates() {
    let e = IdtEntry::gate(0x1122_3344_5566_7788, 0x18, 1, 0x8E);
    assert_eq!(e.offset_low, 0x7788);
    assert_eq!(e.offset_mid, 0x5566);
    assert_eq!(e.offset_high, 0x1122_3344);
    assert_eq!((e.selector, e.ist, e.attrs, e.reserved), (0x18, 1, 0x8E, 0));

    let mut idt = Idt::new();
    let mut stubs = [0u64; 32];
    let mut irqs = [0u64; 16];
    for i in 0..32 {
        stubs[i] = 0x1000 + i as u64;
    }
    for i in 0..16 {
        irqs[i] = 0x2000 + i as u64;
    }
    idt_init(&mut idt, &stubs, &irqs, 0x3000);
    assert_eq!(idt.entries[0].offset_low, 0x1000);
    assert_eq!((idt.entries[8].offset_low, idt.entries[8].ist), (0x1008, 1));
    assert_eq!((idt.entries[9].offset_low, idt.entries[9].ist), (0x1009, 0));
    assert_eq!(idt.entries[0x21].offset_low, 0x2001);
    assert_eq!(idt.entries[0x80].offset_low, 0x3000);
    assert_eq!(idt.entries[0x80].attrs, 0xEE);
    assert_eq!(idt.entries[0x30], IdtEntry::missing());
    assert_eq!(idt.entries[0xFF], IdtEntry::missing());
}

#[test]
fn frames_survive_the_stack() {
    let mut words = [0u64; 23];
    for i in 0..23 {
        words[i] = 100 + i as u64;
    }
    let f = InterruptFrame::from_words(&words);
    assert_eq!(f.rsp, 100);
    assert_eq!(f.rdi, 110);
    assert_eq!(f.vector, 116);
    assert_eq!(f.rip, 118);
    assert_eq!(f.user_ss, 122);
    assert_eq!(f.to_words(), words);
}

#[test]
fn exception_reports() {
    let mut f = frame();
    f.vector = 14;
    f.error_code = 2;
    f.rip = 0x1234;
    f.cs = 0x18;
    f.rflags = 0x202;
    f.rsp = 0x7000;
    f.rax = 1;
    f.rbx = 2;
    f.rbp = 3;
    f.rdi = 4;
    assert_eq!(
        text(&handle_exception(&f, 0xFFFF_9000_1000_0000)),
        "\r\nEXCEPTION #14 page fault (not present, write): cr2=0xffff900010000000\r\n  \
         rip=0x1234 cs=0x18 rflags=0x202 rsp=0x7000\r\n  rax=0x1 rbx=0x2 rbp=0x3 rdi=0x4\r\n"
    );
    f.vector = 8;
    f.error_code = 0;
    assert!(text(&handle_exception(&f, 0)).starts_with("\r\nEXCEPTION #08 double fault\r\n  rip"));
    f.vector = 13;
    f.error_code = 0x10;
    assert!(text(&handle_exception(&f, 0))
        .starts_with("\r\nEXCEPTION #13 general protection: error_code=0x10\r\n"));
    assert_eq!(exception_name(0), "divide error");
    assert_eq!(exception_name(31), "reserved");
    assert_eq!(exception_name(99), "reserved");
    assert_eq!(page_fault_reason(0), "not present, read");
    assert_eq!(page_fault_reason(0b01010), "not present, write, user-mode");
    assert_eq!(page_fault_reason(0b11111), "unspecified");
    // Only the low five bits count.
    assert_eq!(page_fault_reason(0x20 | 3), "protection violation, write");
}

#[test]
fn irq_dispatch() {
    let mut table = IrqHandlers::new();
    let mut f = frame();
    f.vector = 0x21;
    let d = handle_irq(&table, &f);
    assert_eq!((d.irq, d.handler), (1, None));
    set_irq_handler(&mut table, 1, Some(0xBEEF));
    let d = handle_irq(&table, &f);
    assert_eq!(d.handler, Some(0xBEEF));
    assert_eq!(pairs(&d.eoi), vec![(0x20, 0x20)]);
    set_irq_handler(&mut table, 1, None);
    assert_eq!(handle_irq(&table, &f).handler, None);
    f.vector = 0x2F;
    assert_eq!(pairs(&handle_irq(&table, &f).eoi), vec![(0xA0, 0x20), (0x20, 0x20)]);
}

#[test]
fn fault_sink_is_remembered() {
    let mut sinks = FaultSinks::new();
    assert_eq!(sinks.sink(), None);
    set_fault_sink(&mut sinks, 0x42);
    assert_eq!(sinks.sink(), Some(0x42));
}

#[test]
fn keys_become_characters() {
    assert_eq!(translate(0x1E, false, false), Some('a'));
    assert_eq!(translate(0x1E, true, false), Some('A'));
    assert_eq!(translate(0x1E, false, true), Some('A'));
    assert_eq!(translate(0x1E, true, true), Some('a'));
    assert_eq!(translate(0x02, true, false), Some('!'));
    assert_eq!(translate(0x02, false, true), Some('1'));
    assert_eq!(translate(0x39, true, false), Some(' '));
    assert_eq!(translate(0x1C, false, false), Some('\n'));
    assert_eq!(translate(0x58, false, false), None);
    assert_eq!(shifted_symbol('/'), Some('?'));
    assert_eq!(shifted_symbol('a'), None);
}

#[test]
fn keyboard_tracks_shift_and_caps() {
    let mut kbd = Keyboard::new();
    assert_eq!(poll_char(&mut kbd), None);
    // a, shift down, a, shift up, a, caps, a
    for code in [0x1E, 0x2A, 0x1E, 0xAA, 0x1E, 0x3A, 0x1E] {
        irq_handler(&mut kbd, code);
    }
    // The release of a and an extended key type nothing.
    for code in [0x9E, 0xE0, 0x1E, 0x30] {
        irq_handler(&mut kbd, code);
    }
    let mut typed = String::new();
    while let Some(c) = poll_char(&mut kbd) {
        typed.push(c);
    }
    assert_eq!(typed, "aAaAB");
}

#[test]
fn full_ring_drops_keys() {
    let mut kbd = Keyboard::new();
    for _ in 0..70 {
        irq_handler(&mut kbd, 0x1E);
    }
    irq_handler(&mut kbd, 0x30);
    let mut n = 0;
    while let Some(c) = poll_char(&mut kbd) {
        assert_eq!(c, 'a');
        n += 1;
    }
    assert_eq!(n, 63);
}

/// Plays an 8042 whose keyboard gives `answers` in turn. Returns the outcome
/// and what was written.
fn bring_up(answers: &[u8], busy: bool) -> (bool, Vec<(u16, u8)>) {
    let mut init = keyboard_init();
    let mut written = Vec::new();
    let mut next = 0;
    for _ in 0..2_000_000 {
        match init.action() {
            InitAction::Done(ok) => return (ok, written),
            InitAction::Write(w) => {
                written.push((w.port, w.value));
                init.advance(InitEvent::Written);
            }
            InitAction::ReadStatus => {
                let mut status = 0;
                if busy {
                    status |= 2;
                }
                // The answers start behind the self-test command.
                let asked = written.iter().any(|w| *w == (0x64, 0xAA));
                if asked && next < answers.len() {
                    status |= 1;
                }
                init.advance(InitEvent::Status(status));
            }
            InitAction::ReadData => {
                let b = answers[next];
                next += 1;
                init.advance(InitEvent::Data(b));
            }
        }
    }
    panic!("initialization does not end");
}

#[test]
fn keyboard_comes_up() {
    let (ok, written) = bring_up(&[0x55, 0x50, 0xFA, 0xAA, 0xFA, 0xFA, 0xFA], false);
    assert!(ok);
    assert_eq!(
        written,
        vec![
            (0x64, 0xAD),
            (0x64, 0xAA),
            (0x64, 0x20),
            (0x64, 0x60),
            // Interrupt on, translation off.
            (0x60, 0x11),
            (0x64, 0xAE),
            (0x60, 0xFF),
            (0x60, 0xF0),
            (0x60, 0x01),
            (0x60, 0xF4),
        ]
    );
}

#[test]
fn keyboard_failures_are_noticed() {
    // A controller that is always busy.
    assert_eq!(bring_up(&[], true), (false, vec![]));
    // A failed self-test.
    let (ok, written) = bring_up(&[0xFC], false);
    assert!(!ok);
    assert_eq!(written.len(), 2);
    // No answer at all.
    assert!(!bring_up(&[], false).0);
    // A keyboard that refuses scancode set 1.
    assert!(!bring_up(&[0x55, 0x50, 0xFA, 0xAA, 0xFA, 0xFE], false).0);
}
