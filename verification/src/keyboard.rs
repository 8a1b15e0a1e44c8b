//! PS/2 keyboard driver: 8042 controller init + scancode-set-1 translation.
//!
//! [`KeyboardInit`] steps through the reset of the 8042 and the keyboard;
//! from then on every IRQ1 pushes the translated character into a small ring
//! buffer that consumers drain with [`poll_char`]. Shift and caps-lock state
//! is tracked on the way; extended (0xE0-prefixed) keys are consumed but not
//! mapped.

use crate::io::{out, PortWrite};
use vstd::prelude::*;

verus! {

pub const PS2_DATA: u16 = 0x60;

pub const PS2_STATUS: u16 = 0x64;

pub const PS2_CMD: u16 = 0x64;

// 8042 controller commands (written to port 0x64).
pub const CMD_DISABLE_KBD: u8 = 0xAD;

pub const CMD_ENABLE_KBD: u8 = 0xAE;

pub const CMD_CONTROLLER_SELF_TEST: u8 = 0xAA;

pub const CMD_READ_CONFIG: u8 = 0x20;

pub const CMD_WRITE_CONFIG: u8 = 0x60;

/// Config bit 0: enable the keyboard's IRQ line.
pub const CONFIG_KBD_INT: u8 = 0x01;

/// Config bit 6: 8042 translates the keyboard's set-2 codes to set 1.
/// Not relied on: scancode set 1 is selected directly.
pub const CONFIG_TRANSLATE: u8 = 0x40;

// Keyboard commands (written to port 0x60).
pub const KC_RESET: u8 = 0xFF;

pub const KC_ENABLE_SCANNING: u8 = 0xF4;

pub const KC_SET_SCANCODE_SET: u8 = 0xF0;

/// Parameter for [`KC_SET_SCANCODE_SET`]: send the XT (set 1) codes.
pub const SCANCODE_SET_1: u8 = 0x01;

// 8042 status register bits.
pub const STATUS_OUTPUT_FULL: u8 = 0x01;

pub const STATUS_INPUT_FULL: u8 = 0x02;

/// What a controller that passes its self-test answers.
pub const SELF_TEST_OK: u8 = 0x55;

/// What the keyboard answers to a command.
pub const ACK: u8 = 0xFA;

/// How often the status register is read before a wait is given up.
pub const POLL_LIMIT: u32 = 100_000;

// Scancode-set-1 special codes.
pub const SC_E0: u8 = 0xE0;

pub const SC_LSHIFT: u8 = 0x2A;

pub const SC_RSHIFT: u8 = 0x36;

pub const SC_CAPS: u8 = 0x3A;

pub const BREAK_BIT: u8 = 0x80;

// ---------------------------------------------------------------------------
// Character ring buffer
// ---------------------------------------------------------------------------

/// Slots of the ring buffer; one of them stays empty.
pub const RING_SIZE: usize = 64;

/// The ring buffer and the key state.
pub struct Keyboard {
    pub(crate) ring: [u8; 64],
    pub(crate) head: usize,
    pub(crate) tail: usize,
    pub(crate) extended: bool,
    pub(crate) shift: bool,
    pub(crate) caps: bool,
}

/// What the keys are doing: whether an extended code has begun, a shift key
/// is held, caps lock is on.
pub struct KeyState {
    pub extended: bool,
    pub shift: bool,
    pub caps: bool,
}

impl Keyboard {
    /// Head and tail are slots of the ring.
    pub open(crate) spec fn wf(&self) -> bool {
        self.head < RING_SIZE && self.tail < RING_SIZE
    }

    /// Number of queued characters.
    pub open(crate) spec fn queue_len(&self) -> nat {
        ((self.head + RING_SIZE - self.tail) % RING_SIZE as int) as nat
    }

    /// The queued characters, oldest first.
    pub open(crate) spec fn queue(&self) -> Seq<u8> {
        Seq::new(self.queue_len(), |i: int| self.ring@[(self.tail + i) % RING_SIZE as int])
    }

    pub open(crate) spec fn keys(&self) -> KeyState {
        KeyState { extended: self.extended, shift: self.shift, caps: self.caps }
    }

    /// An empty queue, with no key held.
    pub fn new() -> (r: Keyboard)
        ensures
            r.wf(),
            r.queue() == Seq::<u8>::empty(),
            r.keys() == (KeyState { extended: false, shift: false, caps: false }),
    {
        let r = Keyboard {
            ring: [0; 64],
            head: 0,
            tail: 0,
            extended: false,
            shift: false,
            caps: false,
        };
        assert(r.queue() =~= Seq::<u8>::empty());
        r
    }
}

/// Take the next typed character, if any.
pub fn poll_char(kbd: &mut Keyboard) -> (r: Option<char>)
    requires
        old(kbd).wf(),
    ensures
        final(kbd).wf(),
        final(kbd).keys() == old(kbd).keys(),
        r == (if old(kbd).queue().len() > 0 {
            Some(old(kbd).queue()[0] as char)
        } else {
            None
        }),
        final(kbd).queue() == (if old(kbd).queue().len() > 0 {
            old(kbd).queue().drop_first()
        } else {
            old(kbd).queue()
        }),
{
    if kbd.head != kbd.tail {
        let c = kbd.ring[kbd.tail];
        kbd.tail = (kbd.tail + 1) % RING_SIZE;
        assert(kbd.queue() =~= old(kbd).queue().drop_first());
        Some(c as char)
    } else {
        None
    }
}

/// Queue a character; it is dropped if the ring is full.
fn push_char(kbd: &mut Keyboard, c: u8)
    requires
        old(kbd).wf(),
    ensures
        final(kbd).wf(),
        final(kbd).keys() == old(kbd).keys(),
        final(kbd).queue() == queued(old(kbd).queue(), c),
{
    let head = kbd.head;
    let next = (head + 1) % RING_SIZE;
    if next != kbd.tail {
        kbd.ring[head] = c;
        kbd.head = next;
        assert(kbd.queue() =~= old(kbd).queue().push(c));
    }
}

/// `queue` with `c` at its end, if there is room.
pub open spec fn queued(queue: Seq<u8>, c: u8) -> Seq<u8> {
    if queue.len() < RING_SIZE - 1 {
        queue.push(c)
    } else {
        queue
    }
}

// ---------------------------------------------------------------------------
// Scancodes
// ---------------------------------------------------------------------------

/// True if `code` is a key release.
pub open spec fn is_break(code: u8) -> bool {
    code >= 0x80
}

/// True if `code` is a shift key.
pub open spec fn is_shift(code: u8) -> bool {
    code == SC_LSHIFT || code == SC_RSHIFT
}

/// The key state after scancode `code`.
pub open spec fn keys_after(keys: KeyState, code: u8) -> KeyState {
    if keys.extended {
        KeyState { extended: false, ..keys }
    } else if code == SC_E0 {
        KeyState { extended: true, ..keys }
    } else if is_break(code) {
        if is_shift((code - 0x80) as u8) {
            KeyState { shift: false, ..keys }
        } else {
            keys
        }
    } else if is_shift(code) {
        KeyState { shift: true, ..keys }
    } else if code == SC_CAPS {
        KeyState { caps: !keys.caps, ..keys }
    } else {
        keys
    }
}

/// The character that scancode `code` types in state `keys`, if any.
pub open spec fn typed(keys: KeyState, code: u8) -> Option<char> {
    if keys.extended || code == SC_E0 || is_break(code) || is_shift(code) || code == SC_CAPS {
        None
    } else {
        translated(code, keys.shift, keys.caps)
    }
}

/// IRQ1: take one scancode, update the key state and queue any character.
pub fn irq_handler(kbd: &mut Keyboard, code: u8)
    requires
        old(kbd).wf(),
    ensures
        final(kbd).wf(),
        final(kbd).keys() == keys_after(old(kbd).keys(), code),
        final(kbd).queue() == (match typed(old(kbd).keys(), code) {
            Some(c) => queued(old(kbd).queue(), c as u8),
            None => old(kbd).queue(),
        }),
{
    proof {
        assert(code & 0x80 != 0 <==> code >= 0x80) by (bit_vector);
        assert(code >= 0x80 ==> code & !0x80u8 == code - 0x80) by (bit_vector);
    }
    // Consume one extended (0xE0) make/break without mapping it.
    if kbd.extended {
        kbd.extended = false;
        assert(kbd.queue() =~= old(kbd).queue());
        return ;
    }
    if code == SC_E0 {
        kbd.extended = true;
        assert(kbd.queue() =~= old(kbd).queue());
        return ;
    }
    if code & BREAK_BIT != 0 {
        // Key release: only shift release resets state.
        if code & !BREAK_BIT == SC_LSHIFT || code & !BREAK_BIT == SC_RSHIFT {
            kbd.shift = false;
            assert(kbd.queue() =~= old(kbd).queue());
        }
        return ;
    }
    if code == SC_LSHIFT || code == SC_RSHIFT {
        kbd.shift = true;
        assert(kbd.queue() =~= old(kbd).queue());
    } else if code == SC_CAPS {
        kbd.caps = !kbd.caps;
        assert(kbd.queue() =~= old(kbd).queue());
    } else {
        if let Some(c) = translate(code, kbd.shift, kbd.caps) {
            push_char(kbd, c as u8);
        }
    }
}

/// Scancode-set-1 make codes for the printable keys, lowercase / unshifted.
pub open spec fn base_char(code: u8) -> Option<char> {
    match code {
        0x02 => Some('1'),
        0x03 => Some('2'),
        0x04 => Some('3'),
        0x05 => Some('4'),
        0x06 => Some('5'),
        0x07 => Some('6'),
        0x08 => Some('7'),
        0x09 => Some('8'),
        0x0A => Some('9'),
        0x0B => Some('0'),
        0x1E => Some('a'),
        0x30 => Some('b'),
        0x2E => Some('c'),
        0x20 => Some('d'),
        0x12 => Some('e'),
        0x21 => Some('f'),
        0x22 => Some('g'),
        0x23 => Some('h'),
        0x17 => Some('i'),
        0x24 => Some('j'),
        0x25 => Some('k'),
        0x26 => Some('l'),
        0x32 => Some('m'),
        0x31 => Some('n'),
        0x18 => Some('o'),
        0x19 => Some('p'),
        0x10 => Some('q'),
        0x13 => Some('r'),
        0x1F => Some('s'),
        0x14 => Some('t'),
        0x16 => Some('u'),
        0x2F => Some('v'),
        0x11 => Some('w'),
        0x2D => Some('x'),
        0x15 => Some('y'),
        0x2C => Some('z'),
        0x0C => Some('-'),
        0x0D => Some('='),
        0x1A => Some('['),
        0x1B => Some(']'),
        0x2B => Some('\\'),
        0x27 => Some(';'),
        0x28 => Some('\''),
        0x29 => Some('`'),
        0x33 => Some(','),
        0x34 => Some('.'),
        0x35 => Some('/'),
        0x0E => Some('\u{8}'),
        0x0F => Some('\t'),
        0x1C => Some('\n'),
        0x39 => Some(' '),
        0x01 => Some('\u{1b}'),
        _ => None,
    }
}

/// Shifted US-layout symbols for the digit and punctuation rows.
pub open spec fn shifted_symbol_spec(ch: char) -> Option<char> {
    match ch {
        '1' => Some('!'),
        '2' => Some('@'),
        '3' => Some('#'),
        '4' => Some('$'),
        '5' => Some('%'),
        '6' => Some('^'),
        '7' => Some('&'),
        '8' => Some('*'),
        '9' => Some('('),
        '0' => Some(')'),
        '-' => Some('_'),
        '=' => Some('+'),
        '[' => Some('{'),
        ']' => Some('}'),
        '\\' => Some('|'),
        ';' => Some(':'),
        '\'' => Some('"'),
        '`' => Some('~'),
        ',' => Some('<'),
        '.' => Some('>'),
        '/' => Some('?'),
        _ => None,
    }
}

/// The character that make code `code` gives.
pub open spec fn translated(code: u8, shift: bool, caps: bool) -> Option<char> {
    match base_char(code) {
        None => None,
        Some(ch) => Some(
            if 'a' <= ch && ch <= 'z' {
                if shift != caps {
                    (ch as u8 - 32) as char
                } else {
                    ch
                }
            } else if shift && shifted_symbol_spec(ch) is Some {
                shifted_symbol_spec(ch)->0
            } else {
                ch
            },
        ),
    }
}

/// The unshifted character of make code `code`.
fn base_of(code: u8) -> (r: Option<char>)
    ensures
        r == base_char(code),
{
    match code {
        0x02 => Some('1'),
        0x03 => Some('2'),
        0x04 => Some('3'),
        0x05 => Some('4'),
        0x06 => Some('5'),
        0x07 => Some('6'),
        0x08 => Some('7'),
        0x09 => Some('8'),
        0x0A => Some('9'),
        0x0B => Some('0'),
        0x1E => Some('a'),
        0x30 => Some('b'),
        0x2E => Some('c'),
        0x20 => Some('d'),
        0x12 => Some('e'),
        0x21 => Some('f'),
        0x22 => Some('g'),
        0x23 => Some('h'),
        0x17 => Some('i'),
        0x24 => Some('j'),
        0x25 => Some('k'),
        0x26 => Some('l'),
        0x32 => Some('m'),
        0x31 => Some('n'),
        0x18 => Some('o'),
        0x19 => Some('p'),
        0x10 => Some('q'),
        0x13 => Some('r'),
        0x1F => Some('s'),
        0x14 => Some('t'),
        0x16 => Some('u'),
        0x2F => Some('v'),
        0x11 => Some('w'),
        0x2D => Some('x'),
        0x15 => Some('y'),
        0x2C => Some('z'),
        0x0C => Some('-'),
        0x0D => Some('='),
        0x1A => Some('['),
        0x1B => Some(']'),
        0x2B => Some('\\'),
        0x27 => Some(';'),
        0x28 => Some('\''),
        0x29 => Some('`'),
        0x33 => Some(','),
        0x34 => Some('.'),
        0x35 => Some('/'),
        0x0E => Some('\u{8}'),
        0x0F => Some('\t'),
        0x1C => Some('\n'),
        0x39 => Some(' '),
        0x01 => Some('\u{1b}'),
        _ => None,
    }
}

/// Shifted US-layout symbols for the digit and punctuation rows.
pub fn shifted_symbol(ch: char) -> (r: Option<char>)
    ensures
        r == shifted_symbol_spec(ch),
{
    match ch {
        '1' => Some('!'),
        '2' => Some('@'),
        '3' => Some('#'),
        '4' => Some('$'),
        '5' => Some('%'),
        '6' => Some('^'),
        '7' => Some('&'),
        '8' => Some('*'),
        '9' => Some('('),
        '0' => Some(')'),
        '-' => Some('_'),
        '=' => Some('+'),
        '[' => Some('{'),
        ']' => Some('}'),
        '\\' => Some('|'),
        ';' => Some(':'),
        '\'' => Some('"'),
        '`' => Some('~'),
        ',' => Some('<'),
        '.' => Some('>'),
        '/' => Some('?'),
        _ => None,
    }
}

/// Map a make code to its character, applying shift and caps-lock.
pub fn translate(code: u8, shift: bool, caps: bool) -> (r: Option<char>)
    ensures
        r == translated(code, shift, caps),
{
    match base_of(code) {
        None => None,
        Some(ch) => {
            if 'a' <= ch && ch <= 'z' {
                if shift != caps {
                    Some((ch as u8 - 32) as char)
                } else {
                    Some(ch)
                }
            } else if shift {
                match shifted_symbol(ch) {
                    Some(symbol) => Some(symbol),
                    None => Some(ch),
                }
            } else {
                Some(ch)
            }
        },
    }
}

// ---------------------------------------------------------------------------
// 8042 + keyboard init
// ---------------------------------------------------------------------------

/// What one step of the initialization does.
#[derive(Clone, Copy, PartialEq, Eq, Debug, Structural)]
pub enum Step {
    /// Wait until the controller takes input.
    Wait,
    /// Throw away what is left in the output buffer.
    Flush,
    /// Write a byte.
    Send(PortWrite),
    /// Read a byte, which must be the given one.
    Expect(u8),
    /// Read the controller configuration.
    ReadConfig,
    /// Write the controller configuration back, with the keyboard IRQ enabled
    /// and translation off.
    SendConfig,
    /// Read a byte, whatever it is, if one comes.
    ReadAny,
    /// Nothing is left to do.
    End,
}

/// Number of steps.
pub const INIT_STEPS: u8 = 28;

/// The step that failed initialization stops at.
pub const INIT_FAILED: u8 = 255;

/// Step number `n`: controller off, buffer flushed, controller self-test,
/// configuration, keyboard on, keyboard reset (a missing self-test result is
/// tolerated), scancode set 1, scanning on.
pub open spec fn step_spec(n: u8) -> Step {
    match n {
        0 => Step::Wait,
        1 => Step::Send(out(PS2_CMD, CMD_DISABLE_KBD)),
        2 => Step::Wait,
        3 => Step::Flush,
        4 => Step::Send(out(PS2_CMD, CMD_CONTROLLER_SELF_TEST)),
        5 => Step::Expect(SELF_TEST_OK),
        6 => Step::Wait,
        7 => Step::Send(out(PS2_CMD, CMD_READ_CONFIG)),
        8 => Step::ReadConfig,
        9 => Step::Wait,
        10 => Step::Send(out(PS2_CMD, CMD_WRITE_CONFIG)),
        11 => Step::Wait,
        12 => Step::SendConfig,
        13 => Step::Wait,
        14 => Step::Send(out(PS2_CMD, CMD_ENABLE_KBD)),
        15 => Step::Wait,
        16 => Step::Send(out(PS2_DATA, KC_RESET)),
        17 => Step::Expect(ACK),
        18 => Step::ReadAny,
        19 => Step::Wait,
        20 => Step::Send(out(PS2_DATA, KC_SET_SCANCODE_SET)),
        21 => Step::Expect(ACK),
        22 => Step::Wait,
        23 => Step::Send(out(PS2_DATA, SCANCODE_SET_1)),
        24 => Step::Expect(ACK),
        25 => Step::Wait,
        26 => Step::Send(out(PS2_DATA, KC_ENABLE_SCANNING)),
        27 => Step::Expect(ACK),
        _ => Step::End,
    }
}

/// Step number `n`.
fn step_of(n: u8) -> (r: Step)
    ensures
        r == step_spec(n),
{
    match n {
        0 => Step::Wait,
        1 => Step::Send(out(PS2_CMD, CMD_DISABLE_KBD)),
        2 => Step::Wait,
        3 => Step::Flush,
        4 => Step::Send(out(PS2_CMD, CMD_CONTROLLER_SELF_TEST)),
        5 => Step::Expect(SELF_TEST_OK),
        6 => Step::Wait,
        7 => Step::Send(out(PS2_CMD, CMD_READ_CONFIG)),
        8 => Step::ReadConfig,
        9 => Step::Wait,
        10 => Step::Send(out(PS2_CMD, CMD_WRITE_CONFIG)),
        11 => Step::Wait,
        12 => Step::SendConfig,
        13 => Step::Wait,
        14 => Step::Send(out(PS2_CMD, CMD_ENABLE_KBD)),
        15 => Step::Wait,
        16 => Step::Send(out(PS2_DATA, KC_RESET)),
        17 => Step::Expect(ACK),
        18 => Step::ReadAny,
        19 => Step::Wait,
        20 => Step::Send(out(PS2_DATA, KC_SET_SCANCODE_SET)),
        21 => Step::Expect(ACK),
        22 => Step::Wait,
        23 => Step::Send(out(PS2_DATA, SCANCODE_SET_1)),
        24 => Step::Expect(ACK),
        25 => Step::Wait,
        26 => Step::Send(out(PS2_DATA, KC_ENABLE_SCANNING)),
        27 => Step::Expect(ACK),
        _ => Step::End,
    }
}

/// What the initialization wants done next.
#[derive(Clone, Copy, PartialEq, Eq, Debug, Structural)]
pub enum InitAction {
    /// Read the status register.
    ReadStatus,
    /// Read the data port.
    ReadData,
    /// Write a byte to a port.
    Write(PortWrite),
    /// It is over; whether the keyboard is up.
    Done(bool),
}

/// What came of an [`InitAction`].
#[derive(Clone, Copy, PartialEq, Eq, Debug, Structural)]
pub enum InitEvent {
    /// What the status register held.
    Status(u8),
    /// What the data port gave.
    Data(u8),
    /// The byte has been written.
    Written,
}

/// How far the initialization has come: the step, how often the status has
/// been read in it, whether the data port is to be read next, and the
/// configuration that was read.
#[derive(Clone, Copy, PartialEq, Eq, Debug, Structural)]
pub struct InitState {
    pub step: u8,
    pub polls: u32,
    pub pending: bool,
    pub config: u8,
}

/// The controller can take a byte.
pub open spec fn input_clear(status: u8) -> bool {
    status & STATUS_INPUT_FULL == 0
}

/// The controller has a byte to give.
pub open spec fn output_full(status: u8) -> bool {
    status & STATUS_OUTPUT_FULL != 0
}

/// The configuration to write back.
pub open spec fn new_config(config: u8) -> u8 {
    (config | CONFIG_KBD_INT) & !CONFIG_TRANSLATE
}

impl InitState {
    /// The start of the next step.
    pub open spec fn next_step(self) -> InitState {
        InitState { step: (self.step + 1) as u8, polls: 0, pending: false, config: self.config }
    }

    /// The state that a failure leaves.
    pub open spec fn failed(self) -> InitState {
        InitState { step: INIT_FAILED, polls: 0, pending: false, config: self.config }
    }

    /// The same step, after a status that was not the awaited one.
    pub open spec fn polled(self) -> InitState {
        InitState { polls: (self.polls + 1) as u32, ..self }
    }

    /// What is to be done in this state.
    pub open spec fn action(self) -> InitAction {
        match step_spec(self.step) {
            Step::Wait => InitAction::ReadStatus,
            Step::Send(w) => InitAction::Write(w),
            Step::SendConfig => InitAction::Write(out(PS2_DATA, new_config(self.config))),
            Step::End => InitAction::Done(self.step == INIT_STEPS),
            _ => if self.pending {
                InitAction::ReadData
            } else {
                InitAction::ReadStatus
            },
        }
    }

    /// True if `event` is what comes of the action in this state.
    pub open spec fn answered_by(self, event: InitEvent) -> bool {
        match self.action() {
            InitAction::ReadStatus => event is Status,
            InitAction::ReadData => event is Data,
            InitAction::Write(_) => event is Written,
            InitAction::Done(_) => false,
        }
    }

    /// The state after `byte` has been read in a step that reads one; `None`
    /// if none came.
    pub open spec fn after_byte(self, byte: Option<u8>) -> InitState {
        match step_spec(self.step) {
            Step::Flush => InitState { pending: false, ..self },
            Step::Expect(want) => if byte == Some(want) {
                self.next_step()
            } else {
                self.failed()
            },
            Step::ReadConfig => match byte {
                Some(b) => InitState { config: b, ..self.next_step() },
                None => self.failed(),
            },
            _ => self.next_step(),
        }
    }

    /// The state after `event`.
    pub open spec fn after(self, event: InitEvent) -> InitState {
        match event {
            InitEvent::Written => self.next_step(),
            InitEvent::Data(b) => self.after_byte(Some(b)),
            InitEvent::Status(s) => match step_spec(self.step) {
                Step::Wait => if input_clear(s) {
                    self.next_step()
                } else if self.polls + 1 >= POLL_LIMIT {
                    self.failed()
                } else {
                    self.polled()
                },
                Step::Flush => if output_full(s) {
                    InitState { pending: true, ..self }
                } else {
                    self.next_step()
                },
                _ => if output_full(s) {
                    InitState { pending: true, ..self }
                } else if self.polls + 1 >= POLL_LIMIT {
                    self.after_byte(None)
                } else {
                    self.polled()
                },
            },
        }
    }

    /// The step is one of the steps, and the polls are within their limit.
    pub open spec fn wf(self) -> bool {
        &&& self.step <= INIT_STEPS || self.step == INIT_FAILED
        &&& self.polls < POLL_LIMIT
    }
}

/// Brings the PS/2 keyboard up: 8042 self-test, IRQ enable, keyboard reset,
/// scanning on. The caller does what [`KeyboardInit::action`] says and hands
/// what came of it to [`KeyboardInit::advance`], until it is done.
pub struct KeyboardInit {
    pub(crate) state: InitState,
}

impl View for KeyboardInit {
    type V = InitState;

    open(crate) spec fn view(&self) -> InitState {
        self.state
    }
}

/// Begin to bring the PS/2 keyboard up.
pub fn init() -> (r: KeyboardInit)
    ensures
        r@ == (InitState { step: 0, polls: 0, pending: false, config: 0 }),
        r@.wf(),
{
    KeyboardInit { state: InitState { step: 0, polls: 0, pending: false, config: 0 } }
}

impl KeyboardInit {
    /// What is to be done next. `Done(false)` says that the controller or the
    /// device misbehaved.
    pub fn action(&self) -> (r: InitAction)
        ensures
            r == self@.action(),
    {
        match step_of(self.state.step) {
            Step::Wait => InitAction::ReadStatus,
            Step::Send(w) => InitAction::Write(w),
            Step::SendConfig => InitAction::Write(
                out(PS2_DATA, (self.state.config | CONFIG_KBD_INT) & !CONFIG_TRANSLATE),
            ),
            Step::End => InitAction::Done(self.state.step == INIT_STEPS),
            _ => {
                if self.state.pending {
                    InitAction::ReadData
                } else {
                    InitAction::ReadStatus
                }
            },
        }
    }

    fn go_on(&mut self)
        requires
            old(self)@.step < INIT_STEPS,
        ensures
            final(self)@ == old(self)@.next_step(),
    {
        self.state = InitState {
            step: self.state.step + 1,
            polls: 0,
            pending: false,
            config: self.state.config,
        };
    }

    fn fail(&mut self)
        ensures
            final(self)@ == old(self)@.failed(),
    {
        self.state = InitState {
            step: INIT_FAILED,
            polls: 0,
            pending: false,
            config: self.state.config,
        };
    }

    /// A byte has been read, or none came.
    fn take_byte(&mut self, byte: Option<u8>)
        requires
            old(self)@.wf(),
            old(self)@.step < INIT_STEPS,
        ensures
            final(self)@ == old(self)@.after_byte(byte),
            final(self)@.wf(),
    {
        match step_of(self.state.step) {
            Step::Flush => {
                self.state.pending = false;
            },
            Step::Expect(want) => {
                let good = match byte {
                    Some(b) => b == want,
                    None => false,
                };
                if good {
                    self.go_on();
                } else {
                    self.fail();
                }
            },
            Step::ReadConfig => {
                match byte {
                    Some(b) => {
                        self.go_on();
                        self.state.config = b;
                    },
                    None => {
                        self.fail();
                    },
                }
            },
            _ => {
                self.go_on();
            },
        }
    }

    /// Go on with what came of the action.
    pub fn advance(&mut self, event: InitEvent)
        requires
            old(self)@.wf(),
            old(self)@.answered_by(event),
        ensures
            final(self)@ == old(self)@.after(event),
            final(self)@.wf(),
    {
        match event {
            InitEvent::Written => {
                self.go_on();
            },
            InitEvent::Data(b) => {
                self.take_byte(Some(b));
            },
            InitEvent::Status(s) => {
                match step_of(self.state.step) {
                    Step::Wait => {
                        if s & STATUS_INPUT_FULL == 0 {
                            self.go_on();
                        } else if self.state.polls + 1 >= POLL_LIMIT {
                            self.fail();
                        } else {
                            self.state.polls = self.state.polls + 1;
                        }
                    },
                    Step::Flush => {
                        if s & STATUS_OUTPUT_FULL != 0 {
                            self.state.pending = true;
                        } else {
                            self.go_on();
                        }
                    },
                    _ => {
                        if s & STATUS_OUTPUT_FULL != 0 {
                            self.state.pending = true;
                        } else if self.state.polls + 1 >= POLL_LIMIT {
                            self.take_byte(None);
                        } else {
                            self.state.polls = self.state.polls + 1;
                        }
                    },
                }
            },
        }
    }
}

/// The steps are gone through in order: an event moves on to the next step,
/// stays in the step, or ends in failure. So the keyboard comes up only where
/// every step has been passed.
pub proof fn law_init_goes_in_order(state: InitState, event: InitEvent)
    requires
        state.wf(),
        state.answered_by(event),
    ensures
        state.after(event).wf(),
        state.after(event).step == state.step || state.after(event).step == state.step + 1
            || state.after(event).step == INIT_FAILED,
        state.after(event).action() == InitAction::Done(true) <==> state.step == INIT_STEPS - 1
            && event == InitEvent::Data(ACK),
{
}

/// A byte other than the expected one, or none, fails the initialization; a
/// missing self-test result of the keyboard does not.
pub proof fn law_init_wants_its_answers(state: InitState, byte: Option<u8>)
    requires
        state.wf(),
        state.step < INIT_STEPS,
    ensures
        state.step == 5 ==> (state.after_byte(byte).step == 6 <==> byte == Some(SELF_TEST_OK)),
        (state.step == 17 || state.step == 21 || state.step == 24 || state.step == 27) ==> (
        state.after_byte(byte).step == state.step + 1 <==> byte == Some(ACK)),
        state.step == 8 ==> (state.after_byte(byte).step == 9 <==> byte is Some),
        state.step == 18 ==> state.after_byte(byte).step == 19,
{
}

/// The configuration written back enables the keyboard IRQ, turns translation
/// off, and keeps every other bit.
pub proof fn law_new_config(config: u8)
    ensures
        new_config(config) & CONFIG_KBD_INT == CONFIG_KBD_INT,
        new_config(config) & CONFIG_TRANSLATE == 0,
        new_config(config) & 0xBE == config & 0xBE,
{
    assert(((config | 1) & !0x40u8) & 1 == 1) by (bit_vector);
    assert(((config | 1) & !0x40u8) & 0x40 == 0) by (bit_vector);
    assert(((config | 1) & !0x40u8) & 0xBE == config & 0xBE) by (bit_vector);
}

/// What has been typed comes out in the order in which it was typed, and a
/// full ring drops what comes late.
pub proof fn law_queue_is_first_in_first_out(queue: Seq<u8>, c: u8)
    requires
        0 < queue.len() < RING_SIZE - 1,
    ensures
        queued(queue, c)[0] == queue[0],
        queued(queue, c).drop_first() == queued(queue.drop_first(), c),
        queued(queue, c).last() == c,
{
    assert(queued(queue, c).drop_first() =~= queued(queue.drop_first(), c));
}

/// The key whose unshifted character is a letter types that letter, in upper
/// case when exactly one of shift and caps lock is on, and in lower case
/// otherwise.
pub proof fn law_letters_follow_shift_and_caps(code: u8, shift: bool, caps: bool)
    ensures
        translated(code, false, false) matches Some(c) ==> 'a' <= c && c <= 'z' ==> translated(
            code,
            shift,
            caps,
        ) == Some(
            if shift != caps {
                (c as u32 - 'a' as u32 + 'A' as u32) as char
            } else {
                c
            },
        ),
{
}

/// Caps lock changes letters only, and shift turns into something else every
/// printable character but the space.
pub proof fn law_caps_lock_is_for_letters(code: u8, shift: bool)
    ensures
        translated(code, false, false) matches Some(c) ==> !('a' <= c && c <= 'z') ==> {
            &&& translated(code, shift, true) == translated(code, shift, false)
            &&& c > ' ' ==> translated(code, true, false) is Some && translated(code, true, false)
                != Some(c)
            &&& c <= ' ' ==> translated(code, true, false) == Some(c)
        },
        translated(code, false, false) is None ==> translated(code, shift, true) is None
            && translated(code, shift, false) is None,
{
}

/// Two keys, or one key with shift and without, do not type the same printable
/// character.
#[verifier::spinoff_prover]
pub proof fn law_keys_differ(code: u8, shift: bool, other: u8, other_shift: bool)
    requires
        code != other || shift != other_shift,
        translated(code, shift, false) matches Some(c) && c > ' ',
    ensures
        translated(code, shift, false) != translated(other, other_shift, false),
{
}

/// The rows of letters are those of the US layout.
#[verifier::spinoff_prover]
pub proof fn law_letter_rows(i: int, shift: bool, caps: bool)
    ensures
        0 <= i < 10 ==> translated((0x10 + i) as u8, shift, caps) == Some(
            if shift != caps {
                "QWERTYUIOP"@[i]
            } else {
                "qwertyuiop"@[i]
            },
        ),
        0 <= i < 9 ==> translated((0x1E + i) as u8, shift, caps) == Some(
            if shift != caps {
                "ASDFGHJKL"@[i]
            } else {
                "asdfghjkl"@[i]
            },
        ),
        0 <= i < 7 ==> translated((0x2C + i) as u8, shift, caps) == Some(
            if shift != caps {
                "ZXCVBNM"@[i]
            } else {
                "zxcvbnm"@[i]
            },
        ),
{
    reveal_strlit("QWERTYUIOP");
    reveal_strlit("qwertyuiop");
    reveal_strlit("ASDFGHJKL");
    reveal_strlit("asdfghjkl");
    reveal_strlit("ZXCVBNM");
    reveal_strlit("zxcvbnm");
}

/// The digits and the punctuation are those of the US layout, and shift types
/// what is above them on the keys.
#[verifier::spinoff_prover]
pub proof fn law_symbol_rows(i: int, shift: bool, caps: bool)
    ensures
        0 <= i < 12 ==> translated((0x02 + i) as u8, shift, caps) == Some(
            if shift {
                "!@#$%^&*()_+"@[i]
            } else {
                "1234567890-="@[i]
            },
        ),
        0 <= i < 2 ==> translated((0x1A + i) as u8, shift, caps) == Some(
            if shift {
                "{}"@[i]
            } else {
                "[]"@[i]
            },
        ),
        0 <= i < 3 ==> translated((0x27 + i) as u8, shift, caps) == Some(
            if shift {
                ":\"~"@[i]
            } else {
                ";'`"@[i]
            },
        ),
        translated(0x2B, shift, caps) == Some(
            if shift {
                '|'
            } else {
                '\\'
            },
        ),
        0 <= i < 3 ==> translated((0x33 + i) as u8, shift, caps) == Some(
            if shift {
                "<>?"@[i]
            } else {
                ",./"@[i]
            },
        ),
{
    reveal_strlit("!@#$%^&*()_+");
    reveal_strlit("1234567890-=");
    reveal_strlit("{}");
    reveal_strlit("[]");
    reveal_strlit(":\"~");
    reveal_strlit(";'`");
    reveal_strlit("<>?");
    reveal_strlit(",./");
}

/// Escape, backspace, tab, return and the space bar type their character
/// whatever else is held, and the keys that are left type nothing.
pub proof fn law_other_keys(code: u8, shift: bool, caps: bool)
    ensures
        translated(0x01, shift, caps) == Some('\u{1b}'),
        translated(0x0E, shift, caps) == Some('\u{8}'),
        translated(0x0F, shift, caps) == Some('\t'),
        translated(0x1C, shift, caps) == Some('\n'),
        translated(0x39, shift, caps) == Some(' '),
        code == 0 || code == 0x1D || code == 0x2A || 0x36 <= code <= 0x38 || code >= 0x3A
            ==> translated(code, shift, caps) is None,
{
}

/// Shift is on from the press of a shift key, the left or the right one, to
/// the next release of one.
pub proof fn law_shift_is_on_while_held(keys: KeyState, code: u8)
    requires
        !keys.extended,
        code == 0x2A || code == 0x36,
    ensures
        keys_after(keys, code) == (KeyState { shift: true, ..keys }),
        keys_after(keys, (code + 0x80) as u8) == (KeyState { shift: false, ..keys }),
{
}

/// Caps lock goes on with one press of its key and off with the next; letting
/// go of the key does nothing.
pub proof fn law_caps_lock_toggles(keys: KeyState)
    requires
        !keys.extended,
    ensures
        keys_after(keys, 0x3A) == (KeyState { caps: !keys.caps, ..keys }),
        keys_after(keys_after(keys, 0x3A), 0x3A) == keys,
        keys_after(keys, 0xBA) == keys,
{
}

/// No key but shift and caps lock changes what the others type.
pub proof fn law_other_keys_change_nothing(keys: KeyState, code: u8)
    requires
        !keys.extended,
        code != 0x2A && code != 0x36 && code != 0xAA && code != 0xB6 && code != 0x3A && code
            != 0xE0,
    ensures
        keys_after(keys, code) == keys,
{
}

/// An extended key is skipped: the prefix and the code behind it type nothing,
/// and leave the keys as they were.
pub proof fn law_extended_keys_are_skipped(keys: KeyState, code: u8)
    requires
        !keys.extended,
    ensures
        typed(keys, 0xE0) is None,
        typed(keys_after(keys, 0xE0), code) is None,
        keys_after(keys_after(keys, 0xE0), code) == keys,
{
}

/// A press types what its key gives under shift and caps lock, and a release
/// types nothing.
pub proof fn law_presses_type(keys: KeyState, code: u8)
    requires
        !keys.extended,
    ensures
        code < 0x80 ==> typed(keys, code) == translated(code, keys.shift, keys.caps),
        code >= 0x80 ==> typed(keys, code) is None,
{
}

/// There is room for 63 characters; what is typed then is lost, and nothing
/// that was typed before.
pub proof fn law_queue_holds_63(queue: Seq<u8>, c: u8)
    ensures
        queue.len() < 63 ==> queued(queue, c) == queue.push(c),
        queue.len() >= 63 ==> queued(queue, c) == queue,
{
}

/// What a status byte says: bit 0 is set where a byte can be read, bit 1 where
/// none can be written.
pub proof fn law_status_bits(status: u8)
    by (bit_vector)
    ensures
        output_full(status) <==> status % 2 == 1,
        input_clear(status) <==> (status / 2) % 2 == 0,
{
}

/// The bytes that are written to the controller (port 0x64) and the keyboard
/// (port 0x60), in order: keyboard off, self-test, read and write the
/// configuration, keyboard on; then reset, scancode set 1, scanning on. All
/// other steps read.
pub proof fn law_init_writes(state: InitState, value: u8, port: u16)
    requires
        state.wf(),
        state.action() == InitAction::Write(PortWrite { port, value }),
    ensures
        state.step == 1 && port == 0x64 && value == 0xAD || state.step == 4 && port == 0x64 && value
            == 0xAA || state.step == 7 && port == 0x64 && value == 0x20 || state.step == 10 && port
            == 0x64 && value == 0x60 || state.step == 12 && port == 0x60 && value == new_config(
            state.config,
        ) || state.step == 14 && port == 0x64 && value == 0xAE || state.step == 16 && port == 0x60
            && value == 0xFF || state.step == 20 && port == 0x60 && value == 0xF0 || state.step
            == 23 && port == 0x60 && value == 0x01 || state.step == 26 && port == 0x60 && value
            == 0xF4,
{
}

/// Those writes are made, and each of them once the controller takes input:
/// the step before it waits for that, or for the output to be drained.
pub proof fn law_init_waits_before_it_writes(state: InitState)
    requires
        state.wf(),
        state.step == 1 || state.step == 4 || state.step == 7 || state.step == 10 || state.step
            == 12 || state.step == 14 || state.step == 16 || state.step == 20 || state.step == 23
            || state.step == 26,
    ensures
        state.action() is Write,
        state.step != 4 ==> step_spec((state.step - 1) as u8) == Step::Wait,
        state.step == 4 ==> step_spec(3) == Step::Flush && step_spec(2) == Step::Wait,
{
}

/// The answers that are asked for: 0x55 to the self-test, then 0xFA to each
/// byte sent to the keyboard. Anything else fails the initialization.
pub proof fn law_init_checks_its_answers(state: InitState, b: u8)
    requires
        state.wf(),
    ensures
        state.step == 5 ==> (state.after(InitEvent::Data(b)).step == 6 <==> b == 0x55) && (
        state.after(InitEvent::Data(b)).action() == InitAction::Done(false) <==> b != 0x55),
        state.step == 17 || state.step == 21 || state.step == 24 ==> (state.after(
            InitEvent::Data(b),
        ).step == state.step + 1 <==> b == 0xFA) && (state.after(InitEvent::Data(b)).action()
            == InitAction::Done(false) <==> b != 0xFA),
        state.step == 27 ==> state.after(InitEvent::Data(b)).action() == InitAction::Done(
            b == 0xFA,
        ),
        state.step == 8 ==> state.after(InitEvent::Data(b)).config == b,
        state.step != 8 ==> state.after(InitEvent::Data(b)).config == state.config,
{
}

/// A wait ends when the status is the awaited one, goes on for up to 100000
/// looks at it, and then fails, but for the self-test result of the keyboard,
/// which is done without.
pub proof fn law_init_is_patient(state: InitState, status: u8)
    requires
        state.wf(),
        state.answered_by(InitEvent::Status(status)),
        step_spec(state.step) != Step::Flush,
    ensures
        ({
            let next = state.after(InitEvent::Status(status));
            let ready = if step_spec(state.step) == Step::Wait {
                (status / 2) % 2 == 0
            } else {
                status % 2 == 1
            };
            &&& ready && step_spec(state.step) == Step::Wait ==> next.step == state.step + 1
            &&& ready && step_spec(state.step) != Step::Wait ==> next.step == state.step
                && next.action() == InitAction::ReadData
            &&& !ready && state.polls < 99_999 ==> next.step == state.step && next.polls
                == state.polls + 1 && next.action() == InitAction::ReadStatus
            &&& !ready && state.polls >= 99_999 && state.step != 18 ==> next.action()
                == InitAction::Done(false)
            &&& !ready && state.polls >= 99_999 && state.step == 18 ==> next.step == 19
        }),
{
    law_status_bits(status);
}

/// What is left in the output buffer is thrown away, until nothing is left.
pub proof fn law_init_drains_the_output(state: InitState, status: u8, b: u8)
    requires
        state.wf(),
        state.step == 3,
    ensures
        status % 2 == 1 ==> state.after(InitEvent::Status(status)).step == 3 && state.after(
            InitEvent::Status(status),
        ).action() == InitAction::ReadData,
        status % 2 == 0 ==> state.after(InitEvent::Status(status)).step == 4,
        state.after(InitEvent::Data(b)).step == 3 && state.after(InitEvent::Data(b)).action()
            == InitAction::ReadStatus,
{
    law_status_bits(status);
}

/// Shift has a symbol for each digit and punctuation character, and for no
/// other character.
#[verifier::spinoff_prover]
pub proof fn law_shifted_symbols(c: char, i: int)
    ensures
        0 <= i < 21 ==> shifted_symbol_spec("1234567890-=[]\\;'`,./"@[i]) == Some(
            "!@#$%^&*()_+{}|:\"~<>?"@[i],
        ),
        shifted_symbol_spec(c) is Some ==> "1234567890-=[]\\;'`,./"@.contains(c),
{
    let plain = "1234567890-=[]\\;'`,./"@;
    reveal_strlit("1234567890-=[]\\;'`,./");
    reveal_strlit("!@#$%^&*()_+{}|:\"~<>?");
    if shifted_symbol_spec(c) is Some {
        assert(plain[0] == '1' && plain[1] == '2' && plain[2] == '3' && plain[3] == '4');
        assert(plain[4] == '5' && plain[5] == '6' && plain[6] == '7' && plain[7] == '8');
        assert(plain[8] == '9' && plain[9] == '0' && plain[10] == '-' && plain[11] == '=');
        assert(plain[12] == '[' && plain[13] == ']' && plain[14] == '\\' && plain[15] == ';');
        assert(plain[16] == '\'' && plain[17] == '`' && plain[18] == ',' && plain[19] == '.');
        assert(plain[20] == '/');
    }
}

} // verus!
