//! The interactive shell: a line editor and a small command set.
//!
//! The caller prompts, feeds each incoming character (keyboard ring or serial
//! port) to [`run`], and hands completed lines to [`execute`].

use crate::allocator::free_frame_count;
use crate::heap::{heap_allocated, heap_total, Heap};
use crate::pmm::Pmm;
use crate::process::{self, spawn_notice, spawn_process};
use crate::sched::{self, kill, snapshot, ProcDesc, Scheduler};
use crate::text::{self, is_text, is_utf8, parse_u32, push_bytes, push_dec, push_padded, push_str};
use crate::vmm::PageTable;
use vstd::prelude::*;
use vstd::string::*;

verus! {

/// Longest line that can be typed.
pub const MAX_LINE: usize = 127;

/// The prompt.
pub fn prompt() -> (r: &'static str)
    ensures
        r@ == "rolnix> "@,
{
    "rolnix> "
}

/// True if `c` can be part of a line: an ASCII graphic character or a space.
pub open spec fn is_line_char(c: char) -> bool {
    ' ' <= c && c <= '~'
}

/// True if the bytes could have been typed as a line.
pub open spec fn is_line(line: Seq<u8>) -> bool {
    &&& line.len() <= MAX_LINE
    &&& forall|i: int| 0 <= i < line.len() ==> 32 <= #[trigger] line[i] <= 126
}

/// True if `b` is not the first byte of a character.
pub open spec fn is_continuation(b: u8) -> bool {
    0x80 <= b <= 0xbf
}

/// The line without its last character, which may take several bytes.
pub open spec fn without_last(line: Seq<u8>) -> Seq<u8>
    decreases line.len(),
{
    if line.len() == 0 {
        line
    } else if is_continuation(line.last()) {
        without_last(line.drop_last())
    } else {
        line.drop_last()
    }
}

/// What a character does to the line.
pub open spec fn edited(line: Seq<u8>, c: char) -> Seq<u8> {
    if c == '\n' || c == '\r' {
        line
    } else if c == '\u{8}' || c == '\u{7f}' {
        without_last(line)
    } else if is_line_char(c) && line.len() < MAX_LINE {
        line.push(c as u8)
    } else {
        line
    }
}

/// What is echoed for a character.
pub open spec fn echoed(line: Seq<u8>, c: char) -> Seq<u8> {
    if c == '\n' || c == '\r' {
        seq![13u8, 10u8]
    } else if c == '\u{8}' || c == '\u{7f}' {
        if line.len() > 0 {
            seq![8u8, 32u8, 8u8]
        } else {
            Seq::empty()
        }
    } else if is_line_char(c) && line.len() < MAX_LINE {
        seq![c as u8]
    } else {
        Seq::empty()
    }
}

/// Remove the last character.
fn pop_char(line: &mut Vec<u8>)
    ensures
        final(line)@ == without_last(old(line)@),
        is_line(old(line)@) ==> is_line(final(line)@),
{
    let mut more = true;
    while more && line.len() > 0
        invariant
            more ==> without_last(line@) == without_last(old(line)@),
            !more ==> line@ == without_last(old(line)@),
            is_line(old(line)@) ==> is_line(line@),
        decreases line@.len(),
    {
        let last = line[line.len() - 1];
        let ghost before = line@;
        let _ = line.pop();
        assert(line@ =~= before.drop_last());
        more = last >= 0x80 && last <= 0xbf;
    }
}

/// Feed one character into the line buffer. Returns whether the line is
/// complete (Enter), and what to echo.
pub fn edit_line(line: &mut Vec<u8>, c: char) -> (r: (bool, Vec<u8>))
    ensures
        is_line(old(line)@) ==> is_line(final(line)@),
        final(line)@ == edited(old(line)@, c),
        r.0 == (c == '\n' || c == '\r'),
        r.1@ == echoed(old(line)@, c),
{
    let mut echo: Vec<u8> = Vec::new();
    if c == '\n' || c == '\r' {
        echo.push(13);
        echo.push(10);
        assert(echo@ =~= echoed(old(line)@, c));
        return (true, echo);
    }
    if c == '\u{8}' || c == '\u{7f}' {
        if line.len() > 0 {
            pop_char(line);
            echo.push(8);
            echo.push(32);
            echo.push(8);
        }
    } else if ' ' <= c && c <= '~' {
        if line.len() < MAX_LINE {
            line.push(c as u8);
            echo.push(c as u8);
        }
    }
    assert(echo@ =~= echoed(old(line)@, c));
    (false, echo)
}

/// The shell between two characters: the line typed so far.
pub struct Shell {
    pub(crate) line: Vec<u8>,
}

impl View for Shell {
    type V = Seq<u8>;

    open(crate) spec fn view(&self) -> Seq<u8> {
        self.line@
    }
}

/// What one turn of the shell's loop asks for.
pub enum Turn {
    /// Nothing was typed.
    Wait,
    /// Print this and go on reading.
    Echo(Vec<u8>),
    /// Print this, execute the line, and prompt for the next.
    Enter(Vec<u8>, Vec<u8>),
}

impl Shell {
    /// A shell at an empty line.
    pub fn new() -> (r: Shell)
        ensures
            r@ == Seq::<u8>::empty(),
            is_line(r@),
    {
        Shell { line: Vec::new() }
    }
}

/// The character that a turn takes: the keyboard comes before the serial port.
pub open spec fn taken(key: Option<char>, byte: Option<u8>) -> Option<char> {
    match (key, byte) {
        (Some(c), _) => Some(c),
        (None, Some(b)) => Some(b as char),
        (None, None) => None,
    }
}

/// One turn of the shell's loop, with the character that came from the
/// keyboard, or the byte that came from the serial port.
pub fn run(shell: &mut Shell, key: Option<char>, byte: Option<u8>) -> (r: Turn)
    ensures
        is_line(old(shell)@) ==> is_line(final(shell)@),
        match taken(key, byte) {
            None => r is Wait && final(shell)@ == old(shell)@,
            Some(c) => if c == '\n' || c == '\r' {
                &&& final(shell)@ == Seq::<u8>::empty()
                &&& r matches Turn::Enter(echo, line)
                &&& echo@ == echoed(old(shell)@, c)
                &&& line@ == old(shell)@
            } else {
                &&& final(shell)@ == edited(old(shell)@, c)
                &&& r matches Turn::Echo(echo)
                &&& echo@ == echoed(old(shell)@, c)
            },
        },
{
    let c = match key {
        Some(c) => c,
        None => match byte {
            Some(b) => b as char,
            None => {
                return Turn::Wait;
            },
        },
    };
    let (complete, echo) = edit_line(&mut shell.line, c);
    if !complete {
        return Turn::Echo(echo);
    }
    let mut line: Vec<u8> = Vec::new();
    push_bytes(&mut line, shell.line.as_slice());
    assert(line@ =~= shell.line@);
    shell.line.clear();
    Turn::Enter(echo, line)
}

// ---------------------------------------------------------------------------
// Words
// ---------------------------------------------------------------------------

/// Number of bytes of the white-space character that starts at byte `i` of
/// `line`; 0 if there is none. White space is what has the Unicode property of
/// that name: a space, the control characters from tab to carriage return, and
/// the wider spaces and line separators, in UTF-8.
pub open spec fn space_len(line: Seq<u8>, i: int) -> int {
    let a = line[i];
    let b = line[i + 1];
    let c = line[i + 2];
    if !(0 <= i < line.len()) {
        0
    } else if a == 32 || 9 <= a <= 13 {
        1
    } else if i + 1 < line.len() && a == 0xc2 && (b == 0x85 || b == 0xa0) {
        2
    } else if i + 2 < line.len() && a == 0xe1 && b == 0x9a && c == 0x80 {
        3
    } else if i + 2 < line.len() && a == 0xe2 && b == 0x80 && (0x80 <= c <= 0x8a || c == 0xa8 || c
        == 0xa9 || c == 0xaf) {
        3
    } else if i + 2 < line.len() && a == 0xe2 && b == 0x81 && c == 0x9f {
        3
    } else if i + 2 < line.len() && a == 0xe3 && b == 0x80 && c == 0x80 {
        3
    } else {
        0
    }
}

/// True if byte `i` of `line` is part of a white-space character.
pub open spec fn white(line: Seq<u8>, i: int) -> bool {
    space_len(line, i) >= 1 || space_len(line, i - 1) >= 2 || space_len(line, i - 2) >= 3
}

/// The words among the first `n` bytes of a line: what stands between white
/// space. The flag says whether the last byte belongs to a word.
pub open spec fn split(line: Seq<u8>, n: int) -> (Seq<Seq<u8>>, bool)
    decreases n,
{
    if n <= 0 {
        (Seq::empty(), false)
    } else {
        let (words, in_word) = split(line, n - 1);
        if white(line, n - 1) {
            (words, false)
        } else if in_word {
            (words.drop_last().push(words.last().push(line[n - 1])), true)
        } else {
            (words.push(seq![line[n - 1]]), true)
        }
    }
}

/// The words of a line.
pub open spec fn words(line: Seq<u8>) -> Seq<Seq<u8>> {
    split(line, line.len() as int).0
}

/// `words` with one space between each two.
pub open spec fn joined(words: Seq<Seq<u8>>) -> Seq<u8>
    decreases words.len(),
{
    if words.len() == 0 {
        Seq::empty()
    } else if words.len() == 1 {
        words[0]
    } else {
        joined(words.drop_last()).push(32) + words.last()
    }
}

/// The words behind the first, joined by spaces.
pub open spec fn arguments(line: Seq<u8>) -> Seq<u8> {
    joined(words(line).drop_first())
}

/// Byte `c` stands in `line` outside of white space.
pub open spec fn in_text(line: Seq<u8>, c: u8) -> bool {
    exists|j: int| 0 <= j < line.len() && line[j] == c && !#[trigger] white(line, j)
}

/// Words are not empty, and are made of what stands in the line outside of
/// white space.
pub proof fn law_words_are_words(line: Seq<u8>, k: int)
    requires
        0 <= k < words(line).len(),
    ensures
        words(line)[k].len() > 0,
        forall|i: int|
            0 <= i < words(line)[k].len() ==> in_text(line, #[trigger] words(line)[k][i]),
{
    lemma_split(line, line.len() as int);
}

proof fn lemma_split(line: Seq<u8>, n: int)
    requires
        0 <= n <= line.len(),
    ensures
        split(line, n).1 ==> split(line, n).0.len() > 0,
        forall|k: int|
            0 <= k < split(line, n).0.len() ==> (#[trigger] split(line, n).0[k]).len() > 0,
        forall|k: int, i: int|
            0 <= k < split(line, n).0.len() && 0 <= i < split(line, n).0[k].len() ==> in_text(
                line,
                #[trigger] split(line, n).0[k][i],
            ),
    decreases n,
{
    if n > 0 {
        lemma_split(line, n - 1);
        let (ws, in_word) = split(line, n - 1);
        let all = split(line, n).0;
        assert forall|k: int, i: int| 0 <= k < all.len() && 0 <= i < all[k].len() implies in_text(
            line,
            #[trigger] all[k][i],
        ) by {
            let c = all[k][i];
            if white(line, n - 1) || k < ws.len() - 1 || (!in_word && k < ws.len()) || (in_word && k
                == ws.len() - 1 && i < ws[k].len()) {
                assert(ws[k][i] == c);
            } else {
                assert(c == line[n - 1]);
                assert(!white(line, n - 1));
            }
        }
    }
}

/// The views of a list of byte strings.
pub open spec fn views(list: Seq<Vec<u8>>) -> Seq<Seq<u8>> {
    list.map_values(|w: Vec<u8>| w@)
}

/// Number of bytes of the white-space character that starts at byte `i`.
fn space_at(line: &[u8], i: usize) -> (r: usize)
    requires
        i < line@.len(),
    ensures
        r == space_len(line@, i as int),
{
    let left = line.len() - i;
    let a = line[i];
    if a == 32 || (9 <= a && a <= 13) {
        return 1;
    }
    if left < 2 {
        return 0;
    }
    let b = line[i + 1];
    if a == 0xc2 && (b == 0x85 || b == 0xa0) {
        return 2;
    }
    if left < 3 {
        return 0;
    }
    let c = line[i + 2];
    let wide = match (a, b) {
        (0xe1, 0x9a) => c == 0x80,
        (0xe2, 0x80) => (0x80 <= c && c <= 0x8a) || c == 0xa8 || c == 0xa9 || c == 0xaf,
        (0xe2, 0x81) => c == 0x9f,
        (0xe3, 0x80) => c == 0x80,
        _ => false,
    };
    if wide {
        3
    } else {
        0
    }
}

/// True if byte `i` is part of a white-space character.
fn is_white(line: &[u8], i: usize) -> (r: bool)
    requires
        i < line@.len(),
    ensures
        r == white(line@, i as int),
{
    space_at(line, i) >= 1 || (i >= 1 && space_at(line, i - 1) >= 2) || (i >= 2 && space_at(
        line,
        i - 2,
    ) >= 3)
}

/// The words of a line.
fn split_words(line: &[u8]) -> (r: Vec<Vec<u8>>)
    ensures
        views(r@) == words(line@),
{
    let mut out: Vec<Vec<u8>> = Vec::new();
    let mut word: Vec<u8> = Vec::new();
    let mut i: usize = 0;
    assert(views(out@) =~= Seq::empty());
    while i < line.len()
        invariant
            i <= line@.len(),
            ({
                let (ws, in_word) = split(line@, i as int);
                &&& in_word == (word@.len() > 0)
                &&& ws == (if in_word {
                    views(out@).push(word@)
                } else {
                    views(out@)
                })
            }),
        decreases line@.len() - i,
    {
        let c = line[i];
        let ghost list = out@;
        let ghost w = word@;
        if is_white(line, i) {
            if word.len() > 0 {
                out.push(word);
                word = Vec::new();
                assert(views(out@) =~= views(list).push(w));
            }
        } else {
            word.push(c);
            proof {
                if w.len() > 0 {
                    let ws = views(list).push(w);
                    assert(ws.drop_last() =~= views(list));
                    assert(split(line@, i + 1).0 =~= views(list).push(w.push(c)));
                } else {
                    assert(w.push(c) =~= seq![c]);
                }
            }
        }
        i = i + 1;
    }
    let ghost list = out@;
    let ghost w = word@;
    if word.len() > 0 {
        out.push(word);
        assert(views(out@) =~= views(list).push(w));
    }
    out
}

/// The words behind the first, joined by spaces.
fn join_rest(list: &Vec<Vec<u8>>) -> (r: Vec<u8>)
    requires
        list@.len() > 0,
    ensures
        r@ == joined(views(list@).drop_first()),
{
    let ghost ws = views(list@).drop_first();
    let mut out: Vec<u8> = Vec::new();
    let mut i: usize = 1;
    assert(ws.take(0) =~= Seq::empty());
    while i < list.len()
        invariant
            1 <= i <= list@.len(),
            ws == views(list@).drop_first(),
            out@ == joined(ws.take(i - 1)),
        decreases list@.len() - i,
    {
        let ghost longer = ws.take(i as int);
        assert(longer.drop_last() =~= ws.take(i - 1));
        assert(longer.last() == list@[i as int]@);
        if i > 1 {
            out.push(32);
        }
        push_bytes(&mut out, list[i].as_slice());
        assert(out@ =~= joined(longer));
        i = i + 1;
    }
    assert(ws.take(ws.len() as int) =~= ws);
    out
}

// ---------------------------------------------------------------------------
// Commands
// ---------------------------------------------------------------------------

/// What a line asks for.
pub enum Command {
    /// An empty line.
    Nothing,
    Help,
    Echo(Vec<u8>),
    Info,
    Ticks,
    /// Spawn a process with the given name.
    Spawn(Vec<u8>),
    Ps,
    /// `kill` without a process number.
    KillUsage,
    /// `kill` with something that is not a number.
    KillBadNumber,
    Kill(u32),
    Fault,
    Double,
    Halt,
    /// An unknown command.
    Unknown(Vec<u8>),
}

/// True if `command` is what `line` asks for.
pub open spec fn asks_for(line: Seq<u8>, command: Command) -> bool {
    let ws = words(line);
    let rest = arguments(line);
    if ws.len() == 0 {
        command is Nothing
    } else if ws[0] == text::text("help"@) {
        command is Help
    } else if ws[0] == text::text("echo"@) {
        command matches Command::Echo(s) && s@ == rest
    } else if ws[0] == text::text("info"@) {
        command is Info
    } else if ws[0] == text::text("ticks"@) {
        command is Ticks
    } else if ws[0] == text::text("spawn"@) {
        command matches Command::Spawn(name) && name@ == (if rest.len() == 0 {
            text::text("proc"@)
        } else {
            rest
        })
    } else if ws[0] == text::text("ps"@) {
        command is Ps
    } else if ws[0] == text::text("kill"@) {
        if rest.len() == 0 {
            command is KillUsage
        } else if text::parsed(rest) is None {
            command is KillBadNumber
        } else {
            command matches Command::Kill(pid) && Some(pid) == text::parsed(rest)
        }
    } else if ws[0] == text::text("fault"@) {
        command is Fault
    } else if ws[0] == text::text("double"@) {
        command is Double
    } else if ws[0] == text::text("halt"@) || ws[0] == text::text("exit"@) || ws[0] == text::text(
        "shutdown"@,
    ) {
        command is Halt
    } else {
        command matches Command::Unknown(cmd) && cmd@ == ws[0]
    }
}

/// What a line asks for.
pub fn parse_command(line: &[u8]) -> (r: Command)
    ensures
        asks_for(line@, r),
{
    let list = split_words(line);
    if list.len() == 0 {
        return Command::Nothing;
    }
    assert(words(line@)[0] == list@[0]@);
    let rest = join_rest(&list);
    let cmd = list[0].as_slice();
    if is_text(cmd, "help") {
        Command::Help
    } else if is_text(cmd, "echo") {
        Command::Echo(rest)
    } else if is_text(cmd, "info") {
        Command::Info
    } else if is_text(cmd, "ticks") {
        Command::Ticks
    } else if is_text(cmd, "spawn") {
        if rest.len() == 0 {
            let mut name: Vec<u8> = Vec::new();
            push_str(&mut name, "proc");
            assert(name@ =~= text::text("proc"@));
            Command::Spawn(name)
        } else {
            Command::Spawn(rest)
        }
    } else if is_text(cmd, "ps") {
        Command::Ps
    } else if is_text(cmd, "kill") {
        if rest.len() == 0 {
            Command::KillUsage
        } else {
            match parse_u32(rest.as_slice()) {
                Some(pid) => Command::Kill(pid),
                None => Command::KillBadNumber,
            }
        }
    } else if is_text(cmd, "fault") {
        Command::Fault
    } else if is_text(cmd, "double") {
        Command::Double
    } else if is_text(cmd, "halt") || is_text(cmd, "exit") || is_text(cmd, "shutdown") {
        Command::Halt
    } else {
        let mut name: Vec<u8> = Vec::new();
        push_bytes(&mut name, cmd);
        assert(name@ =~= cmd@);
        Command::Unknown(name)
    }
}

// ---------------------------------------------------------------------------
// Output
// ---------------------------------------------------------------------------

/// `s` as a line.
pub open spec fn line_of(s: Seq<u8>) -> Seq<u8> {
    s + text::text("\n"@)
}

/// The list of commands.
pub open spec fn help_text() -> Seq<u8> {
    line_of(
        text::text(
            "commands: help, echo <text>, info, ticks, spawn [name], ps, kill <pid>, fault, double, halt"@,
        ),
    )
}

/// Free frames, and how much of the heap is allocated.
pub open spec fn info_text(free: int, allocated: int, total: int) -> Seq<u8> {
    line_of(
        text::text("frames free: "@) + text::dec(free) + text::text("   heap: "@) + text::dec(
            allocated,
        ) + text::text("/"@) + text::dec(total),
    )
}

/// What came of spawning a process.
pub open spec fn spawn_text(r: Option<u32>, name: Seq<u8>) -> Seq<u8> {
    match r {
        Some(pid) => line_of(
            process::spawn_notice_spec(pid, name) + text::text("started pid "@) + text::dec(
                pid as int,
            ) + text::text(" ('"@) + name + text::text("')"@),
        ),
        None => line_of(text::text("spawn failed: no free slot or out of memory"@)),
    }
}

/// What came of killing a process.
pub open spec fn kill_text(pid: u32, killed: bool) -> Seq<u8> {
    if killed {
        line_of(text::text("pid "@) + text::dec(pid as int) + text::text(" killed"@))
    } else {
        line_of(text::text("kill "@) + text::dec(pid as int) + text::text(": not a live process"@))
    }
}

/// `name` without the zeroes at its end.
pub open spec fn trimmed(name: Seq<u8>) -> Seq<u8>
    decreases name.len(),
{
    if name.len() > 0 && name.last() == 0 {
        trimmed(name.drop_last())
    } else {
        name
    }
}

/// How the name of a process is shown.
pub open spec fn name_text(name: Seq<u8>) -> Seq<u8> {
    if vstd::utf8::valid_utf8(name) {
        trimmed(name)
    } else {
        text::text("<bad>"@)
    }
}

/// `head`, followed by one line per process.
pub open spec fn with_processes(head: Seq<u8>, list: Seq<ProcDesc>) -> Seq<u8>
    decreases list.len(),
{
    if list.len() == 0 {
        head
    } else {
        let d = list.last();
        with_processes(head, list.drop_last()) + text::text("  pid "@) + text::dec(d.pid as int)
            + text::text("  "@) + text::padded(
            text::text(
                if d.running {
                    "running"@
                } else {
                    "ready"@
                },
            ),
            8,
        ) + text::text(" "@) + name_text(d.name@) + text::text("\n"@)
    }
}

/// One line per live process.
pub open spec fn ps_text(list: Seq<ProcDesc>) -> Seq<u8> {
    with_processes(text::dec(list.len() as int) + text::text(" process(es):\n"@), list)
}

/// Append `s` as a line.
fn push_line(out: &mut Vec<u8>, s: &str)
    ensures
        final(out)@ == old(out)@ + text::text(s@) + text::text("\n"@),
{
    push_str(out, s);
    push_str(out, "\n");
}

/// Append `name` without the zeroes at its end.
fn push_trimmed(out: &mut Vec<u8>, name: &[u8; 16])
    ensures
        final(out)@ == old(out)@ + trimmed(name@),
{
    let mut n: usize = 16;
    assert(name@.take(16) =~= name@);
    while n > 0 && name[n - 1] == 0
        invariant
            n <= 16,
            trimmed(name@) == trimmed(name@.take(n as int)),
        decreases n,
    {
        assert(name@.take(n as int).drop_last() =~= name@.take(n - 1));
        n = n - 1;
    }
    let ghost rest = name@.take(n as int);
    assert(trimmed(rest) == rest);
    let mut i: usize = 0;
    while i < n
        invariant
            i <= n <= 16,
            rest == name@.take(n as int),
            out@ =~= old(out)@ + rest.take(i as int),
        decreases n - i,
    {
        out.push(name[i]);
        i = i + 1;
    }
    assert(rest.take(n as int) =~= rest);
}

/// Print one line per live process (shell command `ps`).
fn ps(sched: &Scheduler) -> (r: Vec<u8>)
    ensures
        r@ == ps_text(sched::live_list(sched.table(), 16)),
{
    let blank = ProcDesc { pid: 0, running: false, name: [0; 16] };
    let mut buf: Vec<ProcDesc> = vec![blank; sched::MAX_PROCESSES];
    let ghost list = sched::live_list(sched.table(), 16);
    proof {
        sched::lemma_live_list_len(sched.table(), 16);
    }
    let n = snapshot(sched, buf.as_mut_slice());
    let mut out: Vec<u8> = Vec::new();
    push_dec(&mut out, n as u64);
    assert(out@ =~= text::dec(n as int));
    push_str(&mut out, " process(es):\n");
    let ghost head = out@;
    assert(list.take(0) =~= Seq::empty());
    let mut i: usize = 0;
    while i < n
        invariant
            i <= n == list.len(),
            n <= buf@.len(),
            forall|j: int| 0 <= j < n ==> #[trigger] buf@[j] == list[j],
            out@ == with_processes(head, list.take(i as int)),
        decreases n - i,
    {
        let d = buf[i];
        assert(list.take(i + 1).drop_last() =~= list.take(i as int));
        assert(list.take(i + 1).last() == d);
        push_str(&mut out, "  pid ");
        push_dec(&mut out, d.pid as u64);
        push_str(&mut out, "  ");
        push_padded(
            &mut out,
            if d.running {
                "running"
            } else {
                "ready"
            },
            8,
        );
        push_str(&mut out, " ");
        if is_utf8(d.name.as_slice()) {
            push_trimmed(&mut out, &d.name);
        } else {
            push_str(&mut out, "<bad>");
        }
        push_str(&mut out, "\n");
        i = i + 1;
    }
    assert(list.take(n as int) =~= list);
    out
}

/// What is left to do after a command.
#[derive(Clone, Copy, PartialEq, Eq, Debug, Structural)]
pub enum ShellAction {
    /// Prompt for the next line.
    Prompt,
    /// Fault deliberately, to show that the exception is reported.
    Fault,
    /// Double-fault deliberately.
    DoubleFault,
    /// Stop the machine.
    Halt,
}

/// How much of the kernel heap is in use.
#[derive(Clone, Copy, PartialEq, Eq, Debug, Structural)]
pub struct HeapUse {
    /// Bytes allocated.
    pub allocated: u64,
    /// Bytes in all.
    pub total: u64,
}

/// How much of `heap` is in use.
pub fn heap_use(heap: &Heap) -> (r: HeapUse)
    requires
        heap.wf(),
    ensures
        r.allocated == heap.allocated_spec(),
        r.total == heap.total_spec(),
{
    HeapUse { allocated: heap_allocated(heap), total: heap_total(heap) }
}

/// What to do after `command`.
pub open spec fn action_after(command: Command) -> ShellAction {
    match command {
        Command::Fault => ShellAction::Fault,
        Command::Double => ShellAction::DoubleFault,
        Command::Halt => ShellAction::Halt,
        _ => ShellAction::Prompt,
    }
}

/// What a command prints, other than `spawn` and `kill`.
pub open spec fn plain_output(
    command: Command,
    pmm: Pmm,
    sched: Scheduler,
    heap: HeapUse,
    ticks: u64,
) -> Seq<u8> {
    match command {
        Command::Help => help_text(),
        Command::Echo(s) => line_of(s@),
        Command::Info => info_text(
            pmm.free_count() as int,
            heap.allocated as int,
            heap.total as int,
        ),
        Command::Ticks => line_of(text::text("ticks = "@) + text::dec(ticks as int)),
        Command::Ps => ps_text(sched::live_list(sched.table(), 16)),
        Command::KillUsage => line_of(text::text("usage: kill <pid>"@)),
        Command::KillBadNumber => line_of(text::text("kill: pid must be a number"@)),
        Command::Unknown(cmd) => line_of(
            text::text("unknown command '"@) + cmd@ + text::text("' (type 'help')"@),
        ),
        _ => Seq::empty(),
    }
}

/// Execute one completed command line. Returns what to print and what is left
/// to do. `image` is the program that `spawn` runs.
pub fn execute(
    line: &[u8],
    pmm: &mut Pmm,
    pt: &mut PageTable,
    sched: &mut Scheduler,
    heap: HeapUse,
    ticks: u64,
    image: &[u8],
) -> (r: (Vec<u8>, ShellAction))
    requires
        old(pmm).wf(),
        old(pt).wf(*old(pmm)),
        old(sched).wf(),
        image@.len() <= process::MAX_CODE,
    ensures
        final(pmm).wf(),
        final(pt).wf(*final(pmm)),
        final(sched).wf(),
        forall|command: Command| #[trigger]
            asks_for(line@, command) ==> {
                &&& r.1 == action_after(command)
                &&& !(command is Spawn) ==> *final(pmm) == *old(pmm) && *final(pt) == *old(pt)
                &&& !(command is Spawn) && !(command is Kill) ==> *final(sched) == *old(sched)
                    && r.0@ == plain_output(command, *old(pmm), *old(sched), heap, ticks)
                &&& command matches Command::Kill(pid) ==> {
                    &&& r.0@ == kill_text(pid, sched::killable(old(sched).table(), pid))
                    &&& sched::after_kill(*old(sched), *final(sched), pid)
                }
                &&& command matches Command::Spawn(name) ==> exists|started: Option<u32>|
                    r.0@ == spawn_text(started, name@) && #[trigger] process::spawned(
                        *old(pmm),
                        *old(pt),
                        *old(sched),
                        name@,
                        image@,
                        *final(pmm),
                        *final(pt),
                        *final(sched),
                        started,
                    )
            },
{
    let command = parse_command(line);
    let mut out: Vec<u8> = Vec::new();
    proof {
        assert forall|other: Command| #[trigger] asks_for(line@, other) implies same_command(
            other,
            command,
        ) by {}
    }
    match &command {
        Command::Nothing => (out, ShellAction::Prompt),
        Command::Help => {
            push_line(
                &mut out,
                "commands: help, echo <text>, info, ticks, spawn [name], ps, kill <pid>, fault, double, halt",
            );
            assert(out@ =~= help_text());
            (out, ShellAction::Prompt)
        },
        Command::Echo(s) => {
            push_bytes(&mut out, s.as_slice());
            push_str(&mut out, "\n");
            assert(out@ =~= line_of(s@));
            (out, ShellAction::Prompt)
        },
        Command::Info => {
            push_str(&mut out, "frames free: ");
            assert(out@ =~= text::text("frames free: "@));
            push_dec(&mut out, free_frame_count(pmm) as u64);
            push_str(&mut out, "   heap: ");
            push_dec(&mut out, heap.allocated);
            push_str(&mut out, "/");
            push_dec(&mut out, heap.total);
            push_str(&mut out, "\n");
            (out, ShellAction::Prompt)
        },
        Command::Ticks => {
            push_str(&mut out, "ticks = ");
            assert(out@ =~= text::text("ticks = "@));
            push_dec(&mut out, ticks);
            push_str(&mut out, "\n");
            (out, ShellAction::Prompt)
        },
        Command::Spawn(name) => {
            let started = spawn_process(pmm, pt, sched, name.as_slice(), image);
            match started {
                Some(pid) => {
                    let notice = spawn_notice(pid, name.as_slice());
                    push_bytes(&mut out, notice.as_slice());
                    assert(out@ =~= notice@);
                    push_str(&mut out, "started pid ");
                    push_dec(&mut out, pid as u64);
                    push_str(&mut out, " ('");
                    push_bytes(&mut out, name.as_slice());
                    push_str(&mut out, "')");
                    push_str(&mut out, "\n");
                },
                None => {
                    push_line(&mut out, "spawn failed: no free slot or out of memory");
                },
            }
            assert(out@ =~= spawn_text(started, name@));
            (out, ShellAction::Prompt)
        },
        Command::Ps => {
            let listing = ps(sched);
            (listing, ShellAction::Prompt)
        },
        Command::KillUsage => {
            push_line(&mut out, "usage: kill <pid>");
            assert(out@ =~= line_of(text::text("usage: kill <pid>"@)));
            (out, ShellAction::Prompt)
        },
        Command::KillBadNumber => {
            push_line(&mut out, "kill: pid must be a number");
            assert(out@ =~= line_of(text::text("kill: pid must be a number"@)));
            (out, ShellAction::Prompt)
        },
        Command::Kill(pid) => {
            let killed = kill(sched, *pid);
            if killed {
                push_str(&mut out, "pid ");
                assert(out@ =~= text::text("pid "@));
                push_dec(&mut out, *pid as u64);
                push_str(&mut out, " killed");
            } else {
                push_str(&mut out, "kill ");
                assert(out@ =~= text::text("kill "@));
                push_dec(&mut out, *pid as u64);
                push_str(&mut out, ": not a live process");
            }
            push_str(&mut out, "\n");
            (out, ShellAction::Prompt)
        },
        Command::Fault => (out, ShellAction::Fault),
        Command::Double => (out, ShellAction::DoubleFault),
        Command::Halt => (out, ShellAction::Halt),
        Command::Unknown(cmd) => {
            push_str(&mut out, "unknown command '");
            assert(out@ =~= text::text("unknown command '"@));
            push_bytes(&mut out, cmd.as_slice());
            push_str(&mut out, "' (type 'help')");
            push_str(&mut out, "\n");
            (out, ShellAction::Prompt)
        },
    }
}

/// True if `a` and `b` are the same command.
pub open spec fn same_command(a: Command, b: Command) -> bool {
    match (a, b) {
        (Command::Nothing, Command::Nothing) => true,
        (Command::Help, Command::Help) => true,
        (Command::Echo(s), Command::Echo(t)) => s@ == t@,
        (Command::Info, Command::Info) => true,
        (Command::Ticks, Command::Ticks) => true,
        (Command::Spawn(s), Command::Spawn(t)) => s@ == t@,
        (Command::Ps, Command::Ps) => true,
        (Command::KillUsage, Command::KillUsage) => true,
        (Command::KillBadNumber, Command::KillBadNumber) => true,
        (Command::Kill(p), Command::Kill(q)) => p == q,
        (Command::Fault, Command::Fault) => true,
        (Command::Double, Command::Double) => true,
        (Command::Halt, Command::Halt) => true,
        (Command::Unknown(s), Command::Unknown(t)) => s@ == t@,
        _ => false,
    }
}

/// A line asks for one command only.
pub proof fn law_one_command(line: Seq<u8>, a: Command, b: Command)
    requires
        asks_for(line, a),
        asks_for(line, b),
    ensures
        same_command(a, b),
{
}

/// A backspace takes back the character that was typed last.
pub proof fn law_backspace_undoes_typing(line: Seq<u8>, c: char)
    requires
        is_line(line),
        line.len() < MAX_LINE,
        is_line_char(c),
    ensures
        edited(edited(line, c), '\u{8}') == line,
        edited(edited(line, c), '\u{7f}') == line,
{
    assert(line.push(c as u8).drop_last() =~= line);
}

/// Every printable ASCII character, from the space to the tilde, is typed and
/// echoed, as long as there is room for 127 of them; nothing else is.
pub proof fn law_printable_characters_are_typed(line: Seq<u8>, c: char)
    requires
        c != '\n' && c != '\r' && c != '\u{8}' && c != '\u{7f}',
    ensures
        0x20 <= c as u32 <= 0x7E && line.len() < 127 ==> edited(line, c) == line.push(c as u8)
            && echoed(line, c) == seq![c as u8],
        !(0x20 <= c as u32 <= 0x7E && line.len() < 127) ==> edited(line, c) == line && echoed(
            line,
            c,
        ).len() == 0,
{
}

/// Enter leaves the line as it is and goes to the next; a backspace on an
/// empty line does nothing, and on another wipes one character off the screen.
pub proof fn law_control_characters(line: Seq<u8>)
    ensures
        edited(line, '\n') == line && edited(line, '\r') == line,
        echoed(line, '\n') == seq![13u8, 10u8] && echoed(line, '\r') == seq![13u8, 10u8],
        line.len() == 0 ==> edited(line, '\u{8}') == line && echoed(line, '\u{8}').len() == 0,
        line.len() > 0 ==> echoed(line, '\u{8}') == seq![8u8, 32u8, 8u8],
        edited(line, '\u{7f}') == edited(line, '\u{8}'),
        echoed(line, '\u{7f}') == echoed(line, '\u{8}'),
{
}

/// A backspace takes off a whole character: its first byte, and all bytes from
/// 0x80 to 0xBF that follow it.
pub proof fn law_backspace_takes_one_character(line: Seq<u8>, first: u8, rest: Seq<u8>)
    requires
        first < 0x80 || first > 0xBF,
        forall|i: int| 0 <= i < rest.len() ==> 0x80 <= #[trigger] rest[i] <= 0xBF,
    ensures
        edited(line.push(first) + rest, '\u{8}') == line,
    decreases rest.len(),
{
    let all = line.push(first) + rest;
    if rest.len() == 0 {
        assert(all =~= line.push(first));
        assert(all.drop_last() =~= line);
    } else {
        assert(all.drop_last() =~= line.push(first) + rest.drop_last());
        law_backspace_takes_one_character(line, first, rest.drop_last());
    }
}

/// What comes from the keyboard goes before what comes from the serial port,
/// and a byte from there stands for its character.
pub proof fn law_keyboard_goes_first(key: Option<char>, byte: Option<u8>)
    ensures
        key is Some ==> taken(key, byte) == key,
        key is None ==> (taken(key, byte) is Some <==> byte is Some),
        key is None && byte is Some ==> taken(key, byte)->0 as u32 == byte->0,
{
}

/// What is white space: of the characters of one byte the space and those from
/// tab to carriage return; of those of two bytes U+0085 and U+00A0; of those
/// of three U+1680, U+2000 to U+200A, U+2028, U+2029, U+202F, U+205F and
/// U+3000.
pub proof fn law_white_space(line: Seq<u8>, i: int)
    requires
        0 <= i < line.len(),
    ensures
        line[i] < 0x80 ==> (space_len(line, i) == 1 <==> line[i] == 0x20 || 0x09 <= line[i]
            <= 0x0D) && (space_len(line, i) == 0 || space_len(line, i) == 1),
        i + 1 < line.len() && 0xC0 <= line[i] < 0xE0 && 0x80 <= line[i + 1] < 0xC0 ==> {
            let code = (line[i] - 0xC0) * 64 + (line[i + 1] - 0x80);
            (space_len(line, i) == 2 <==> code == 0x85 || code == 0xA0) && (space_len(line, i) == 0
                || space_len(line, i) == 2)
        },
        i + 2 < line.len() && 0xE0 <= line[i] < 0xF0 && 0x80 <= line[i + 1] < 0xC0 && 0x80 <= line[i
            + 2] < 0xC0 ==> {
            let code = (line[i] - 0xE0) * 4096 + (line[i + 1] - 0x80) * 64 + (line[i + 2] - 0x80);
            (space_len(line, i) == 3 <==> code == 0x1680 || 0x2000 <= code <= 0x200A || code
                == 0x2028 || code == 0x2029 || code == 0x202F || code == 0x205F || code == 0x3000)
                && (space_len(line, i) == 0 || space_len(line, i) == 3)
        },
{
}

/// The bytes of `s` are ASCII graphic characters or spaces.
pub open spec fn plain(s: Seq<u8>) -> bool {
    forall|i: int| 0 <= i < s.len() ==> 0x20 <= #[trigger] s[i] <= 0x7E
}

/// The words of a plain text depend on its bytes up to there.
proof fn lemma_split_prefix(a: Seq<u8>, b: Seq<u8>, n: int)
    requires
        plain(a),
        plain(b),
        0 <= n <= a.len(),
        n <= b.len(),
        a.take(n) == b.take(n),
    ensures
        split(a, n) == split(b, n),
    decreases n,
{
    if n > 0 {
        assert(a.take(n - 1) =~= a.take(n).take(n - 1));
        assert(b.take(n - 1) =~= b.take(n).take(n - 1));
        lemma_split_prefix(a, b, n - 1);
        assert(a.take(n)[n - 1] == b.take(n)[n - 1]);
        lemma_plain_white(a, n - 1);
        lemma_plain_white(b, n - 1);
        assert(a.take(n)[n - 1] == a[n - 1]);
        assert(b.take(n)[n - 1] == b[n - 1]);
    }
}

/// In a plain text only spaces are white.
proof fn lemma_plain_white(a: Seq<u8>, i: int)
    requires
        plain(a),
        0 <= i < a.len(),
    ensures
        white(a, i) <==> a[i] == 0x20,
{
    assert(0x20 <= a[i] <= 0x7E);
    if i >= 1 {
        assert(0x20 <= a[i - 1] <= 0x7E);
    }
    if i >= 2 {
        assert(0x20 <= a[i - 2] <= 0x7E);
    }
}

/// A plain text is split into words at its spaces: a space ends a word, and
/// what follows it up to the next is a word of its own.
pub proof fn law_words_are_split_at_spaces(a: Seq<u8>, w: Seq<u8>)
    requires
        plain(a),
        plain(w),
        w.len() > 0,
        !w.contains(0x20),
    ensures
        words(Seq::empty()).len() == 0,
        words(w) == seq![w],
        words(a.push(0x20)) == words(a),
        words(a.push(0x20) + w) == words(a).push(w),
{
    let b = a.push(0x20);
    let n = a.len() as int;
    assert(b.take(n) =~= a.take(n));
    lemma_split_prefix(b, a, n);
    assert(b[n] == 0x20);
    lemma_plain_white(b, n);
    let c = b + w;
    assert(c.take(n + 1) =~= b.take(n + 1));
    lemma_split_prefix(c, b, n + 1);
    assert(c.subrange(n + 1, n + 1 + w.len()) =~= w);
    lemma_word_goes_on(c, n + 1, w, w.len() as int);
    assert(w.subrange(0, w.len() as int) =~= w);
    assert(w.take(w.len() as int) =~= w);
    lemma_word_goes_on(w, 0, w, w.len() as int);
    assert(Seq::<Seq<u8>>::empty().push(w) =~= seq![w]);
}

/// A word that starts at byte `at`, where none is under way, after its first
/// `k` bytes.
proof fn lemma_word_goes_on(line: Seq<u8>, at: int, w: Seq<u8>, k: int)
    requires
        plain(line),
        0 <= at,
        0 < k <= w.len(),
        at + w.len() <= line.len(),
        line.subrange(at, at + w.len()) == w,
        !w.contains(0x20),
        !split(line, at).1,
    ensures
        split(line, at + k) == (split(line, at).0.push(w.take(k)), true),
    decreases k,
{
    let i = at + k - 1;
    assert(line[i] == line.subrange(at, at + w.len())[k - 1]);
    assert(w.contains(w[k - 1]));
    lemma_plain_white(line, i);
    if k == 1 {
        assert(w.take(1) =~= seq![line[i]]);
    } else {
        lemma_word_goes_on(line, at, w, k - 1);
        let before = split(line, at).0;
        assert(before.push(w.take(k - 1)).drop_last() =~= before);
        assert(w.take(k - 1).push(line[i]) =~= w.take(k));
    }
}

/// Joining words and splitting them again gives them back.
pub proof fn law_words_survive_joining(ws: Seq<Seq<u8>>)
    requires
        forall|k: int|
            0 <= k < ws.len() ==> (#[trigger] ws[k]).len() > 0 && plain(ws[k]) && !ws[k].contains(
                0x20,
            ),
    ensures
        words(joined(ws)) == ws,
        plain(joined(ws)),
    decreases ws.len(),
{
    if ws.len() == 0 {
        assert(words(joined(ws)) =~= ws);
    } else if ws.len() == 1 {
        law_words_are_split_at_spaces(Seq::empty(), ws[0]);
        assert(ws =~= seq![ws[0]]);
    } else {
        let rest = ws.drop_last();
        assert forall|k: int| 0 <= k < rest.len() implies (#[trigger] rest[k]).len() > 0 && plain(
            rest[k],
        ) && !rest[k].contains(0x20) by {
            assert(rest[k] == ws[k]);
        }
        law_words_survive_joining(rest);
        law_words_are_split_at_spaces(joined(rest), ws.last());
        assert(rest.push(ws.last()) =~= ws);
    }
}

/// The bytes of an ASCII text are its characters.
proof fn lemma_text_is_plain(s: Seq<char>)
    requires
        forall|i: int| 0 <= i < s.len() ==> '!' <= #[trigger] s[i] && s[i] <= '~',
    ensures
        text::text(s).len() == s.len(),
        plain(text::text(s)),
        !text::text(s).contains(0x20),
        forall|i: int| 0 <= i < s.len() ==> #[trigger] text::text(s)[i] == s[i] as u8,
{
    assert(vstd::utf8::is_ascii_chars(s));
    vstd::utf8::is_ascii_chars_encode_utf8(s);
    assert forall|i: int| 0 <= i < s.len() implies #[trigger] text::text(s)[i] == s[i] as u8 && 0x21
        <= text::text(s)[i] <= 0x7E by {
        assert('!' <= s[i] && s[i] <= '~');
    }
}

/// `kill` and a number asks for the process with that number to be killed,
/// `echo` and a word for that word, and `spawn` and a word for a process of
/// that name.
#[verifier::spinoff_prover]
pub proof fn law_commands_take_their_argument(n: u32, w: Seq<u8>, command: Command)
    requires
        plain(w),
        w.len() > 0,
        !w.contains(0x20),
    ensures
        asks_for(text::text("kill"@).push(0x20) + text::dec(n as int), command)
            ==> (command matches Command::Kill(pid) && pid == n),
        asks_for(text::text("echo"@).push(0x20) + w, command) ==> (command matches Command::Echo(s)
            && s@ == w),
        asks_for(text::text("spawn"@).push(0x20) + w, command) ==> (command matches Command::Spawn(
            s,
        ) && s@ == w),
        asks_for(text::text("spawn"@), command) ==> (command matches Command::Spawn(s) && s@
            == text::text("proc"@)),
        asks_for(text::text("kill"@), command) ==> command is KillUsage,
{
    reveal_strlit("help");
    reveal_strlit("echo");
    reveal_strlit("info");
    reveal_strlit("ticks");
    reveal_strlit("spawn");
    reveal_strlit("ps");
    reveal_strlit("kill");
    lemma_text_is_plain("help"@);
    lemma_text_is_plain("echo"@);
    lemma_text_is_plain("info"@);
    lemma_text_is_plain("ticks"@);
    lemma_text_is_plain("spawn"@);
    lemma_text_is_plain("ps"@);
    lemma_text_is_plain("kill"@);
    text::law_numeral_stands_for_its_number(n as nat, 10);
    text::law_parse_undoes_dec(n);
    let d = text::dec(n as int);
    assert(plain(d) && !d.contains(0x20));
    lemma_one_argument(text::text("kill"@), d);
    lemma_one_argument(text::text("echo"@), w);
    lemma_one_argument(text::text("spawn"@), w);
    assert(text::text("kill"@)[0] == 'k' as u8);
    assert(text::text("echo"@)[0] == 'e' as u8);
    assert(text::text("spawn"@)[0] == 's' as u8);
    assert(text::text("help"@)[0] == 'h' as u8);
    assert(text::text("info"@)[0] == 'i' as u8);
    assert(text::text("ticks"@)[0] == 't' as u8);
    assert(text::text("ps"@)[0] == 'p' as u8);
}

/// A word, and a word with one more behind it.
proof fn lemma_one_argument(name: Seq<u8>, w: Seq<u8>)
    requires
        plain(name),
        name.len() > 0,
        !name.contains(0x20),
        plain(w),
        w.len() > 0,
        !w.contains(0x20),
    ensures
        words(name) == seq![name],
        arguments(name).len() == 0,
        words(name.push(0x20) + w) == seq![name, w],
        arguments(name.push(0x20) + w) == w,
{
    law_words_are_split_at_spaces(name, name);
    law_words_are_split_at_spaces(name, w);
    assert(seq![name].push(w) =~= seq![name, w]);
    assert(seq![name].drop_first() =~= Seq::empty());
    assert(seq![name, w].drop_first() =~= seq![w]);
    reveal_with_fuel(joined, 2);
}

/// The first word of a line decides what is asked for: these words ask for
/// these commands, whatever follows them, and any other is unknown.
#[verifier::spinoff_prover]
pub proof fn law_first_word_decides(line: Seq<u8>, command: Command)
    requires
        asks_for(line, command),
    ensures
        words(line).len() == 0 <==> command is Nothing,
        words(line).len() > 0 ==> {
            let w = words(line)[0];
            &&& command is Help <==> w == text::text("help"@)
            &&& command is Echo <==> w == text::text("echo"@)
            &&& command is Info <==> w == text::text("info"@)
            &&& command is Ticks <==> w == text::text("ticks"@)
            &&& command is Spawn <==> w == text::text("spawn"@)
            &&& command is Ps <==> w == text::text("ps"@)
            &&& command is Fault <==> w == text::text("fault"@)
            &&& command is Double <==> w == text::text("double"@)
            &&& w == text::text("kill"@) ==> command is Kill || command is KillUsage || command is KillBadNumber
            &&& command is Halt <==> w == text::text("halt"@) || w == text::text("exit"@) || w
                == text::text("shutdown"@)
            &&& command matches Command::Unknown(name) ==> name@ == w
        },
{
    reveal_strlit("help");
    reveal_strlit("echo");
    reveal_strlit("info");
    reveal_strlit("ticks");
    reveal_strlit("spawn");
    reveal_strlit("ps");
    reveal_strlit("kill");
    reveal_strlit("fault");
    reveal_strlit("double");
    reveal_strlit("halt");
    reveal_strlit("exit");
    reveal_strlit("shutdown");
    lemma_text_is_plain("help"@);
    lemma_text_is_plain("echo"@);
    lemma_text_is_plain("info"@);
    lemma_text_is_plain("ticks"@);
    lemma_text_is_plain("spawn"@);
    lemma_text_is_plain("ps"@);
    lemma_text_is_plain("kill"@);
    lemma_text_is_plain("fault"@);
    lemma_text_is_plain("double"@);
    lemma_text_is_plain("halt"@);
    lemma_text_is_plain("exit"@);
    lemma_text_is_plain("shutdown"@);
    assert(text::text("help"@)[0] == 'h' as u8 && text::text("help"@)[1] == 'e' as u8);
    assert(text::text("halt"@)[0] == 'h' as u8 && text::text("halt"@)[1] == 'a' as u8);
    assert(text::text("echo"@)[0] == 'e' as u8 && text::text("echo"@)[1] == 'c' as u8);
    assert(text::text("exit"@)[0] == 'e' as u8 && text::text("exit"@)[1] == 'x' as u8);
    assert(text::text("spawn"@)[0] == 's' as u8);
    assert(text::text("shutdown"@)[0] == 's' as u8);
    assert(text::text("info"@)[0] == 'i' as u8);
    assert(text::text("ticks"@)[0] == 't' as u8);
    assert(text::text("ps"@)[0] == 'p' as u8);
    assert(text::text("kill"@)[0] == 'k' as u8);
    assert(text::text("fault"@)[0] == 'f' as u8);
    assert(text::text("double"@)[0] == 'd' as u8);
}

/// Only three commands do something else than prompt for the next line.
pub proof fn law_actions(command: Command)
    ensures
        action_after(command) == ShellAction::Fault <==> command is Fault,
        action_after(command) == ShellAction::DoubleFault <==> command is Double,
        action_after(command) == ShellAction::Halt <==> command is Halt,
        action_after(command) == ShellAction::Prompt <==> !(command is Fault) && !(command is Double)
            && !(command is Halt),
{
}

/// The name of a process is shown as it was given, if it has no more than 15
/// bytes and does not end in a zero.
pub proof fn law_names_are_shown(name: Seq<u8>)
    requires
        name.len() <= 15,
        name.len() > 0 ==> name.last() != 0,
    ensures
        trimmed(sched::stored_name(name)) == name,
{
    sched::law_names_are_kept(name, name);
    lemma_trimmed(sched::stored_name(name), name.len() as int);
}

proof fn lemma_trimmed(name: Seq<u8>, n: int)
    requires
        0 <= n <= name.len(),
        forall|i: int| n <= i < name.len() ==> #[trigger] name[i] == 0,
        n > 0 ==> name[n - 1] != 0,
    ensures
        trimmed(name) == name.take(n),
    decreases name.len(),
{
    if n < name.len() {
        lemma_trimmed(name.drop_last(), n);
        assert(name.drop_last().take(n) =~= name.take(n));
    } else {
        assert(name.take(n) =~= name);
    }
}

/// `ps` prints a line for each process, in order: what it prints for a list is
/// what it prints for each part of it, under one head.
pub proof fn law_ps_prints_in_order(head: Seq<u8>, a: Seq<ProcDesc>, b: Seq<ProcDesc>)
    ensures
        with_processes(head, a + b) == with_processes(with_processes(head, a), b),
        with_processes(head, a) == head + with_processes(Seq::empty(), a),
    decreases b.len(), a.len(),
{
    if b.len() == 0 {
        assert(a + b =~= a);
    } else {
        law_ps_prints_in_order(head, a, b.drop_last());
        assert((a + b).drop_last() =~= a + b.drop_last());
        assert((a + b).last() == b.last());
    }
    if a.len() == 0 {
        assert(head + with_processes(Seq::empty(), a) =~= head);
    } else {
        lemma_ps_head(head, a);
    }
}

proof fn lemma_ps_head(head: Seq<u8>, a: Seq<ProcDesc>)
    ensures
        with_processes(head, a) == head + with_processes(Seq::empty(), a),
    decreases a.len(),
{
    if a.len() == 0 {
        assert(head + with_processes(Seq::empty(), a) =~= head);
    } else {
        lemma_ps_head(head, a.drop_last());
        assert(with_processes(head, a) =~= head + with_processes(Seq::empty(), a));
    }
}

/// What the shell says of a process or of numbers shows them: the number of
/// the process, the free frames and the heap, the ticks.
#[verifier::spinoff_prover]
pub proof fn law_answers_show_their_numbers(
    pid: u32,
    killed: bool,
    name: Seq<u8>,
    free: int,
    allocated: int,
    total: int,
)
    ensures
        exists|a: Seq<u8>, b: Seq<u8>|
            kill_text(pid, killed) == #[trigger] (a + text::dec(pid as int) + b),
        exists|a: Seq<u8>, b: Seq<u8>, c: Seq<u8>, d: Seq<u8>|
            info_text(free, allocated, total) == #[trigger] (a + text::dec(free) + b + text::dec(
                allocated,
            ) + c + text::dec(total) + d),
        exists|a: Seq<u8>, b: Seq<u8>, c: Seq<u8>|
            spawn_text(Some(pid), name) == #[trigger] (process::spawn_notice_spec(pid, name) + a
                + text::dec(pid as int) + b + name + c),
        kill_text(pid, true).len() > 0 && kill_text(pid, true)[0] == 'p' as u8,
        kill_text(pid, false).len() > 0 && kill_text(pid, false)[0] == 'k' as u8,
{
    let n = text::dec(pid as int);
    let end = text::text("\n"@);
    reveal_strlit("pid ");
    reveal_strlit("kill ");
    assert(vstd::utf8::is_ascii_chars("pid "@) && vstd::utf8::is_ascii_chars("kill "@));
    vstd::utf8::is_ascii_chars_encode_utf8("pid "@);
    vstd::utf8::is_ascii_chars_encode_utf8("kill "@);
    assert("pid "@[0] == 'p' && "kill "@[0] == 'k');
    let (a, b) = if killed {
        (text::text("pid "@), text::text(" killed"@) + end)
    } else {
        (text::text("kill "@), text::text(": not a live process"@) + end)
    };
    assert(kill_text(pid, killed) =~= a + n + b);
    let a = text::text("frames free: "@);
    let b = text::text("   heap: "@);
    let c = text::text("/"@);
    assert(info_text(free, allocated, total) =~= a + text::dec(free) + b + text::dec(allocated) + c
        + text::dec(total) + end);
    let a = text::text("started pid "@);
    let b = text::text(" ('"@);
    let c = text::text("')"@) + end;
    assert(spawn_text(Some(pid), name) =~= process::spawn_notice_spec(pid, name) + a + n + b + name
        + c);
}

/// `ps` gives a process one line: its number, its state in a column of eight,
/// and its name.
#[verifier::spinoff_prover]
pub proof fn law_ps_line(head: Seq<u8>, d: ProcDesc, state: Seq<char>)
    requires
        d.running ==> state == "running"@,
        !d.running ==> state == "ready"@,
    ensures
        exists|a: Seq<u8>, b: Seq<u8>, c: Seq<u8>, e: Seq<u8>|
            with_processes(head, seq![d]) == #[trigger] (head + a + text::dec(d.pid as int) + b
                + text::padded(text::text(state), 8) + c + name_text(d.name@) + e),
        vstd::utf8::valid_utf8(d.name@) ==> name_text(d.name@) == trimmed(d.name@),
        !vstd::utf8::valid_utf8(d.name@) ==> name_text(d.name@) == text::text("<bad>"@),
{
    reveal_with_fuel(with_processes, 2);
    let a = text::text("  pid "@);
    let b = text::text("  "@);
    let c = text::text(" "@);
    let e = text::text("\n"@);
    assert(seq![d].drop_last() =~= Seq::empty());
    assert(with_processes(head, seq![d]) == head + a + text::dec(d.pid as int) + b + text::padded(
        text::text(state),
        8,
    ) + c + name_text(d.name@) + e);
}

/// `echo` prints its words and ends the line, `ticks` shows the ticks, and an
/// unknown command is named.
#[verifier::spinoff_prover]
pub proof fn law_plain_answers(
    command: Command,
    pmm: Pmm,
    sched: Scheduler,
    heap: HeapUse,
    ticks: u64,
)
    ensures
        command matches Command::Echo(s) ==> plain_output(command, pmm, sched, heap, ticks) == s@
            + text::text("\n"@),
        command is Ticks ==> exists|a: Seq<u8>, b: Seq<u8>|
            plain_output(command, pmm, sched, heap, ticks) == #[trigger] (a + text::dec(
                ticks as int,
            ) + b),
        command matches Command::Unknown(s) ==> exists|a: Seq<u8>, b: Seq<u8>|
            plain_output(command, pmm, sched, heap, ticks) == #[trigger] (a + s@ + b),
        command is Info ==> plain_output(command, pmm, sched, heap, ticks) == info_text(
            pmm.free_set().len() as int,
            heap.allocated as int,
            heap.total as int,
        ),
        command is Nothing || command is Fault || command is Double || command is Halt
            ==> plain_output(command, pmm, sched, heap, ticks).len() == 0,
{
    let end = text::text("\n"@);
    if command is Ticks {
        assert(plain_output(command, pmm, sched, heap, ticks) == text::text("ticks = "@)
            + text::dec(ticks as int) + end);
    }
    if let Command::Unknown(s) = command {
        assert(plain_output(command, pmm, sched, heap, ticks) =~= text::text("unknown command '"@)
            + s@ + (text::text("' (type 'help')"@) + end));
    }
}

} // verus!
