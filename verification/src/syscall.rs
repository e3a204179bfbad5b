//! System calls: what a request of a user program asks of the kernel.

use vstd::prelude::*;
use vstd::utf8::{decode_utf8, encode_scalar, valid_utf8};
use crate::acpi::PMO;
use crate::bytes;
use crate::framebuffer::Rgb;
use crate::mem;
use crate::text;
use crate::text::{chars_of, push_dec, push_str};

verus! {

/// The longest text that one write prints.
pub const WRITE_MAX: u64 = 256;

/// The longest command line that a program can run.
pub const EXEC_MAX: u64 = 512;

/// The registers that the entry saves, top of the stack first.
#[derive(Clone, Copy, PartialEq, Eq, Debug, Structural)]
pub struct SyscallFrame {
    pub r9: u64,
    pub r8: u64,
    pub r10: u64,
    pub rdx: u64,
    pub rsi: u64,
    pub rdi: u64,
    pub rcx: u64,
    pub rax: u64,
    pub rbx: u64,
    pub rbp: u64,
    pub r12: u64,
    pub r13: u64,
    pub r14: u64,
    pub r15: u64,
    pub r11: u64,
}

/// What the console is asked to do.
#[derive(Clone, Copy, PartialEq, Eq, Debug, Structural)]
pub enum ConsoleOp {
    Clear,
    SetFg(Rgb),
    ResetColors,
    Backspace,
}

/// What is left to do after the registers are set.
pub enum Action {
    /// Return to the program.
    Nothing,
    /// Send a line over the serial port.
    Log(Vec<char>),
    /// Print a text.
    Print(Vec<char>),
    /// Wait for a character and store it at this address.
    ReadChar(u64),
    Console(ConsoleOp),
    /// Run a command line.
    Execute(Vec<char>),
    /// Send a line over the serial port and end the task.
    Terminate(Vec<char>),
}

pub enum ActionView {
    Nothing,
    Log(Seq<char>),
    Print(Seq<char>),
    ReadChar(u64),
    Console(ConsoleOp),
    Execute(Seq<char>),
    Terminate(Seq<char>),
}

impl Action {
    pub open spec fn seen(&self) -> ActionView {
        match self {
            Action::Nothing => ActionView::Nothing,
            Action::Log(t) => ActionView::Log(t@),
            Action::Print(t) => ActionView::Print(t@),
            Action::ReadChar(a) => ActionView::ReadChar(*a),
            Action::Console(op) => ActionView::Console(*op),
            Action::Execute(t) => ActionView::Execute(t@),
            Action::Terminate(t) => ActionView::Terminate(t@),
        }
    }
}

/// The bytes `[ptr, ptr + len)` of the program: all of them lie in pages that
/// user mode can access, in the window of physical memory.
pub open spec fn readable(m: Seq<u8>, root: int, ptr: u64, len: u64) -> bool {
    &&& ptr + len + mem::PAGE <= u64::MAX
    &&& mem::user_pages(m, root, mem::page_of(ptr as int), mem::page_of(ptr + len + 0xFFF))
    &&& ptr >= PMO
    &&& ptr - PMO + len <= m.len()
}

fn is_readable(m: &[u8], root: u64, ptr: u64, len: u64) -> (r: bool)
    ensures
        r == readable(m@, root as int, ptr, len),
{
    let n: u64 = m.len() as u64;
    mem::is_user_range(m, root, ptr, len) && ptr >= PMO && ptr - PMO <= n && len <= n - (ptr - PMO)
}

/// The text at `ptr`, where the program may read it and it is valid UTF-8.
pub open spec fn user_text(m: Seq<u8>, root: int, ptr: u64, len: u64) -> Option<Seq<char>> {
    let b = m.subrange(ptr - PMO, ptr - PMO + len);
    if readable(m, root, ptr, len) && valid_utf8(b) {
        Some(decode_utf8(b))
    } else {
        None
    }
}

fn read_text(m: &[u8], root: u64, ptr: u64, len: u64) -> (r: Option<Vec<char>>)
    ensures
        match r {
            Some(t) => user_text(m@, root as int, ptr, len) == Some(t@),
            None => user_text(m@, root as int, ptr, len) is None,
        },
{
    if !is_readable(m, root, ptr, len) {
        return None;
    }
    let n: usize = m.len();
    let at: usize = (ptr - PMO) as usize;
    match text::from_utf8(&m[at..at + len as usize]) {
        Some(s) => Some(chars_of(&s)),
        None => None,
    }
}

/// The longest start of the bytes, of at most `n`, that is valid UTF-8.
pub open spec fn whole_chars(b: Seq<u8>, n: int) -> Seq<char>
    decreases n,
{
    if n <= 0 {
        Seq::empty()
    } else if valid_utf8(b.take(n)) {
        decode_utf8(b.take(n))
    } else {
        whole_chars(b, n - 1)
    }
}

/// What a program prints with the `len` bytes at `ptr`, where it may read them:
/// the whole characters up to the first that is cut off or is none.
pub open spec fn printed(m: Seq<u8>, root: int, ptr: u64, len: u64) -> Option<Seq<char>> {
    if readable(m, root, ptr, len) {
        Some(whole_chars(m.subrange(ptr - PMO, ptr - PMO + len), len as int))
    } else {
        None
    }
}

fn read_chars(m: &[u8], root: u64, ptr: u64, len: u64) -> (r: Option<Vec<char>>)
    ensures
        match r {
            Some(t) => printed(m@, root as int, ptr, len) == Some(t@),
            None => printed(m@, root as int, ptr, len) is None,
        },
{
    if !is_readable(m, root, ptr, len) {
        return None;
    }
    let all: usize = m.len();
    let at: usize = (ptr - PMO) as usize;
    let ghost b = m@.subrange(ptr - PMO, ptr - PMO + len);
    let mut n: usize = len as usize;
    while n > 0
        invariant
            n <= len,
            at == ptr - PMO,
            all == m@.len(),
            at + len <= all,
            b == m@.subrange(ptr - PMO, ptr - PMO + len),
            readable(m@, root as int, ptr, len),
            whole_chars(b, len as int) == whole_chars(b, n as int),
        decreases n,
    {
        assert(m@.subrange(at as int, at + n) =~= b.take(n as int));
        match text::from_utf8(&m[at..at + n]) {
            Some(s) => {
                return Some(chars_of(&s));
            },
            None => {},
        }
        n -= 1;
    }
    let t: Vec<char> = Vec::new();
    assert(t@ =~= whole_chars(b, 0));
    Some(t)
}

pub open spec fn console_op(op: u64, a: u64) -> Option<ConsoleOp> {
    if op == 0 {
        Some(ConsoleOp::Clear)
    } else if op == 1 {
        Some(
            ConsoleOp::SetFg(
                Rgb((a / 0x1_0000 % 0x100) as u8, (a / 0x100 % 0x100) as u8, (a % 0x100) as u8),
            ),
        )
    } else if op == 2 {
        Some(ConsoleOp::ResetColors)
    } else if op == 3 {
        Some(ConsoleOp::Backspace)
    } else {
        None
    }
}

pub open spec fn at_most(v: u64, max: u64) -> u64 {
    if v > max {
        max
    } else {
        v
    }
}

/// The result register and the action of a call, given how many pings came
/// before. The largest number in the result register reports a refusal.
pub open spec fn dispatched(f: SyscallFrame, pings: u64, m: Seq<u8>, root: int) -> (
    u64,
    ActionView,
) {
    if f.rax == 1 {
        (
            pings.wrapping_add(1),
            ActionView::Log("[user] ping "@ + text::dec(pings.wrapping_add(1) as nat) + "\n"@),
        )
    } else if f.rax == 2 {
        (f.rax, ActionView::Terminate("[user] bye (task exiting)\n"@))
    } else if f.rax == 3 {
        let len = at_most(f.rdx, WRITE_MAX);
        if f.rdi != 1 {
            (u64::MAX, ActionView::Nothing)
        } else {
            match printed(m, root, f.rsi, len) {
                Some(t) => (len, ActionView::Print(t)),
                None => (u64::MAX, ActionView::Nothing),
            }
        }
    } else if f.rax == 4 {
        if f.rdi == 0 && f.rdx >= 4 && readable(m, root, f.rsi, 4) {
            (0, ActionView::ReadChar(f.rsi))
        } else {
            (u64::MAX, ActionView::Nothing)
        }
    } else if f.rax == 7 {
        match console_op(f.rdi, f.rsi) {
            Some(op) => (0, ActionView::Console(op)),
            None => (u64::MAX, ActionView::Nothing),
        }
    } else if f.rax == 8 {
        if f.rsi > EXEC_MAX {
            (u64::MAX, ActionView::Nothing)
        } else {
            match user_text(m, root, f.rdi, f.rsi) {
                Some(t) => (0, ActionView::Execute(t)),
                None => (u64::MAX, ActionView::Nothing),
            }
        }
    } else {
        (
            u64::MAX,
            ActionView::Log("[user] unknown syscall "@ + text::dec(f.rax as nat) + "\n"@),
        )
    }
}

fn find_op(op: u64, a: u64) -> (r: Option<ConsoleOp>)
    ensures
        r == console_op(op, a),
{
    if op == 0 {
        Some(ConsoleOp::Clear)
    } else if op == 1 {
        Some(
            ConsoleOp::SetFg(
                Rgb((a / 0x1_0000 % 0x100) as u8, (a / 0x100 % 0x100) as u8, (a % 0x100) as u8),
            ),
        )
    } else if op == 2 {
        Some(ConsoleOp::ResetColors)
    } else if op == 3 {
        Some(ConsoleOp::Backspace)
    } else {
        None
    }
}

/// Takes in a call: `rax` is its number, and holds the result afterwards.
/// `m` is physical memory and `root` the page table of the program.
pub fn syscall_dispatch(f: &mut SyscallFrame, pings: &mut u64, m: &[u8], root: u64) -> (a: Action)
    ensures
        ({
            let (rax, act) = dispatched(*old(f), *old(pings), m@, root as int);
            &&& *final(f) == (SyscallFrame { rax, ..*old(f) })
            &&& a.seen() == act
        }),
        *final(pings) == (if old(f).rax == 1 {
            old(pings).wrapping_add(1)
        } else {
            *old(pings)
        }),
{
    if f.rax == 1 {
        let n: u64 = (*pings).wrapping_add(1);
        *pings = n;
        f.rax = n;
        let mut t = chars_of("[user] ping ");
        push_dec(&mut t, n);
        push_str(&mut t, "\n");
        Action::Log(t)
    } else if f.rax == 2 {
        Action::Terminate(chars_of("[user] bye (task exiting)\n"))
    } else if f.rax == 3 {
        let len: u64 = if f.rdx > WRITE_MAX {
            WRITE_MAX
        } else {
            f.rdx
        };
        f.rax = u64::MAX;
        if f.rdi != 1 {
            return Action::Nothing;
        }
        match read_chars(m, root, f.rsi, len) {
            Some(t) => {
                f.rax = len;
                Action::Print(t)
            },
            None => Action::Nothing,
        }
    } else if f.rax == 4 {
        if f.rdi == 0 && f.rdx >= 4 && is_readable(m, root, f.rsi, 4) {
            f.rax = 0;
            Action::ReadChar(f.rsi)
        } else {
            f.rax = u64::MAX;
            Action::Nothing
        }
    } else if f.rax == 7 {
        match find_op(f.rdi, f.rsi) {
            Some(op) => {
                f.rax = 0;
                Action::Console(op)
            },
            None => {
                f.rax = u64::MAX;
                Action::Nothing
            },
        }
    } else if f.rax == 8 {
        f.rax = u64::MAX;
        if f.rsi > EXEC_MAX {
            return Action::Nothing;
        }
        match read_text(m, root, f.rdi, f.rsi) {
            Some(t) => {
                f.rax = 0;
                Action::Execute(t)
            },
            None => Action::Nothing,
        }
    } else {
        let mut t = chars_of("[user] unknown syscall ");
        push_dec(&mut t, f.rax);
        push_str(&mut t, "\n");
        f.rax = u64::MAX;
        Action::Log(t)
    }
}

fn encode(c: u32) -> (b: Vec<u8>)
    requires
        vstd::utf8::is_scalar(c),
    ensures
        b@ == encode_scalar(c),
        1 <= b@.len() <= 4,
{
    let mut b: Vec<u8> = Vec::new();
    if c <= 0x7F {
        b.push((c & 0x7F) as u8);
    } else if c <= 0x7FF {
        b.push(0xC0 | (((c >> 6) & 0x1F) as u8));
        b.push(0x80 | ((c & 0x3F) as u8));
    } else if c <= 0xFFFF {
        b.push(0xE0 | (((c >> 12) & 0x0F) as u8));
        b.push(0x80 | (((c >> 6) & 0x3F) as u8));
        b.push(0x80 | ((c & 0x3F) as u8));
    } else {
        b.push(0xF0 | (((c >> 18) & 0x07) as u8));
        b.push(0x80 | (((c >> 12) & 0x3F) as u8));
        b.push(0x80 | (((c >> 6) & 0x3F) as u8));
        b.push(0x80 | ((c & 0x3F) as u8));
    }
    assert(b@ =~= encode_scalar(c));
    b
}

/// Ends a read: the bytes of the character go to the address that was given,
/// and their number is the result.
pub fn finish_read(m: &mut [u8], ptr: u64, c: char) -> (n: u64)
    requires
        ptr >= PMO,
        ptr - PMO + 4 <= old(m)@.len(),
    ensures
        final(m)@ == bytes::splice(old(m)@, ptr - PMO, encode_scalar(c as u32)),
        n == encode_scalar(c as u32).len(),
{
    proof {
        vstd::utf8::char_is_scalar(c);
    }
    let b = encode(c as u32);
    let total: usize = m.len();
    bytes::put_bytes(m, (ptr - PMO) as usize, &b);
    b.len() as u64
}

/// A program cannot make the kernel read outside its own pages: a write or a
/// command line that touches another page is refused.
pub proof fn foreign_memory_is_refused(f: SyscallFrame, pings: u64, m: Seq<u8>, root: int)
    requires
        f.rax == 3 && !readable(m, root, f.rsi, at_most(f.rdx, WRITE_MAX)) || f.rax == 8
            && !readable(m, root, f.rdi, f.rsi) || f.rax == 4 && !readable(m, root, f.rsi, 4),
    ensures
        dispatched(f, pings, m, root) == (u64::MAX, ActionView::Nothing),
{
}

/// A text that the program may read is printed as it is, and the call returns its
/// length; what a program hands over to be run is that text too.
pub proof fn text_is_handed_on(f: SyscallFrame, pings: u64, m: Seq<u8>, root: int)
    requires
        f.rax == 3 || f.rax == 8,
    ensures
        ({
            let b = m.subrange(f.rsi - PMO, f.rsi - PMO + f.rdx);
            f.rax == 3 && f.rdi == 1 && f.rdx <= 256 && readable(m, root, f.rsi, f.rdx) && valid_utf8(b)
                ==> dispatched(f, pings, m, root) == (
                f.rdx,
                ActionView::Print(
                    if f.rdx == 0 {
                        Seq::empty()
                    } else {
                        decode_utf8(b)
                    },
                ),
            )
        }),
        ({
            let b = m.subrange(f.rdi - PMO, f.rdi - PMO + f.rsi);
            f.rax == 8 && f.rsi <= 512 && readable(m, root, f.rdi, f.rsi) && valid_utf8(b)
                ==> dispatched(f, pings, m, root) == (0u64, ActionView::Execute(decode_utf8(b)))
        }),
{
    let b = m.subrange(f.rsi - PMO, f.rsi - PMO + f.rdx);
    if f.rax == 3 && readable(m, root, f.rsi, f.rdx) && f.rdx > 0 {
        assert(b.take(f.rdx as int) =~= b);
    }
}

/// The colour that a program asks for is red, green and blue from the higher
/// bytes down.
pub proof fn colour_is_read_from_its_bytes(r: u8, g: u8, b: u8)
    ensures
        console_op(1, (0x1_0000 * r + 0x100 * g + b) as u64) == Some(ConsoleOp::SetFg(Rgb(r, g, b))),
{
}

} // verus!
