//! Segments, and the way into user mode.

use vstd::prelude::*;

verus! {

/// The selector of a segment: its place in the table and its privilege level.
pub open spec fn selector(index: int, ring: int) -> int {
    index * 8 + ring
}

pub const KERNEL_CS: u16 = 0x08;

pub const KERNEL_DS: u16 = 0x10;

pub const USER_DS: u16 = 0x1B;

pub const USER_CS: u16 = 0x23;

pub const TSS_SEL: u16 = 0x28;

/// The selectors name the segments of the table in order, and lie as the
/// system call instructions expect: kernel data behind kernel code, and user
/// code behind user data.
pub proof fn selectors_in_order()
    ensures
        KERNEL_CS == selector(1, 0),
        KERNEL_DS == selector(2, 0),
        USER_DS == selector(3, 3),
        USER_CS == selector(4, 3),
        TSS_SEL == selector(5, 0),
        KERNEL_DS == KERNEL_CS + 8,
        USER_CS == USER_DS + 8,
{
}

/// The stacks that the processor switches to.
pub struct Stacks {
    /// The stack of the boot.
    pub boot_top: u64,
    /// The kernel stack for interrupts in user mode.
    pub rsp0: u64,
}

pub fn boot_stack_top(s: &Stacks) -> (t: u64)
    ensures
        t == s.boot_top,
{
    s.boot_top
}

/// Notes the stack of the boot, which also serves interrupts at first.
pub fn init(rsp: u64) -> (s: Stacks)
    ensures
        s.boot_top == rsp,
        s.rsp0 == rsp,
{
    Stacks { boot_top: rsp, rsp0: rsp }
}

/// Sets the kernel stack for interrupts that arrive in user mode.
pub fn set_rsp0(s: &mut Stacks, top: u64)
    ensures
        final(s).rsp0 == top,
        final(s).boot_top == old(s).boot_top,
{
    s.rsp0 = top;
}

/// The words that the return into user mode takes off the stack, in the order
/// in which they are pushed: stack segment and pointer, flags with interrupts
/// enabled, code segment and entry point.
pub fn enter_user_mode(entry: u64, user_stack_top: u64) -> (frame: [u64; 5])
    ensures
        frame@ == seq![USER_DS as u64, user_stack_top, 0x202u64, USER_CS as u64, entry],
{
    let frame: [u64; 5] = [USER_DS as u64, user_stack_top, 0x202, USER_CS as u64, entry];
    assert(frame@ =~= seq![USER_DS as u64, user_stack_top, 0x202u64, USER_CS as u64, entry]);
    frame
}

} // verus!
