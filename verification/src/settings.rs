//! The settings of the console.

use vstd::prelude::*;

verus! {

#[derive(Clone, Copy, PartialEq, Eq, Debug, Structural)]
pub enum KbdLayout {
    TurkishQ,
    Us,
}

pub struct Settings {
    pub layout: KbdLayout,
}

impl Settings {
    pub fn new() -> (s: Settings)
        ensures
            s.layout == KbdLayout::TurkishQ,
    {
        Settings { layout: KbdLayout::TurkishQ }
    }
}

pub fn layout(s: &Settings) -> (l: KbdLayout)
    ensures
        l == s.layout,
{
    s.layout
}

/// The name of a layout.
pub open spec fn code_of(l: KbdLayout) -> Seq<char> {
    match l {
        KbdLayout::TurkishQ => "trq"@,
        KbdLayout::Us => "en-us"@,
    }
}

pub fn layout_code(s: &Settings) -> (r: &'static str)
    ensures
        r@ == code_of(s.layout),
{
    match s.layout {
        KbdLayout::TurkishQ => "trq",
        KbdLayout::Us => "en-us",
    }
}

pub fn set_layout(s: &mut Settings, l: KbdLayout)
    ensures
        final(s).layout == l,
{
    s.layout = l;
}

} // verus!
