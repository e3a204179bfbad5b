//! The terminal: what is printed goes to the console and to the serial line.

use vstd::prelude::*;
use crate::framebuffer;
use crate::framebuffer::{Console, ConsoleView, Rgb};
use crate::text;

verus! {

/// A piece of output.
pub enum Out {
    Text(Vec<char>),
    Fg(Rgb),
    Colors(Rgb, Rgb),
    Reset,
    Clear,
}

pub enum OutView {
    Text(Seq<char>),
    Fg(Rgb),
    Colors(Rgb, Rgb),
    Reset,
    Clear,
}

impl Out {
    pub open spec fn seen(&self) -> OutView {
        match self {
            Out::Text(t) => OutView::Text(t@),
            Out::Fg(c) => OutView::Fg(*c),
            Out::Colors(f, b) => OutView::Colors(*f, *b),
            Out::Reset => OutView::Reset,
            Out::Clear => OutView::Clear,
        }
    }
}

pub open spec fn outs(v: Seq<Out>) -> Seq<OutView> {
    Seq::new(v.len(), |i: int| v[i].seen())
}

/// A line of text.
pub open spec fn line(t: Seq<char>) -> OutView {
    OutView::Text(t + "\n"@)
}

pub fn put(v: &mut Vec<Out>, o: Out)
    ensures
        outs(final(v)@) == outs(old(v)@).push(o.seen()),
{
    let ghost before = outs(v@);
    v.push(o);
    assert(outs(v@) =~= before.push(o.seen()));
}

/// Appends a line.
pub fn put_line(v: &mut Vec<Out>, t: Vec<char>)
    ensures
        outs(final(v)@) == outs(old(v)@).push(line(t@)),
{
    let mut t = t;
    text::push_str(&mut t, "\n");
    put(v, Out::Text(t));
}

/// Appends a line that is a fixed string.
pub fn put_str(v: &mut Vec<Out>, s: &str)
    ensures
        outs(final(v)@) == outs(old(v)@).push(line(s@)),
{
    put_line(v, text::chars_of(s));
}

pub fn nothing() -> (v: Vec<Out>)
    ensures
        outs(v@) == Seq::<OutView>::empty(),
{
    let v: Vec<Out> = Vec::new();
    assert(outs(v@) =~= Seq::<OutView>::empty());
    v
}

/// One line as the whole output.
pub fn one_line(t: Vec<char>) -> (v: Vec<Out>)
    ensures
        outs(v@) == seq![line(t@)],
{
    let mut v = nothing();
    put_line(&mut v, t);
    assert(outs(v@) =~= seq![line(t@)]);
    v
}

pub fn one_str(s: &str) -> (v: Vec<Out>)
    ensures
        outs(v@) == seq![line(s@)],
{
    one_line(text::chars_of(s))
}

/// Appends all of another output.
pub fn put_all(v: &mut Vec<Out>, w: Vec<Out>)
    ensures
        outs(final(v)@) == outs(old(v)@) + outs(w@),
{
    let mut w = w;
    let ghost a = outs(v@);
    let ghost b = outs(w@);
    v.append(&mut w);
    assert(outs(v@) =~= a + b);
}

// ---------- the terminal ----------

pub struct Tty {
    pub con: Console,
    /// What the serial line has to send.
    pub serial: Vec<char>,
}

#[verifier::ext_equal]
pub struct TtyView {
    pub con: ConsoleView,
    pub serial: Seq<char>,
}

impl TtyView {
    pub open spec fn printed(self, t: Seq<char>) -> TtyView {
        TtyView { con: self.con.all_written(t), serial: self.serial + t }
    }

    /// The terminal after one piece of output.
    pub open spec fn after(self, o: OutView) -> TtyView {
        match o {
            OutView::Text(t) => self.printed(t),
            OutView::Fg(fg) => TtyView { con: ConsoleView { fg, ..self.con }, ..self },
            OutView::Colors(fg, bg) => TtyView {
                con: ConsoleView { fg, bg, ..self.con },
                ..self
            },
            OutView::Reset => TtyView {
                con: ConsoleView {
                    fg: framebuffer::fg_color(),
                    bg: framebuffer::bg_color(),
                    ..self.con
                },
                ..self
            },
            OutView::Clear => TtyView { con: self.con.cleared(), ..self },
        }
    }

    pub open spec fn after_all(self, o: Seq<OutView>) -> TtyView
        decreases o.len(),
    {
        if o.len() == 0 {
            self
        } else {
            self.after_all(o.drop_last()).after(o.last())
        }
    }
}

impl Tty {
    pub open spec fn seen(&self) -> TtyView {
        TtyView { con: self.con.seen(), serial: self.serial@ }
    }

    pub open spec fn wf(&self) -> bool {
        self.con.wf()
    }

    /// Prints a text on the console and over the serial line.
    pub fn print(&mut self, t: &[char])
        requires
            old(self).wf(),
        ensures
            final(self).wf(),
            final(self).seen() == old(self).seen().printed(t@),
    {
        self.con.write_str(t);
        text::push_all(&mut self.serial, t);
    }

    fn apply(&mut self, o: &Out)
        requires
            old(self).wf(),
        ensures
            final(self).wf(),
            final(self).seen() == old(self).seen().after(o.seen()),
    {
        match o {
            Out::Text(t) => self.print(t),
            Out::Fg(c) => framebuffer::set_fg(&mut self.con, *c),
            Out::Colors(f, b) => framebuffer::set_colors(&mut self.con, *f, *b),
            Out::Reset => framebuffer::reset_colors(&mut self.con),
            Out::Clear => framebuffer::clear(&mut self.con),
        }
    }

    /// Shows output.
    pub fn show(&mut self, o: &Vec<Out>)
        requires
            old(self).wf(),
        ensures
            final(self).wf(),
            final(self).seen() == old(self).seen().after_all(outs(o@)),
    {
        let ghost all = outs(o@);
        let mut k: usize = 0;
        assert(all.take(0) =~= Seq::<OutView>::empty());
        while k < o.len()
            invariant
                k <= o@.len(),
                all == outs(o@),
                self.wf(),
                self.seen() == old(self).seen().after_all(all.take(k as int)),
            decreases o@.len() - k,
        {
            self.apply(&o[k]);
            k += 1;
            assert(all.take(k as int).drop_last() =~= all.take(k - 1));
            assert(all.take(k as int).last() == all[k - 1]);
        }
        assert(all.take(k as int) =~= all);
    }
}

// ---------- laws ----------

/// The texts of an output, one behind the other.
pub open spec fn texts(o: Seq<OutView>) -> Seq<char>
    decreases o.len(),
{
    if o.len() == 0 {
        Seq::empty()
    } else {
        match o.last() {
            OutView::Text(t) => texts(o.drop_last()) + t,
            _ => texts(o.drop_last()),
        }
    }
}

/// All text goes over the serial line too, in its order, and nothing else does.
pub proof fn text_goes_over_the_line(s: TtyView, o: Seq<OutView>)
    ensures
        s.after_all(o).serial == s.serial + texts(o),
    decreases o.len(),
{
    if o.len() == 0 {
        assert(s.serial + texts(o) =~= s.serial);
    } else {
        text_goes_over_the_line(s, o.drop_last());
        assert(s.after_all(o).serial =~= s.serial + texts(o));
    }
}

/// A text is written in the colours that were set last.
pub proof fn colours_hold_until_they_change(s: TtyView, fg: Rgb, bg: Rgb)
    ensures
        s.after(OutView::Fg(fg)).con == (ConsoleView { fg, ..s.con }),
        s.after(OutView::Colors(fg, bg)).con == (ConsoleView { fg, bg, ..s.con }),
        s.after(OutView::Reset).con == (ConsoleView {
            fg: Rgb(226, 232, 255),
            bg: Rgb(10, 12, 28),
            ..s.con
        }),
{
}

} // verus!
