//! Reading a line from the console.

use vstd::prelude::*;

verus! {

pub const READ_CAP: usize = 64;

/// A line that is being typed. What was erased stays in the buffer beyond the
/// length until something is typed over it.
pub struct LineEdit {
    pub line: Vec<char>,
    pub len: usize,
    /// Typed characters are shown; otherwise a star stands for each.
    pub echo: bool,
}

#[verifier::ext_equal]
pub struct LineView {
    pub line: Seq<char>,
    pub len: int,
    pub echo: bool,
}

/// What a typed character asks of the console.
#[derive(Clone, Copy, PartialEq, Eq, Debug, Structural)]
pub enum Step {
    /// The line is complete: a new line is printed.
    Enter,
    /// The line is given up: a new line is printed.
    Cancel,
    /// The last character is erased from the screen.
    Erase,
    /// This character is printed.
    Show(char),
    Nothing,
}

impl LineView {
    pub open spec fn wf(self) -> bool {
        self.line.len() == READ_CAP && 0 <= self.len <= READ_CAP
    }

    /// The line after a character was typed, and what the console does.
    pub open spec fn typed(self, c: char) -> (LineView, Step) {
        if c == '\n' || c == '\r' {
            (self, Step::Enter)
        } else if c == '\u{3}' {
            (self, Step::Cancel)
        } else if c == '\u{8}' {
            if self.len > 0 {
                (LineView { len: self.len - 1, ..self }, Step::Erase)
            } else {
                (self, Step::Nothing)
            }
        } else if c as u32 >= 0x20 && self.len < READ_CAP {
            (
                LineView { line: self.line.update(self.len, c), len: self.len + 1, ..self },
                Step::Show(
                    if self.echo {
                        c
                    } else {
                        '*'
                    },
                ),
            )
        } else {
            (self, Step::Nothing)
        }
    }
}

impl LineEdit {
    pub open spec fn seen(&self) -> LineView {
        LineView { line: self.line@, len: self.len as int, echo: self.echo }
    }

    pub open spec fn wf(&self) -> bool {
        self.seen().wf()
    }

    /// The text of the line.
    pub open spec fn text(&self) -> Seq<char> {
        self.line@.take(self.len as int)
    }

    /// An empty line.
    pub fn new(echo: bool) -> (l: LineEdit)
        ensures
            l.wf(),
            l.seen() == (LineView {
                line: Seq::new(READ_CAP as nat, |k: int| '\0'),
                len: 0,
                echo,
            }),
    {
        let mut line: Vec<char> = Vec::new();
        let mut k: usize = 0;
        while k < READ_CAP
            invariant
                k <= READ_CAP,
                line@ == Seq::new(k as nat, |j: int| '\0'),
            decreases READ_CAP - k,
        {
            line.push('\0');
            k += 1;
            assert(line@ =~= Seq::new(k as nat, |j: int| '\0'));
        }
        LineEdit { line, len: 0, echo }
    }

    /// Takes in a typed character.
    pub fn feed(&mut self, c: char) -> (s: Step)
        requires
            old(self).wf(),
        ensures
            final(self).wf(),
            (final(self).seen(), s) == old(self).seen().typed(c),
    {
        if c == '\n' || c == '\r' {
            Step::Enter
        } else if c == '\u{3}' {
            Step::Cancel
        } else if c == '\u{8}' {
            if self.len > 0 {
                self.len = self.len - 1;
                Step::Erase
            } else {
                Step::Nothing
            }
        } else if c as u32 >= 0x20 && self.len < READ_CAP {
            let at: usize = self.len;
            self.line.set(at, c);
            self.len = at + 1;
            Step::Show(
                if self.echo {
                    c
                } else {
                    '*'
                },
            )
        } else {
            Step::Nothing
        }
    }
}

/// A backspace takes back the character typed just before it.
pub proof fn backspace_undoes_typing(l: LineView, c: char)
    requires
        l.wf(),
        c as u32 >= 0x20,
        l.len < READ_CAP,
    ensures
        ({
            let back = l.typed(c).0.typed('\u{8}').0;
            back.len == l.len && back.line.take(back.len) == l.line.take(l.len)
        }),
{
    let back = l.typed(c).0.typed('\u{8}').0;
    assert(back.line.take(back.len) =~= l.line.take(l.len));
}

/// The line after a text was typed.
pub open spec fn all_typed(l: LineView, text: Seq<char>) -> LineView
    decreases text.len(),
{
    if text.len() == 0 {
        l
    } else {
        all_typed(l, text.drop_last()).typed(text.last()).0
    }
}

/// A text that is typed into an empty line is the line, as far as there is room;
/// each character is shown as it is typed, or as a star where the line is not
/// shown.
pub proof fn typed_text_is_the_line(l: LineView, text: Seq<char>)
    requires
        l.wf(),
        l.len == 0,
        forall|k: int| 0 <= k < text.len() ==> #[trigger] text[k] as u32 >= 0x20,
    ensures
        all_typed(l, text).wf(),
        all_typed(l, text).echo == l.echo,
        all_typed(l, text).line.take(all_typed(l, text).len) == (if text.len() > 64 {
            text.take(64)
        } else {
            text
        }),
        text.len() > 0 && text.len() <= 64 ==> all_typed(l, text.drop_last()).typed(text.last()).1
            == Step::Show(
            if l.echo {
                text.last()
            } else {
                '*'
            },
        ),
    decreases text.len(),
{
    if text.len() == 0 {
        assert(l.line.take(0) =~= text);
    } else {
        let before = text.drop_last();
        assert forall|k: int| 0 <= k < before.len() implies #[trigger] before[k] as u32
            >= 0x20 by {
            assert(text[k] as u32 >= 0x20);
        }
        typed_text_is_the_line(l, before);
        let m = all_typed(l, before);
        let t = all_typed(l, text);
        let want = if text.len() > 64 {
            text.take(64)
        } else {
            text
        };
        assert(m.line.take(m.len).len() == m.len);
        assert(text.last() == text[text.len() - 1]);
        assert(text[text.len() - 1] as u32 >= 0x20);
        assert(t == m.typed(text.last()).0);
        if text.len() <= 64 {
            assert(m.len == text.len() - 1);
            assert(text.last() != '\n' && text.last() != '\r' && text.last() != '\u{3}' && text.last()
                != '\u{8}');
            assert(t.line == m.line.update(m.len, text.last()));
            assert forall|k: int| 0 <= k < text.len() implies t.line[k] == text[k] by {
                if k < text.len() - 1 {
                    assert(m.line.take(m.len)[k] == before[k]);
                }
            }
            assert(t.line.take(t.len) =~= want);
        } else {
            assert(m.len == 64) by {
                assert(m.line.take(m.len).len() == 64);
            }
            assert(want =~= (if before.len() > 64 {
                before.take(64)
            } else {
                before
            }));
        }
    }
}

/// The end of a line and giving up leave the line as it is, and tell the two
/// apart.
pub proof fn ends_of_lines_are_told(l: LineView)
    ensures
        l.typed('\n') == (l, Step::Enter),
        l.typed('\r') == (l, Step::Enter),
        l.typed('\u{3}') == (l, Step::Cancel),
        l.len == 0 ==> l.typed('\u{8}') == (l, Step::Nothing),
{
}

} // verus!
