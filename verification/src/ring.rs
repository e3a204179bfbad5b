//! A ring of bytes: what an interrupt handler pushes, a reader pops.
//!
//! The ring keeps one place free, so that a full ring and an empty one differ.

use vstd::prelude::*;

verus! {

pub struct Ring {
    pub buf: Vec<u8>,
    /// Where the next byte goes.
    pub w: usize,
    /// Where the next byte comes from.
    pub r: usize,
}

impl Ring {
    pub open spec fn wf(&self) -> bool {
        &&& 2 <= self.buf@.len() <= 0x1000
        &&& self.w < self.buf@.len()
        &&& self.r < self.buf@.len()
    }

    /// The number of bytes in the ring.
    pub open spec fn count(&self) -> int {
        if self.w >= self.r {
            self.w - self.r
        } else {
            self.buf@.len() - self.r + self.w
        }
    }

    /// The bytes in the ring, oldest first.
    pub open spec fn queued(&self) -> Seq<u8> {
        Seq::new(
            self.count() as nat,
            |i: int|
                self.buf@[if self.r + i < self.buf@.len() {
                    self.r + i
                } else {
                    self.r + i - self.buf@.len()
                }],
        )
    }

    /// The ring has no place for another byte.
    pub open spec fn full(&self) -> bool {
        self.queued().len() == self.buf@.len() - 1
    }

    /// An empty ring with `cap` places.
    pub fn new(cap: usize) -> (q: Ring)
        requires
            2 <= cap <= 0x1000,
        ensures
            q.wf(),
            q.buf@.len() == cap,
            q.queued() == Seq::<u8>::empty(),
    {
        let q = Ring { buf: crate::bytes::zeros(cap), w: 0, r: 0 };
        assert(q.queued() =~= Seq::<u8>::empty());
        q
    }

    /// Adds a byte. A full ring drops it.
    pub fn push(&mut self, b: u8) -> (stored: bool)
        requires
            old(self).wf(),
        ensures
            final(self).wf(),
            final(self).buf@.len() == old(self).buf@.len(),
            stored == !old(self).full(),
            final(self).queued() == (if stored {
                old(self).queued().push(b)
            } else {
                old(self).queued()
            }),
    {
        let cap: usize = self.buf.len();
        let nw: usize = if self.w + 1 < cap {
            self.w + 1
        } else {
            0
        };
        if nw == self.r {
            return false;
        }
        let at: usize = self.w;
        self.buf.set(at, b);
        self.w = nw;
        assert(self.queued() =~= old(self).queued().push(b));
        true
    }

    /// Takes the oldest byte.
    pub fn pop(&mut self) -> (r: Option<u8>)
        requires
            old(self).wf(),
        ensures
            final(self).wf(),
            final(self).buf@.len() == old(self).buf@.len(),
            old(self).queued().len() == 0 ==> r is None && final(self).queued()
                == old(self).queued(),
            old(self).queued().len() > 0 ==> r == Some(old(self).queued()[0])
                && final(self).queued() == old(self).queued().skip(1),
    {
        if self.r == self.w {
            return None;
        }
        let cap: usize = self.buf.len();
        let b: u8 = self.buf[self.r];
        self.r = if self.r + 1 < cap {
            self.r + 1
        } else {
            0
        };
        assert(self.queued() =~= old(self).queued().skip(1));
        Some(b)
    }
}

} // verus!
