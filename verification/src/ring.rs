//! A queue with a fixed number of places, for handing buffers from one
//! thread to another: the one that fills waits while the queue is full, the
//! one that empties waits while it is empty, so that no more than the fixed
//! number of buffers is ever waiting.

use vstd::prelude::*;

verus! {

/// The queue. What is put in first comes out first.
pub struct Ring<T> {
    slots: Vec<Option<T>>,
    /// The place of the item that comes out next.
    head: usize,
    len: usize,
}

impl<T> Ring<T> {
    /// The place of the `i`-th item in the queue.
    pub closed spec fn place(&self, i: int) -> int {
        if i < self.slots.len() - self.head {
            self.head + i
        } else {
            i - (self.slots.len() - self.head)
        }
    }

    /// The representation invariant.
    pub closed spec fn wf(&self) -> bool {
        &&& self.slots.len() > 0
        &&& self.head < self.slots.len()
        &&& self.len <= self.slots.len()
        &&& forall|i: int| 0 <= i < self.len ==> (#[trigger] self.slots[self.place(i)]) is Some
    }

    /// The items in the queue, the one that comes out next first.
    pub closed spec fn view(&self) -> Seq<T> {
        Seq::new(self.len as nat, |i: int| self.slots[self.place(i)]->Some_0)
    }

    /// The number of places.
    pub closed spec fn spec_capacity(&self) -> nat {
        self.slots.len() as nat
    }

    /// An empty queue with `capacity` places, or with one place if none is
    /// asked for.
    pub fn new(capacity: usize) -> (ring: Self)
        ensures
            ring.wf(),
            ring@.len() == 0,
            ring.spec_capacity() == if capacity == 0 {
                1
            } else {
                capacity as nat
            },
    {
        let places: usize = if capacity == 0 {
            1
        } else {
            capacity
        };
        let mut slots: Vec<Option<T>> = Vec::new();
        while slots.len() < places
            invariant
                slots.len() <= places,
            decreases places - slots.len(),
        {
            slots.push(None);
        }
        Ring { slots, head: 0, len: 0 }
    }

    /// The number of places.
    pub fn capacity(&self) -> (n: usize)
        requires
            self.wf(),
        ensures
            n == self.spec_capacity(),
            n > 0,
    {
        self.slots.len()
    }

    /// The number of items in the queue.
    pub fn len(&self) -> (n: usize)
        requires
            self.wf(),
        ensures
            n == self@.len(),
            n <= self.spec_capacity(),
    {
        self.len
    }

    /// Whether nothing can be taken out.
    pub fn is_empty(&self) -> (b: bool)
        requires
            self.wf(),
        ensures
            b == (self@.len() == 0),
    {
        self.len == 0
    }

    /// Whether nothing can be put in.
    pub fn is_full(&self) -> (b: bool)
        requires
            self.wf(),
        ensures
            b == (self@.len() == self.spec_capacity()),
    {
        self.len == self.slots.len()
    }

    /// The place of the `i`-th item in the queue.
    fn place_of(&self, i: usize) -> (p: usize)
        requires
            self.wf(),
            i < self.slots.len(),
        ensures
            p == self.place(i as int),
            p < self.slots.len(),
    {
        let room = self.slots.len() - self.head;
        if i < room {
            self.head + i
        } else {
            i - room
        }
    }

    /// Puts an item in at the end, unless the queue is full: then the item
    /// is handed back and the queue is as it was.
    pub fn try_push(&mut self, item: T) -> (r: Result<(), T>)
        requires
            old(self).wf(),
        ensures
            final(self).wf(),
            final(self).spec_capacity() == old(self).spec_capacity(),
            match r {
                Ok(_) => old(self)@.len() < old(self).spec_capacity() && final(self)@ == old(
                    self,
                )@.push(item),
                Err(back) => old(self)@.len() == old(self).spec_capacity() && back == item
                    && final(self)@ == old(self)@,
            },
    {
        if self.len == self.slots.len() {
            return Err(item);
        }
        let p = self.place_of(self.len);
        self.slots.set(p, Some(item));
        self.len = self.len + 1;
        proof {
            let before = old(self);
            assert forall|i: int| 0 <= i < before.len implies self.place(i) == before.place(i)
                && self.place(i) != p by {}
            assert(self@ =~= before@.push(item));
        }
        Ok(())
    }

    /// Takes out the item that was put in first, if there is one.
    pub fn pop(&mut self) -> (r: Option<T>)
        requires
            old(self).wf(),
        ensures
            final(self).wf(),
            final(self).spec_capacity() == old(self).spec_capacity(),
            match r {
                Some(item) => old(self)@.len() > 0 && item == old(self)@[0] && final(self)@ == old(
                    self,
                )@.drop_first(),
                None => old(self)@.len() == 0 && final(self)@ == old(self)@,
            },
    {
        if self.len == 0 {
            return None;
        }
        let mut taken: Option<T> = None;
        let at = self.head;
        assert(self.place(0) == at);
        self.slots.set_and_swap(at, &mut taken);
        self.head = if self.head + 1 == self.slots.len() {
            0
        } else {
            self.head + 1
        };
        self.len = self.len - 1;
        proof {
            let before = old(self);
            assert forall|i: int| 0 <= i < self.len implies self.place(i) == before.place(i + 1)
                && before.place(i + 1) != at by {}
            assert(self@ =~= before@.drop_first());
        }
        taken
    }
}

/// Collects the bytes of the output until there are enough to be worth
/// handing to the thread that writes.
pub struct SendBuffer {
    buf: Vec<u8>,
    bufsize: usize,
}

impl View for SendBuffer {
    type V = Seq<u8>;

    /// The bytes that were collected and not yet handed on.
    closed spec fn view(&self) -> Seq<u8> {
        self.buf@
    }
}

impl SendBuffer {
    /// The number of bytes from which on the buffer is handed on.
    pub closed spec fn bufsize(&self) -> usize {
        self.bufsize
    }

    /// An empty buffer.
    pub fn new(bufsize: usize) -> (b: SendBuffer)
        ensures
            b@.len() == 0,
            b.bufsize() == bufsize,
    {
        SendBuffer { buf: Vec::new(), bufsize }
    }

    /// Adds bytes. Once the buffer holds `bufsize` bytes or more, all of
    /// them are handed out and the buffer is empty again. No byte is lost or
    /// moved: what is handed out, in order, and then what is left is what
    /// was added, in order.
    pub fn push(&mut self, bytes: &[u8]) -> (full: Option<Vec<u8>>)
        ensures
            final(self).bufsize() == old(self).bufsize(),
            match full {
                Some(out) => out@ == old(self)@ + bytes@ && out@.len() >= old(self).bufsize()
                    && final(self)@.len() == 0,
                None => final(self)@ == old(self)@ + bytes@ && final(self)@.len() < old(
                    self,
                ).bufsize(),
            },
    {
        self.buf.extend_from_slice(bytes);
        assert(self.buf@ =~= old(self)@ + bytes@);
        if self.buf.len() >= self.bufsize {
            let mut out: Vec<u8> = Vec::new();
            core::mem::swap(&mut self.buf, &mut out);
            Some(out)
        } else {
            None
        }
    }

    /// Hands out what is left, if anything.
    pub fn finish(self) -> (rest: Option<Vec<u8>>)
        ensures
            match rest {
                Some(out) => out@ == self@ && out@.len() > 0,
                None => self@.len() == 0,
            },
    {
        if self.buf.len() == 0 {
            None
        } else {
            Some(self.buf)
        }
    }
}

} // verus!
