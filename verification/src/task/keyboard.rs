//! Scancode queueing between the keyboard interrupt and the keypress
//! task.
//!
//! In the kernel, the interrupt handler pushes raw scancodes into a
//! bounded queue and wakes the asynchronous keypress task, which drains
//! the queue, decodes the bytes, and prints the keys. This module holds
//! the decisions of that exchange — what enters the queue, what leaves
//! it, and in which order — over a queue modeled as owned data. The
//! kernel glue around it supplies what cannot stand here: the shared
//! one-time-initialized static holding the queue, the waker wiring, the
//! scancode decoding, and the printing.

use vstd::prelude::*;

verus! {

/// Capacity of the scancode queue: small, because scancodes are drained
/// promptly, but deep enough to ride out a burst of typing.
pub const SCANCODE_QUEUE_CAPACITY: usize = 100;

/// Bounded first-in-first-out queue of raw scancodes.
pub struct ScancodeQueue {
    items: Vec<u8>,
    capacity: usize,
}

impl ScancodeQueue {
    /// The queued scancodes, oldest first.
    pub closed spec fn items(&self) -> Seq<u8> {
        self.items@
    }

    /// The fixed capacity the queue was created with.
    pub closed spec fn capacity(&self) -> int {
        self.capacity as int
    }

    /// Well-formedness: the queue never holds more than its capacity.
    pub open spec fn wf(&self) -> bool {
        &&& 1 <= self.capacity()
        &&& self.items().len() <= self.capacity()
    }

    /// Creates an empty queue with the given capacity.
    pub fn new(capacity: usize) -> (q: ScancodeQueue)
        requires
            1 <= capacity,
        ensures
            q.wf(),
            q.items() == Seq::<u8>::empty(),
            q.capacity() == capacity,
    {
        ScancodeQueue { items: Vec::new(), capacity }
    }

    /// Appends a scancode at the back, or hands it back untouched when
    /// the queue is full — the caller decides what a dropped scancode is
    /// worth reporting.
    pub fn push(&mut self, scancode: u8) -> (r: Result<(), u8>)
        requires
            old(self).wf(),
        ensures
            final(self).wf(),
            final(self).capacity() == old(self).capacity(),
            old(self).items().len() < old(self).capacity() ==> r is Ok && final(self).items()
                == old(self).items().push(scancode),
            old(self).items().len() == old(self).capacity() ==> r == Err::<(), u8>(scancode)
                && final(self).items() == old(self).items(),
    {
        if self.items.len() < self.capacity {
            self.items.push(scancode);
            Ok(())
        } else {
            Err(scancode)
        }
    }

    /// Removes and returns the oldest scancode, or `None` when the queue
    /// is empty.
    pub fn pop(&mut self) -> (r: Option<u8>)
        requires
            old(self).wf(),
        ensures
            final(self).wf(),
            final(self).capacity() == old(self).capacity(),
            old(self).items().len() == 0 ==> r is None && final(self).items() == old(self).items(),
            old(self).items().len() > 0 ==> r == Some(old(self).items()[0]) && final(self).items() == old(self).items().drop_first(),
    {
        if self.items.len() == 0 {
            None
        } else {
            let scancode = self.items.remove(0);
            proof {
                assert(self.items@ =~= old(self).items().drop_first());
            }
            Some(scancode)
        }
    }

    /// Number of scancodes currently queued.
    pub fn len(&self) -> (n: usize)
        ensures
            n == self.items().len(),
    {
        self.items.len()
    }
}

/// The stream of scancodes the keypress task consumes. In the kernel
/// the queue behind it is a process-wide static created once by `new`;
/// here the stream owns its queue, and the glue forwards between the
/// two sides.
pub struct ScancodeStream {
    queue: ScancodeQueue,
}

impl ScancodeStream {
    /// The scancodes awaiting consumption, oldest first.
    pub closed spec fn scancodes(&self) -> Seq<u8> {
        self.queue.items()
    }

    /// Well-formedness: the backing queue is well-formed and has the
    /// stream's fixed capacity.
    pub closed spec fn wf(&self) -> bool {
        &&& self.queue.wf()
        &&& self.queue.capacity() == SCANCODE_QUEUE_CAPACITY
    }

    /// Creates the stream with its empty queue.
    pub fn new() -> (s: ScancodeStream)
        ensures
            s.wf(),
            s.scancodes() == Seq::<u8>::empty(),
    {
        ScancodeStream { queue: ScancodeQueue::new(SCANCODE_QUEUE_CAPACITY) }
    }

    /// What the keyboard interrupt handler does with a fresh scancode:
    /// queue it, or — when the queue is full — drop it and report the
    /// drop, so the glue can print its warning. The handler must never
    /// block or allocate, and this does neither.
    pub fn add_scancode(&mut self, scancode: u8) -> (dropped: bool)
        requires
            old(self).wf(),
        ensures
            final(self).wf(),
            old(self).scancodes().len() < SCANCODE_QUEUE_CAPACITY ==> !dropped && final(self).scancodes() == old(self).scancodes().push(scancode),
            old(self).scancodes().len() == SCANCODE_QUEUE_CAPACITY ==> dropped && final(self).scancodes() == old(self).scancodes(),
    {
        match self.queue.push(scancode) {
            Ok(()) => false,
            Err(_) => true,
        }
    }

    /// One poll of the stream: the oldest queued scancode, or `None`
    /// when the queue is empty — upon which the glue registers the
    /// task's waker and polls once more before reporting the stream
    /// pending.
    pub fn poll_next(&mut self) -> (r: Option<u8>)
        requires
            old(self).wf(),
        ensures
            final(self).wf(),
            old(self).scancodes().len() == 0 ==> r is None && final(self).scancodes() == old(self).scancodes(),
            old(self).scancodes().len() > 0 ==> r == Some(old(self).scancodes()[0]) && final(self).scancodes() == old(self).scancodes().drop_first(),
    {
        self.queue.pop()
    }
}

} // verus!
