//! Heap-allocation layer of a freestanding kernel, with the data the
//! kernel's console and keyboard task keep.
//!
//! The core is what satisfies dynamic memory requests once a fixed
//! virtual window has been mapped for heap use: address-alignment
//! arithmetic, a monotonic bump allocator, a first-fit free-list
//! allocator, and the page plan the heap initializer follows. Beside it
//! stand the text grid the console writer maintains and the scancode
//! queue the keyboard task drains. Everything here is plain data and
//! arithmetic; the surrounding kernel — page tables, the busy-wait
//! lock, the global allocation hook, memory-mapped and port output,
//! interrupt and async wiring — stays outside and hands plain values in
//! and out.

use vstd::prelude::*;

pub mod allocator;
pub mod task;
pub mod vga_buffer;

verus! {

/// Exit status that the kernel's test harness reports to the emulator
/// hosting it, through the emulator's debug-exit device.
#[derive(Debug, Clone, Copy, PartialEq, Eq)]
pub enum QemuExitCode {
    Success,
    Failure,
}

impl QemuExitCode {
    /// The numeric code written to the debug-exit device: values chosen
    /// so that neither collides with an exit status the emulator itself
    /// uses.
    pub fn code(&self) -> (c: u32)
        ensures
            *self is Success ==> c == 0x10,
            *self is Failure ==> c == 0x11,
    {
        match self {
            QemuExitCode::Success => 0x10,
            QemuExitCode::Failure => 0x11,
        }
    }
}

/// Anything the kernel's test runner can execute. Test functions
/// implement it; the kernel glue wraps each run with its name and
/// verdict on the serial console.
pub trait Testable {
    /// Executes the test; panics on failure.
    fn run(&self);
}

/// Runs every test in the list, in order, and reports how many ran.
/// The kernel glue around it prints the count and exits the emulator
/// with `QemuExitCode::Success` once this returns.
pub fn test_runner<T: Testable>(tests: &Vec<T>) -> (n: usize)
    ensures
        n == tests@.len(),
{
    let mut i: usize = 0;
    while i < tests.len()
        invariant
            i <= tests@.len(),
        decreases tests@.len() - i,
    {
        tests[i].run();
        i = i + 1;
    }
    i
}

} // verus!
