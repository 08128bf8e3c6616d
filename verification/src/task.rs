//! State kept for the kernel's asynchronous tasks. Only the keyboard
//! task keeps any state worth reasoning about: the scancode queue.

pub mod keyboard;
