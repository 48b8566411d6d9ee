//! Introspection of a RISC-V hart's downward-growing call stack: locating the
//! hart's stack region, measuring its use from the stack pointer, painting the
//! unused part with a sentinel word and recovering the high-water mark.
//!
//! Addresses are plain `usize` values and the stack's memory is seen as a
//! slice of 32-bit words, so every computation here is independent of the
//! hardware and can be exercised on a simulated buffer.

pub mod region;
pub mod paint;

pub use region::{
    current_stack_free, current_stack_in_use, stack, stack_rev, stack_size,
    AscendingRange, StackRegion,
};
pub use paint::{
    painted_word_count, repaint_stack, stack_painted, stack_painted_binary, STACK_PAINT_VALUE,
};
