//! What the debugger knows about target chips.

pub mod registry;
