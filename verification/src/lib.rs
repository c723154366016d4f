//! Debug information for embedded firmware: symbols of an ELF image, the layout and the
//! variables that its DWARF sections describe, expressions over those variables, and the
//! values that raw target memory holds.

pub mod debugger;
pub mod error;
pub mod listing;
pub mod parser;
pub mod rtt;
pub mod startup;
pub mod text;
