//! RTT support: the image, its symbols, and the address of the RTT control block.

pub mod elf_cache;
pub mod elf_parser;
pub mod laws;
pub mod object_file;
