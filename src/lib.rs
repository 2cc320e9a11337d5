//! Turns the block-structured text that `lspci -vmm -nn` prints into
//! typed PCI device records.
//!
//! `parser::parse` splits the input into blocks and reads each into a
//! `record::Pci`; `code::PciCode` decodes the bracketed identifiers.
pub mod code;
pub mod parser;
pub mod record;
pub mod text;
