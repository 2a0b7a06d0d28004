//! Destructive, allocation-free formatter for a single exFAT partition.
//!
//! The formatter creates one MBR basic-data partition spanning all available
//! sectors after LBA 0. It is deliberately exclusive: callers must own the
//! device exclusively and surface an explicit confirmation before invoking it.

pub mod layout;
pub mod write;

pub use write::format_exfat;
