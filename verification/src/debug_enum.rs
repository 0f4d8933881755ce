use vstd::prelude::*;

verus! {

/// The bit of a silent run. The constants here are the bits of a verbosity level;
/// a level may hold several of them.
pub const SILENT: u8 = 1;

/// Errors are reported.
pub const ERROR: u8 = 0b10;

/// Warnings are reported.
pub const WARN: u8 = 0b100;

/// What helps to find a fault is reported.
pub const DEBUG: u8 = 0b1000;

/// What the run does is reported.
pub const INFO: u8 = 0b1_0000;

/// The arguments and options are reported.
pub const VERBOSE: u8 = 0b10_0000;

/// The whole vocabulary is reported.
pub const LENGTHY: u8 = 0b100_0000;

} // verus!
