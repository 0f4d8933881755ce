use vstd::prelude::*;

verus! {

/// Nothing is asked for. The constants here say what the program is asked to do.
pub const NONE: u8 = 0;

/// To train a vocabulary.
pub const TRAIN: u8 = 1;

/// To encode with a vocabulary.
pub const ENCODE: u8 = 2;

/// To decode with a vocabulary.
pub const DECODE: u8 = 3;

} // verus!
