use crate::debug_enum;
use crate::tokenizer_mode;
use vstd::prelude::*;

verus! {

/// What a run is configured with: the input, how it is cut into chunks, how many
/// threads train it, and how much is reported.
#[derive(Debug)]
pub struct TokenizerParameters {
    /// What the program is asked to do. The command line does not set it.
    pub mode: u8,
    /// The verbosity bits. They change what is reported, never what is trained.
    pub dbg_lv: u8,
    /// The bytes to train on.
    pub bin_dat: Option<Vec<u8>>,
    /// How many bytes of the input to read at most.
    pub bytes_to_read: Option<u64>,
    /// `None` trains on the calling thread; zero takes one thread for each
    /// physical core; another number takes that many threads.
    pub multi_threaded: Option<usize>,
    /// The length of a chunk in bytes.
    pub trainer_chk_bytes: Option<usize>,
}

impl TokenizerParameters {
    /// The parameters that a run starts from: no input, no mode, chunks of 16
    /// bytes, one thread, and every level up to `INFO` reported.
    pub fn new() -> (p: TokenizerParameters)
        ensures
            p.mode == 0,
            p.dbg_lv == 0b1_1111,
            p.bin_dat.is_none(),
            p.bytes_to_read.is_none(),
            p.multi_threaded.is_none(),
            p.trainer_chk_bytes == Some(16usize),
    {
        TokenizerParameters {
            mode: 0,
            dbg_lv: 0b1_1111,
            bin_dat: None,
            bytes_to_read: None,
            multi_threaded: None,
            trainer_chk_bytes: Some(16),
        }
    }

    /// Whether the level holds the bit `SILENT`.
    pub fn has_silent(&self) -> (b: bool)
        ensures
            b == (self.dbg_lv & debug_enum::SILENT == debug_enum::SILENT),
    {
        self.dbg_lv & debug_enum::SILENT == debug_enum::SILENT
    }

    /// Whether the level holds the bit `ERROR`.
    pub fn has_error(&self) -> (b: bool)
        ensures
            b == (self.dbg_lv & debug_enum::ERROR == debug_enum::ERROR),
    {
        self.dbg_lv & debug_enum::ERROR == debug_enum::ERROR
    }

    /// Whether the level holds the bit `WARN`.
    pub fn has_warn(&self) -> (b: bool)
        ensures
            b == (self.dbg_lv & debug_enum::WARN == debug_enum::WARN),
    {
        self.dbg_lv & debug_enum::WARN == debug_enum::WARN
    }

    /// Whether the level holds the bit `DEBUG`.
    pub fn has_debug(&self) -> (b: bool)
        ensures
            b == (self.dbg_lv & debug_enum::DEBUG == debug_enum::DEBUG),
    {
        self.dbg_lv & debug_enum::DEBUG == debug_enum::DEBUG
    }

    /// Whether the level holds the bit `INFO`.
    pub fn has_info(&self) -> (b: bool)
        ensures
            b == (self.dbg_lv & debug_enum::INFO == debug_enum::INFO),
    {
        self.dbg_lv & debug_enum::INFO == debug_enum::INFO
    }

    /// Whether the level holds the bit `VERBOSE`.
    pub fn has_verbose(&self) -> (b: bool)
        ensures
            b == (self.dbg_lv & debug_enum::VERBOSE == debug_enum::VERBOSE),
    {
        self.dbg_lv & debug_enum::VERBOSE == debug_enum::VERBOSE
    }

    /// Whether the level holds the bit `LENGTHY`.
    pub fn has_lengthy(&self) -> (b: bool)
        ensures
            b == (self.dbg_lv & debug_enum::LENGTHY == debug_enum::LENGTHY),
    {
        self.dbg_lv & debug_enum::LENGTHY == debug_enum::LENGTHY
    }

    /// Whether nothing is asked for. The mode is read from the level: the two
    /// share one number on the command line.
    pub fn is_none(&self) -> (b: bool)
        ensures
            b == (self.dbg_lv == tokenizer_mode::NONE),
    {
        self.dbg_lv == tokenizer_mode::NONE
    }

    /// Whether training is asked for.
    pub fn is_train(&self) -> (b: bool)
        ensures
            b == (self.dbg_lv == tokenizer_mode::TRAIN),
    {
        self.dbg_lv == tokenizer_mode::TRAIN
    }

    /// Whether encoding is asked for.
    pub fn is_encode(&self) -> (b: bool)
        ensures
            b == (self.dbg_lv == tokenizer_mode::ENCODE),
    {
        self.dbg_lv == tokenizer_mode::ENCODE
    }

    /// Whether decoding is asked for.
    pub fn is_decode(&self) -> (b: bool)
        ensures
            b == (self.dbg_lv == tokenizer_mode::DECODE),
    {
        self.dbg_lv == tokenizer_mode::DECODE
    }
}

} // verus!
