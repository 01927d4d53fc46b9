use vstd::prelude::*;

pub mod decimal;
pub mod merge;
pub mod iodirect;
pub mod lines;

verus! {

/// Width of one record: 13 ASCII decimal digits followed by a newline.
pub const LINE_WIDTH_INCL_NEWLINE: usize = 14;

/// Alignment required for direct-I/O buffers and positional writes.
pub const ALIGN: usize = 4096;

/// Size of one read or write block.
pub const CHUNK_SIZE: usize = 1048576;

/// The carry region at the head of an input buffer must be able to hold a
/// whole partial line.
pub fn check_consts()
    ensures
        ALIGN >= LINE_WIDTH_INCL_NEWLINE,
{
}

} // verus!
