//! The layout of a region: a header of two words, then the payload area.
//!
//! ```text
//! offset 0              sentinel, one word
//! offset word_size      length, one word: the number of payload bytes in use
//! offset 2 * word_size  payload area, to the end of the region
//! ```
use crate::word::{lemma_word_size, load_word, word_size, word_value};
use vstd::prelude::*;

verus! {

/// Sentinel that the first header word holds while a message is present.
/// Any other value there, zero included, means that there is none.
pub const MAGIC: usize = 0x0FAC_ADE0;

/// Number of bytes that the header takes.
pub open spec fn header_size() -> nat {
    2 * word_size()
}

/// A region is a byte slice with room for the header.
pub open spec fn well_formed(region: Seq<u8>) -> bool {
    header_size() <= region.len() <= usize::MAX
}

/// Number of payload bytes that the region has room for.
pub open spec fn capacity(region: Seq<u8>) -> nat {
    (region.len() - header_size()) as nat
}

/// The value of the first header word.
pub open spec fn stored_magic(region: Seq<u8>) -> nat {
    word_value(region.subrange(0, word_size() as int))
}

/// The value of the second header word.
pub open spec fn stored_length(region: Seq<u8>) -> nat {
    word_value(region.subrange(word_size() as int, header_size() as int))
}

/// The bytes after the header, used or not.
pub open spec fn payload_area(region: Seq<u8>) -> Seq<u8> {
    region.subrange(header_size() as int, region.len() as int)
}

/// Tells whether `region` has room for the header, which every other
/// function of this library asks of its region.
pub fn holds_header(region: &[u8]) -> (ok: bool)
    ensures
        ok == well_formed(region@),
{
    proof {
        lemma_word_size();
    }
    region.len() >= 2 * core::mem::size_of::<usize>()
}

/// Number of payload bytes that `region` has room for.
pub fn capacity_of(region: &[u8]) -> (room: usize)
    requires
        well_formed(region@),
    ensures
        room == capacity(region@),
{
    proof {
        lemma_word_size();
    }
    region.len() - 2 * core::mem::size_of::<usize>()
}

/// Reads the sentinel word of `region`.
pub fn magic_of(region: &[u8]) -> (magic: usize)
    requires
        well_formed(region@),
    ensures
        magic == stored_magic(region@),
{
    proof {
        lemma_word_size();
    }
    load_word(region, 0)
}

/// Reads the length word of `region`.
pub fn length_of(region: &[u8]) -> (length: usize)
    requires
        well_formed(region@),
    ensures
        length == stored_length(region@),
{
    proof {
        lemma_word_size();
    }
    load_word(region, core::mem::size_of::<usize>())
}

} // verus!
