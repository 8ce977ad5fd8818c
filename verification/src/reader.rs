//! The reading side: takes the message out of a region, once.
use crate::region::{
    capacity, capacity_of, length_of, magic_of, payload_area, stored_length, stored_magic,
    well_formed, MAGIC,
};
use crate::text::{is_text_of, valid_text};
use crate::word::{lemma_word_round_trip, lemma_word_size, overlaid, store_word, word_bytes};
use vstd::prelude::*;
use vstd::string::StringSliceAdditionalSpecFns;

verus! {

/// True when the header of `region` carries the sentinel.
pub open spec fn message_present(region: Seq<u8>) -> bool {
    stored_magic(region) == MAGIC
}

/// The message that a take finds in `region`: the first `stored_length`
/// bytes of the payload area, where the sentinel is there and the stored
/// length is one that the region has room for.
pub open spec fn taken_message(region: Seq<u8>) -> Option<Seq<u8>> {
    if message_present(region) && stored_length(region) <= capacity(region) {
        Some(payload_area(region).subrange(0, stored_length(region) as int))
    } else {
        None
    }
}

/// The region after a take: a sentinel that was there is overwritten with
/// zero, whether or not the stored length is one that the region has room
/// for, and nothing else changes.
pub open spec fn after_take(region: Seq<u8>) -> Seq<u8> {
    if message_present(region) {
        overlaid(region, 0, word_bytes(0))
    } else {
        region
    }
}

/// Takes the message of the last run out of `region`, if there is one.
///
/// The bytes may end in the middle of a character where the message was cut
/// off. A region gives its message once: the sentinel is cleared before the
/// length is looked at, so that a later call finds nothing, also where the
/// length was more than the region has room for. Such a region and one
/// without the sentinel both give `None`; the two are not told apart.
pub fn get_panic_message_bytes<'a>(region: &'a mut [u8]) -> (message: Option<&'a [u8]>)
    requires
        well_formed(old(region)@),
    ensures
        final(region)@ == after_take(old(region)@),
        match message {
            Some(bytes) => taken_message(old(region)@) == Some(bytes@),
            None => taken_message(old(region)@) is None,
        },
{
    proof {
        lemma_word_size();
        lemma_word_round_trip(0);
    }
    if magic_of(region) != MAGIC {
        return None;
    }
    store_word(region, 0, 0);
    let room = capacity_of(region);
    let word = core::mem::size_of::<usize>();
    assert(region@.subrange(word as int, 2 * word) =~= old(region)@.subrange(
        word as int,
        2 * word,
    ));
    let len = length_of(region);
    if len > room {
        return None;
    }
    let held: &'a [u8] = region;
    let message = &held[2 * word..2 * word + len];
    assert(message@ =~= payload_area(old(region)@).subrange(0, len as int));
    Some(message)
}

/// Takes the message of the last run out of `region` as text, if there is
/// one: the whole message where it is valid UTF-8, and else its longest
/// prefix that is. The region changes as in `get_panic_message_bytes`.
pub fn get_panic_message_utf8<'a>(region: &'a mut [u8]) -> (text: Option<&'a str>)
    requires
        well_formed(old(region)@),
    ensures
        final(region)@ == after_take(old(region)@),
        match text {
            Some(s) => taken_message(old(region)@) matches Some(bytes) && is_text_of(
                s.spec_bytes(),
                bytes,
            ),
            None => taken_message(old(region)@) is None,
        },
{
    match get_panic_message_bytes(region) {
        Some(bytes) => valid_text(bytes),
        None => None,
    }
}

} // verus!
