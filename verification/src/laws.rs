//! What holds of writing and taking together.
use crate::reader::{after_take, message_present, taken_message};
use crate::region::{
    capacity, header_size, payload_area, stored_length, stored_magic, well_formed, MAGIC,
};
use crate::text::{is_text_of, lemma_text_of_cut_text, lemma_valid_bytes_are_their_text};
use crate::word::{
    lemma_overlaid_twice, lemma_word_round_trip, lemma_word_size, overlaid, word_bytes, word_size,
};
use crate::writer::{accepted, after_append};
use vstd::prelude::*;
use vstd::utf8::{is_char_boundary, valid_utf8};

verus! {

/// An append stays inside the region. The region keeps its length, at most
/// as many bytes are taken as the payload area has room for and as the
/// input has, and every payload byte outside the span written to is what it
/// was.
pub proof fn lemma_append_stays_in_bounds(region: Seq<u8>, offset: nat, data: Seq<u8>)
    requires
        well_formed(region),
    ensures
        after_append(region, offset, data).len() == region.len(),
        accepted(region, offset, data) <= capacity(region),
        accepted(region, offset, data) <= data.len(),
        offset + accepted(region, offset, data) <= capacity(region) || accepted(
            region,
            offset,
            data,
        ) == 0,
        forall|i: int|
            0 <= i < capacity(region) && !(offset <= i < offset + accepted(region, offset, data))
                ==> payload_area(after_append(region, offset, data))[i] == payload_area(region)[i],
{
    lemma_word_size();
    lemma_word_round_trip(MAGIC);
    let n = accepted(region, offset, data);
    lemma_word_round_trip((offset + n) as usize);
}

/// Once the payload area is full, an append changes neither the region nor
/// the number of bytes written.
pub proof fn lemma_append_to_full_region(region: Seq<u8>, offset: nat, data: Seq<u8>)
    requires
        well_formed(region),
        offset >= capacity(region),
    ensures
        after_append(region, offset, data) == region,
        accepted(region, offset, data) == 0,
{
}

/// The header and the payload that an append into a region with room
/// leaves behind.
pub proof fn lemma_append_stamps(region: Seq<u8>, offset: nat, data: Seq<u8>)
    requires
        well_formed(region),
        offset < capacity(region),
    ensures
        well_formed(after_append(region, offset, data)),
        capacity(after_append(region, offset, data)) == capacity(region),
        stored_magic(after_append(region, offset, data)) == MAGIC,
        stored_length(after_append(region, offset, data)) == offset + accepted(
            region,
            offset,
            data,
        ),
        payload_area(after_append(region, offset, data)) == overlaid(
            payload_area(region),
            offset as int,
            data.subrange(0, accepted(region, offset, data) as int),
        ),
{
    lemma_word_size();
    let n = accepted(region, offset, data);
    let length = (offset + n) as usize;
    lemma_word_round_trip(MAGIC);
    lemma_word_round_trip(length);
    let after = after_append(region, offset, data);
    let area = overlaid(payload_area(region), offset as int, data.subrange(0, n as int));
    assert(after.subrange(0, word_size() as int) =~= word_bytes(MAGIC));
    assert(after.subrange(word_size() as int, header_size() as int) =~= word_bytes(length));
    assert(payload_area(after) =~= area);
}

/// A take right after a take finds nothing, and changes nothing more.
pub proof fn lemma_second_take_finds_nothing(region: Seq<u8>)
    requires
        well_formed(region),
    ensures
        taken_message(after_take(region)) is None,
        after_take(after_take(region)) == after_take(region),
{
    lemma_word_size();
    lemma_word_round_trip(0);
    if message_present(region) {
        assert(after_take(region).subrange(0, word_size() as int) =~= word_bytes(0));
    }
}

/// A message that fits comes back as it was written.
pub proof fn lemma_round_trip(region: Seq<u8>, message: Seq<u8>)
    requires
        well_formed(region),
        0 < capacity(region),
        message.len() <= capacity(region),
    ensures
        taken_message(after_append(region, 0, message)) == Some(message),
{
    lemma_append_stamps(region, 0, message);
    let after = after_append(region, 0, message);
    assert(payload_area(after).subrange(0, message.len() as int) =~= message);
}

/// Of a message that is longer than the payload area, the first bytes come
/// back, as many as the area has room for.
pub proof fn lemma_truncated_round_trip(region: Seq<u8>, message: Seq<u8>)
    requires
        well_formed(region),
        0 < capacity(region),
        message.len() > capacity(region),
    ensures
        taken_message(after_append(region, 0, message)) == Some(
            message.subrange(0, capacity(region) as int),
        ),
{
    lemma_append_stamps(region, 0, message);
    let after = after_append(region, 0, message);
    let room = capacity(region) as int;
    assert(payload_area(after).subrange(0, room) =~= message.subrange(0, room));
}

/// Text that fits comes back whole, as bytes and as text.
pub proof fn lemma_text_round_trip(region: Seq<u8>, text: Seq<u8>)
    requires
        well_formed(region),
        valid_utf8(text),
        0 < capacity(region),
        text.len() <= capacity(region),
    ensures
        taken_message(after_append(region, 0, text)) == Some(text),
        is_text_of(text, text),
{
    lemma_round_trip(region, text);
    lemma_valid_bytes_are_their_text(text);
}

/// Text that is cut off inside a character comes back without that
/// character, while the bytes come back as they were cut. Of valid text
/// that is longer than the payload area, the bytes taken are those that
/// fit, and their text ends at `kept`, the last place between two
/// characters that is not beyond the end of the area.
pub proof fn lemma_cut_text_keeps_whole_characters(region: Seq<u8>, text: Seq<u8>, kept: int)
    requires
        well_formed(region),
        valid_utf8(text),
        0 < capacity(region) < text.len(),
        0 <= kept <= capacity(region),
        is_char_boundary(text, kept),
        forall|j: int| kept < j <= capacity(region) ==> !is_char_boundary(text, j),
    ensures
        taken_message(after_append(region, 0, text)) == Some(
            text.subrange(0, capacity(region) as int),
        ),
        is_text_of(text.subrange(0, kept), text.subrange(0, capacity(region) as int)),
{
    lemma_truncated_round_trip(region, text);
    lemma_text_of_cut_text(text, capacity(region) as int, kept);
}

/// A stored length that is more than the region has room for gives no
/// message, and the take still clears the sentinel.
pub proof fn lemma_corrupt_length_rejected(region: Seq<u8>)
    requires
        well_formed(region),
        message_present(region),
        stored_length(region) > capacity(region),
    ensures
        taken_message(region) is None,
        stored_magic(after_take(region)) == 0,
        !message_present(after_take(region)),
{
    lemma_word_size();
    lemma_word_round_trip(0);
    assert(after_take(region).subrange(0, word_size() as int) =~= word_bytes(0));
}

/// Appending a message piece by piece leaves the region as appending it in
/// one piece does, and as many bytes are taken.
pub proof fn lemma_appends_compose(region: Seq<u8>, offset: nat, first: Seq<u8>, second: Seq<u8>)
    requires
        well_formed(region),
    ensures
        after_append(
            after_append(region, offset, first),
            offset + accepted(region, offset, first),
            second,
        ) == after_append(region, offset, first + second),
        accepted(region, offset, first) + accepted(
            after_append(region, offset, first),
            offset + accepted(region, offset, first),
            second,
        ) == accepted(region, offset, first + second),
{
    if offset < capacity(region) {
        let n1 = accepted(region, offset, first);
        let middle = after_append(region, offset, first);
        let next = offset + n1;
        lemma_append_stamps(region, offset, first);
        if next < capacity(region) {
            let n2 = accepted(middle, next, second);
            assert(n1 == first.len());
            assert(accepted(region, offset, first + second) == n1 + n2);
            assert((first + second).subrange(0, (n1 + n2) as int) =~= first + second.subrange(
                0,
                n2 as int,
            ));
            assert(first.subrange(0, n1 as int) =~= first);
            lemma_overlaid_twice(
                payload_area(region),
                offset as int,
                first,
                second.subrange(0, n2 as int),
            );
        } else {
            assert((first + second).subrange(0, n1 as int) =~= first.subrange(0, n1 as int));
        }
    }
}

} // verus!
