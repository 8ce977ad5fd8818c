//! Text out of bytes that may end in the middle of a character.
use vstd::prelude::*;
use vstd::slice::slice_subrange;
use vstd::string::StringSliceAdditionalSpecFns;
use vstd::utf8::{
    is_char_boundary, length_of_first_scalar, pop_first_scalar, valid_first_scalar, valid_utf8,
    valid_utf8_split,
};

verus! {

/// True when the first `n` bytes of `bytes` are valid UTF-8 and no longer
/// prefix of `bytes` is.
pub open spec fn longest_valid_prefix(bytes: Seq<u8>, n: int) -> bool {
    &&& 0 <= n <= bytes.len()
    &&& valid_utf8(bytes.subrange(0, n))
    &&& forall|m: int| n < m <= bytes.len() ==> !valid_utf8(#[trigger] bytes.subrange(0, m))
}

/// True when `text` is the longest prefix of `bytes` that is valid UTF-8.
pub open spec fn is_text_of(text: Seq<u8>, bytes: Seq<u8>) -> bool {
    &&& longest_valid_prefix(bytes, text.len() as int)
    &&& text == bytes.subrange(0, text.len() as int)
}

/// Bytes have one text and no other.
pub proof fn lemma_text_is_one(bytes: Seq<u8>, text: Seq<u8>, other: Seq<u8>)
    requires
        is_text_of(text, bytes),
        is_text_of(other, bytes),
    ensures
        text == other,
{
    if text.len() < other.len() {
        assert(!valid_utf8(bytes.subrange(0, other.len() as int)));
    } else if other.len() < text.len() {
        assert(!valid_utf8(bytes.subrange(0, text.len() as int)));
    }
}

/// Bytes that are valid UTF-8 are their own text.
pub proof fn lemma_valid_bytes_are_their_text(bytes: Seq<u8>)
    requires
        valid_utf8(bytes),
    ensures
        is_text_of(bytes, bytes),
{
    assert(bytes.subrange(0, bytes.len() as int) =~= bytes);
}

/// A prefix of valid text that is itself valid ends between two characters.
pub proof fn lemma_valid_prefix_ends_at_boundary(text: Seq<u8>, n: int)
    requires
        valid_utf8(text),
        0 <= n <= text.len(),
        valid_utf8(text.subrange(0, n)),
    ensures
        is_char_boundary(text, n),
    decreases text.len(),
{
    if n > 0 {
        let head = text.subrange(0, n);
        assert(valid_first_scalar(head));
        assert(valid_first_scalar(text));
        let k = length_of_first_scalar(text);
        assert(head[0] == text[0]);
        assert(length_of_first_scalar(head) == k);
        assert(k <= n);
        let rest = pop_first_scalar(text);
        assert(pop_first_scalar(head) =~= rest.subrange(0, n - k));
        lemma_valid_prefix_ends_at_boundary(rest, n - k);
    }
}

/// Valid text that is cut off after `cut` bytes keeps its whole characters:
/// the text of what is left ends at `kept`, the last place between two
/// characters that is not beyond the cut.
pub proof fn lemma_text_of_cut_text(text: Seq<u8>, cut: int, kept: int)
    requires
        valid_utf8(text),
        0 <= kept <= cut <= text.len(),
        is_char_boundary(text, kept),
        forall|j: int| kept < j <= cut ==> !is_char_boundary(text, j),
    ensures
        is_text_of(text.subrange(0, kept), text.subrange(0, cut)),
{
    let held = text.subrange(0, cut);
    assert(held.subrange(0, kept) =~= text.subrange(0, kept));
    valid_utf8_split(text, kept);
    assert forall|m: int| kept < m <= held.len() implies !valid_utf8(
        #[trigger] held.subrange(0, m),
    ) by {
        assert(held.subrange(0, m) =~= text.subrange(0, m));
        if valid_utf8(text.subrange(0, m)) {
            lemma_valid_prefix_ends_at_boundary(text, m);
        }
    }
}

/// `core::str::from_utf8`, with the error replaced by what its
/// `valid_up_to` returns.
///
/// Taken on trust, not proved: the call gives the bytes back as text
/// exactly when they are valid UTF-8, and otherwise the error's
/// `valid_up_to` is the greatest length up to which they are.
#[verifier::external_body]
fn str_from_utf8(bytes: &[u8]) -> (text: Result<&str, usize>)
    ensures
        match text {
            Ok(s) => valid_utf8(bytes@) && s.spec_bytes() == bytes@,
            Err(n) => !valid_utf8(bytes@) && longest_valid_prefix(bytes@, n as int),
        },
{
    match core::str::from_utf8(bytes) {
        Ok(s) => Ok(s),
        Err(e) => Err(e.valid_up_to()),
    }
}

/// The text at the start of `bytes`: all of them where they are valid
/// UTF-8, and else their longest prefix that is, which leaves out a last
/// character that was cut short.
pub fn valid_text(bytes: &[u8]) -> (text: Option<&str>)
    ensures
        text matches Some(s) && is_text_of(s.spec_bytes(), bytes@),
{
    match str_from_utf8(bytes) {
        Ok(s) => {
            assert(bytes@.subrange(0, bytes@.len() as int) =~= bytes@);
            Some(s)
        },
        Err(valid) => {
            match str_from_utf8(slice_subrange(bytes, 0, valid)) {
                Ok(s) => Some(s),
                Err(_) => None,
            }
        },
    }
}

} // verus!
