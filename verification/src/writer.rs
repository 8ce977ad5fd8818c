//! The writing side: appends message bytes to a region and stamps its header.
use crate::region::{capacity, capacity_of, payload_area, well_formed, MAGIC};
use crate::word::{lemma_word_round_trip, lemma_word_size, overlaid, store_word, word_bytes};
use vstd::prelude::*;
use vstd::string::StringSliceAdditionalSpecFns;

verus! {

/// Number of bytes of `data` that an append at `offset` takes: as many as
/// still fit, none once the payload area is full.
pub open spec fn accepted(region: Seq<u8>, offset: nat, data: Seq<u8>) -> nat {
    if offset >= capacity(region) {
        0
    } else if data.len() <= capacity(region) - offset {
        data.len()
    } else {
        (capacity(region) - offset) as nat
    }
}

/// The region after `data` was appended at `offset`.
///
/// A full region stays as it is. Otherwise the header holds the sentinel
/// and the new length, and the payload area is what it was but for the
/// accepted bytes, which lie at `offset`.
pub open spec fn after_append(region: Seq<u8>, offset: nat, data: Seq<u8>) -> Seq<u8> {
    if offset >= capacity(region) {
        region
    } else {
        let n = accepted(region, offset, data);
        word_bytes(MAGIC) + word_bytes((offset + n) as usize) + overlaid(
            payload_area(region),
            offset as int,
            data.subrange(0, n as int),
        )
    }
}

/// Writes one message into a region, in one piece or in several.
pub struct Ram {
    /// Number of payload bytes written so far.
    pub offset: usize,
}

impl View for Ram {
    type V = nat;

    /// A writer is the place in the payload area where it writes next.
    open spec fn view(&self) -> nat {
        self.offset as nat
    }
}

impl Ram {
    /// A writer that has written nothing yet.
    pub fn new() -> (ram: Ram)
        ensures
            ram@ == 0,
    {
        Ram { offset: 0 }
    }

    /// Appends `bytes` to the message in `region`, as far as they fit, and
    /// stamps the header. What does not fit is dropped; a full region is
    /// left as it is.
    pub fn append(&mut self, region: &mut [u8], bytes: &[u8])
        requires
            well_formed(old(region)@),
        ensures
            final(region)@ == after_append(old(region)@, old(self)@, bytes@),
            final(self)@ == old(self)@ + accepted(old(region)@, old(self)@, bytes@),
            final(region)@.len() == old(region)@.len(),
    {
        proof {
            lemma_word_size();
            lemma_word_round_trip(MAGIC);
        }
        let word = core::mem::size_of::<usize>();
        let room = capacity_of(region);
        if self.offset >= room {
            return;
        }
        let left = room - self.offset;
        let n = if bytes.len() < left {
            bytes.len()
        } else {
            left
        };
        store_word(region, 0, MAGIC);
        let base = 2 * word + self.offset;
        let ghost stamped = region@;
        let mut i: usize = 0;
        while i < n
            invariant
                i <= n <= bytes@.len(),
                base + n <= region@.len() <= usize::MAX,
                region@.len() == stamped.len(),
                forall|k: int|
                    0 <= k < region@.len() && !(base <= k < base + i) ==> region@[k]
                        == stamped[k],
                forall|k: int| 0 <= k < i ==> region@[base + k] == bytes@[k],
            decreases n - i,
        {
            region[base + i] = bytes[i];
            i += 1;
        }
        let ghost copied = region@;
        self.offset = self.offset + n;
        proof {
            lemma_word_round_trip(self.offset);
        }
        store_word(region, word, self.offset);
        proof {
            let magic = word_bytes(MAGIC);
            let length = word_bytes(self.offset);
            let area = overlaid(
                payload_area(old(region)@),
                old(self).offset as int,
                bytes@.subrange(0, n as int),
            );
            let want = magic + length + area;
            assert forall|k: int| 0 <= k < region@.len() implies region@[k] == want[k] by {
                if k < word {
                    assert(region@[k] == stamped[k] && want[k] == magic[k]);
                } else if k < 2 * word {
                    assert(region@[k] == length[k - word]);
                } else if k < base {
                    assert(region@[k] == stamped[k] && want[k] == area[k - 2 * word]);
                } else if k < base + n {
                    assert(region@[k] == copied[k] && want[k] == area[k - 2 * word]);
                } else {
                    assert(region@[k] == stamped[k] && want[k] == area[k - 2 * word]);
                }
            }
            assert(region@ =~= want);
        }
    }

    /// Appends the bytes of `s`, as `append` does.
    pub fn write_str(&mut self, region: &mut [u8], s: &str)
        requires
            well_formed(old(region)@),
        ensures
            final(region)@ == after_append(old(region)@, old(self)@, s.spec_bytes()),
            final(self)@ == old(self)@ + accepted(old(region)@, old(self)@, s.spec_bytes()),
            final(region)@.len() == old(region)@.len(),
    {
        self.append(region, s.as_bytes());
    }
}

/// Stores `info` in `region` as the message to be found after the restart,
/// cut off where the region ends.
pub fn report_panic_info(region: &mut [u8], info: &str)
    requires
        well_formed(old(region)@),
    ensures
        final(region)@ == after_append(old(region)@, 0, info.spec_bytes()),
{
    let mut ram = Ram::new();
    ram.write_str(region, info);
}

} // verus!
