//! Header words: how a `usize` lies in the bytes of a region.
//!
//! A word takes `size_of::<usize>()` bytes and is laid out as the machine
//! lays out a `usize` in memory, so that a region written here reads the
//! same as one written by a plain store of the integer.
use vstd::endian::endianness;
use vstd::layout::size_of;
use vstd::prelude::*;

verus! {

/// Number of bytes that one header word takes.
pub open spec fn word_size() -> nat {
    size_of::<usize>()
}

/// `v` with its `n` low-order base-256 digits dropped.
pub open spec fn shifted(v: nat, n: nat) -> nat
    decreases n,
{
    if n == 0 {
        v
    } else {
        shifted(v, (n - 1) as nat) / 256
    }
}

/// The `n` low-order base-256 digits of `v`, least significant first.
pub open spec fn digits(v: nat, n: nat) -> Seq<u8> {
    Seq::new(n, |j: int| (shifted(v, j as nat) % 256) as u8)
}

/// The number whose base-256 digits, least significant first, are `d`.
pub open spec fn number(d: Seq<u8>) -> nat
    decreases d.len(),
{
    if d.len() == 0 {
        0
    } else {
        d[0] as nat + 256 * number(d.drop_first())
    }
}

/// 256 to the power `n`: one more than the largest number of `n` digits.
pub open spec fn limit(n: nat) -> nat
    decreases n,
{
    if n == 0 {
        1
    } else {
        256 * limit((n - 1) as nat)
    }
}

/// True when this machine stores the least significant byte of an integer
/// at the lowest address.
pub open spec fn little_endian() -> bool {
    endianness() is Little
}

/// The bytes of the word `w` in the order in which they lie in memory.
pub open spec fn word_bytes(w: usize) -> Seq<u8> {
    if little_endian() {
        digits(w as nat, word_size())
    } else {
        digits(w as nat, word_size()).reverse()
    }
}

/// The word that `bytes` hold, read in the order of this machine.
pub open spec fn word_value(bytes: Seq<u8>) -> nat {
    if little_endian() {
        number(bytes)
    } else {
        number(bytes.reverse())
    }
}

/// `region` with the `data.len()` bytes from `at` on replaced by `data`.
pub open spec fn overlaid(region: Seq<u8>, at: int, data: Seq<u8>) -> Seq<u8>
    recommends
        0 <= at,
        at + data.len() <= region.len(),
{
    region.subrange(0, at) + data + region.subrange(at + data.len(), region.len() as int)
}

/// Laying `first` over a region and `second` right behind it is laying the
/// two over it in one piece.
pub proof fn lemma_overlaid_twice(region: Seq<u8>, at: int, first: Seq<u8>, second: Seq<u8>)
    requires
        0 <= at,
        at + first.len() + second.len() <= region.len(),
    ensures
        overlaid(overlaid(region, at, first), at + first.len(), second) == overlaid(
            region,
            at,
            first + second,
        ),
{
    assert(overlaid(overlaid(region, at, first), at + first.len(), second) =~= overlaid(
        region,
        at,
        first + second,
    ));
}

/// A word is four or eight bytes, and a `usize` holds exactly the numbers
/// of that many digits.
pub proof fn lemma_word_size()
    ensures
        word_size() == 4 || word_size() == 8,
        limit(word_size()) == usize::MAX + 1,
{
    broadcast use vstd::layout::layout_of_primitives;

    assert(limit(4) == 0x1_0000_0000) by {
        reveal_with_fuel(limit, 5);
    }
    assert(limit(8) == 0x1_0000_0000_0000_0000) by {
        reveal_with_fuel(limit, 9);
    }
}

/// Dropping one digit first and `n` more after is dropping `n + 1`.
pub proof fn lemma_shifted_front(v: nat, n: nat)
    ensures
        shifted(v / 256, n) == shifted(v, n + 1),
    decreases n,
{
    if n > 0 {
        lemma_shifted_front(v, (n - 1) as nat);
        assert(shifted(v, n + 1) == shifted(v, n) / 256);
    } else {
        assert(shifted(v, 1) == shifted(v, 0) / 256);
    }
}

/// `limit` does not fall when its argument grows.
pub proof fn lemma_limit_grows(m: nat, n: nat)
    requires
        m <= n,
    ensures
        limit(m) <= limit(n),
    decreases n,
{
    if m < n {
        lemma_limit_grows(m, (n - 1) as nat);
    }
}

/// The number read from `n` digits is below `limit(n)`.
pub proof fn lemma_number_below_limit(d: Seq<u8>)
    ensures
        number(d) < limit(d.len()),
    decreases d.len(),
{
    if d.len() > 0 {
        lemma_number_below_limit(d.drop_first());
    }
}

/// Reading back the digits of a number that fits in them gives the number.
pub proof fn lemma_number_of_digits(v: nat, n: nat)
    requires
        v < limit(n),
    ensures
        number(digits(v, n)) == v,
    decreases n,
{
    if n > 0 {
        let rest = (n - 1) as nat;
        assert(digits(v, n).drop_first() =~= digits(v / 256, rest)) by {
            assert forall|j: int| 0 <= j < rest implies #[trigger] digits(v, n).drop_first()[j]
                == digits(v / 256, rest)[j] by {
                lemma_shifted_front(v, j as nat);
            }
        }
        lemma_number_of_digits(v / 256, rest);
    }
}

/// A word read from the bytes of `w` is `w`.
pub proof fn lemma_word_round_trip(w: usize)
    ensures
        word_bytes(w).len() == word_size(),
        word_value(word_bytes(w)) == w,
{
    lemma_word_size();
    lemma_number_of_digits(w as nat, word_size());
    let d = digits(w as nat, word_size());
    assert(d.reverse().reverse() =~= d);
}

/// `u16::from_ne_bytes`: the integer that two bytes hold in this machine's
/// memory order.
///
/// Taken on trust, not proved: on a little-endian machine the first byte is
/// the low one, on a big-endian machine the high one.
#[verifier::external_body]
fn u16_from_ne_bytes(bytes: [u8; 2]) -> (v: u16)
    ensures
        v == if little_endian() {
            bytes[0] + 256 * bytes[1]
        } else {
            256 * bytes[0] + bytes[1]
        },
{
    u16::from_ne_bytes(bytes)
}

/// Tells whether this machine stores the least significant byte first, by
/// reading the bytes `1, 0` as an integer.
pub fn is_little_endian() -> (little: bool)
    ensures
        little == little_endian(),
{
    u16_from_ne_bytes([1u8, 0u8]) == 1
}

/// Writes the word `w` into `region` at byte offset `at`.
pub fn store_word(region: &mut [u8], at: usize, w: usize)
    requires
        at + word_size() <= old(region)@.len(),
    ensures
        final(region)@ == overlaid(old(region)@, at as int, word_bytes(w)),
{
    proof {
        lemma_word_size();
    }
    let little = is_little_endian();
    let n = core::mem::size_of::<usize>();
    assert(at + n <= usize::MAX) by {
        vstd::slice::axiom_spec_len(region);
    }
    let mut rest = w;
    let mut i: usize = 0;
    while i < n
        invariant
            n == word_size(),
            n == 4 || n == 8,
            little == little_endian(),
            at + n <= old(region)@.len(),
            at + n <= usize::MAX,
            i <= n,
            rest == shifted(w as nat, i as nat),
            region@.len() == old(region)@.len(),
            forall|k: int|
                0 <= k < region@.len() && !(at <= k < at + n) ==> region@[k] == old(region)@[k],
            forall|j: int|
                0 <= j < i ==> region@[at + (if little {
                    j
                } else {
                    n - 1 - j
                })] == digits(w as nat, n as nat)[j],
        decreases n - i,
    {
        let pos = if little {
            at + i
        } else {
            at + (n - 1 - i)
        };
        region[pos] = (rest % 256) as u8;
        rest = rest / 256;
        i += 1;
    }
    assert(region@ =~= overlaid(old(region)@, at as int, word_bytes(w)));
}

/// Reads the word that lies in `region` at byte offset `at`.
pub fn load_word(region: &[u8], at: usize) -> (w: usize)
    requires
        at + word_size() <= region@.len(),
    ensures
        w == word_value(region@.subrange(at as int, at + word_size())),
{
    proof {
        lemma_word_size();
    }
    let little = is_little_endian();
    let n = core::mem::size_of::<usize>();
    assert(at + n <= usize::MAX) by {
        vstd::slice::axiom_spec_len(region);
    }
    let ghost held = region@.subrange(at as int, at + n);
    let ghost d = if little {
        held
    } else {
        held.reverse()
    };
    let mut w: usize = 0;
    let mut i: usize = n;
    while i > 0
        invariant
            n == word_size(),
            little == little_endian(),
            at + n <= region@.len(),
            at + n <= usize::MAX,
            i <= n,
            d.len() == n,
            limit(n as nat) == usize::MAX + 1,
            forall|j: int|
                0 <= j < n ==> d[j] == region@[at + (if little {
                    j
                } else {
                    n - 1 - j
                })],
            w == number(d.subrange(i as int, n as int)),
        decreases i,
    {
        i -= 1;
        let pos = if little {
            at + i
        } else {
            at + (n - 1 - i)
        };
        proof {
            let tail = d.subrange(i as int, n as int);
            assert(tail.drop_first() =~= d.subrange(i + 1, n as int));
            lemma_number_below_limit(tail);
            lemma_limit_grows(tail.len(), n as nat);
        }
        w = w * 256 + region[pos] as usize;
    }
    assert(d.subrange(0, n as int) =~= d);
    w
}

} // verus!
