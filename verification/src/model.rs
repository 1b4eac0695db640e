//! The mathematical model of the wire format.
//!
//! These specification functions define, over `Seq<u8>` and plain integers,
//! what the executable codec computes: the canonical encoding of a value,
//! the concatenated encoding of a batch, and the three decode operations.
//! The contracts of the functions in [`crate::codec`] are stated in terms of
//! these definitions, and the laws in [`crate::laws`] are proved about them.

use vstd::prelude::*;

verus! {

/// True when the byte's continuation bit (its high-order bit) is set,
/// meaning that more bytes of the same value follow.
pub open spec fn continues(b: u8) -> bool {
    b & 0x80 != 0
}

/// The seven data bits of one encoded byte, as the group value they carry.
pub open spec fn group_bits(b: u8) -> u64 {
    (b & 0x7f) as u64
}

/// The canonical encoding of `v`: its 7-bit groups, least significant first,
/// each byte carrying the continuation bit exactly when more groups follow.
/// The value zero encodes as the single byte `0x00`.
pub open spec fn encode(v: u64) -> Seq<u8>
    decreases v,
{
    if v < 128 {
        seq![v as u8]
    } else {
        proof {
            assert(v >= 128 ==> (v >> 7) < v) by (bit_vector);
        }
        seq![((v & 0x7f) | 0x80) as u8] + encode(v >> 7)
    }
}

/// The encoding of a batch: the concatenation, in order, of the canonical
/// encodings of the values. The empty batch encodes as the empty sequence.
pub open spec fn encode_list(vs: Seq<u64>) -> Seq<u8>
    decreases vs.len(),
{
    if vs.len() == 0 {
        Seq::empty()
    } else {
        encode(vs[0]) + encode_list(vs.drop_first())
    }
}

/// Decoding one value from the front of `data`: scan bytes while their
/// continuation bit is set, fold each 7-bit group into the value (least
/// significant group first, bits beyond position 63 silently discarded by
/// the truncating shift), and stop at the first byte whose continuation bit
/// is clear. `None` when the input ends before such a byte.
pub open spec fn decode_one(data: Seq<u8>) -> Option<(u64, Seq<u8>)>
    decreases data.len(),
{
    if data.len() == 0 {
        None
    } else if !continues(data[0]) {
        Some((group_bits(data[0]), data.drop_first()))
    } else {
        match decode_one(data.drop_first()) {
            None => None,
            Some((v, rest)) => Some((group_bits(data[0]) | (v << 7), rest)),
        }
    }
}

/// A successful decode consumes at least the one terminating byte, so the
/// remaining suffix is strictly shorter than the input.
pub proof fn lemma_decode_one_shrinks(data: Seq<u8>)
    ensures
        decode_one(data) matches Some(p) ==> p.1.len() < data.len(),
    decreases data.len(),
{
    if data.len() > 0 && continues(data[0]) {
        lemma_decode_one_shrinks(data.drop_first());
    }
}

/// When every available byte claims continuation, no value can be completed.
pub proof fn lemma_all_continue_decode_none(data: Seq<u8>)
    requires
        forall|k: int| 0 <= k < data.len() ==> continues(data[k]),
    ensures
        decode_one(data) is None,
    decreases data.len(),
{
    if data.len() > 0 {
        lemma_all_continue_decode_none(data.drop_first());
    }
}

/// Decoding exactly `n` values in sequence, each decode consuming the prefix
/// of the input that the previous one left over. `None` as soon as any of
/// the `n` single decodes fails.
pub open spec fn decode_n(data: Seq<u8>, n: nat) -> Option<(Seq<u64>, Seq<u8>)>
    decreases n,
{
    if n == 0 {
        Some((Seq::empty(), data))
    } else {
        match decode_one(data) {
            None => None,
            Some((v, rest)) => match decode_n(rest, (n - 1) as nat) {
                None => None,
                Some(p) => Some((seq![v] + p.0, p.1)),
            },
        }
    }
}

/// Decoding values until the input is exhausted. The empty input yields the
/// empty batch; `None` when a single decode fails before the end is reached.
pub open spec fn decode_list(data: Seq<u8>) -> Option<Seq<u64>>
    decreases data.len() via decode_list_decreases
{
    if data.len() == 0 {
        Some(Seq::empty())
    } else {
        match decode_one(data) {
            None => None,
            Some((v, rest)) => match decode_list(rest) {
                None => None,
                Some(vs) => Some(seq![v] + vs),
            },
        }
    }
}

#[via_fn]
proof fn decode_list_decreases(data: Seq<u8>) {
    lemma_decode_one_shrinks(data);
}

/// The number of bits needed to write `v` in binary; zero for the value zero.
pub open spec fn bit_length(v: u64) -> nat
    decreases v,
{
    if v == 0 {
        0
    } else {
        proof {
            assert(v > 0 ==> (v >> 1) < v) by (bit_vector);
        }
        1 + bit_length(v >> 1)
    }
}

} // verus!
