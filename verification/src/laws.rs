//! The laws of the wire format, proved once and for all over the model.
//!
//! Each lemma here states a property of the format for every input: the
//! round trip of a single value, the round trip of a batch, the minimality
//! of the encoding length, the preservation of trailing data, and the
//! failure of decoding on every truncated encoding.

use vstd::arithmetic::power2::lemma2_to64;
use vstd::arithmetic::power2::pow2;
use vstd::math::max;
use vstd::prelude::*;

use crate::model::bit_length;
use crate::model::continues;
use crate::model::decode_list;
use crate::model::decode_one;
use crate::model::encode;
use crate::model::encode_list;
use crate::model::lemma_all_continue_decode_none;

verus! {

/// Trailing data is preserved: decoding a canonical encoding of `v`
/// followed by any extra bytes yields `v` and exactly those extra bytes.
pub proof fn lemma_decode_encode_with_tail(v: u64, tail: Seq<u8>)
    ensures
        decode_one(encode(v) + tail) == Some((v, tail)),
    decreases v,
{
    let data = encode(v) + tail;
    if v < 128 {
        assert(v < 128 ==> (v as u8) & 0x80 == 0) by (bit_vector);
        assert(v < 128 ==> ((v as u8) & 0x7f) as u64 == v) by (bit_vector);
        assert(data.drop_first() =~= tail);
    } else {
        assert(v >= 128 ==> (v >> 7) < v) by (bit_vector);
        lemma_decode_encode_with_tail(v >> 7, tail);
        assert(data.drop_first() =~= encode(v >> 7) + tail);
        assert((((v & 0x7f) | 0x80) as u8) & 0x80 != 0) by (bit_vector);
        assert(((((v & 0x7f) | 0x80) as u8) & 0x7f) as u64 == v & 0x7f) by (bit_vector);
        assert((v & 0x7f) | ((v >> 7) << 7) == v) by (bit_vector);
    }
}

/// The round-trip law: decoding the canonical encoding of any value yields
/// that value back and leaves nothing over.
pub proof fn lemma_round_trip(v: u64)
    ensures
        decode_one(encode(v)) == Some((v, Seq::<u8>::empty())),
{
    lemma_decode_encode_with_tail(v, Seq::empty());
    assert(encode(v) + Seq::<u8>::empty() =~= encode(v));
}

/// The batch round-trip law: decoding a concatenation of canonical
/// encodings until the input is exhausted yields the encoded values, in
/// order.
pub proof fn lemma_batch_round_trip(vs: Seq<u64>)
    ensures
        decode_list(encode_list(vs)) == Some(vs),
    decreases vs.len(),
{
    if vs.len() == 0 {
        assert(vs =~= Seq::<u64>::empty());
    } else {
        let head = vs[0];
        let rest = vs.drop_first();
        lemma_decode_encode_with_tail(head, encode_list(rest));
        lemma_batch_round_trip(rest);
        assert(encode(head).len() >= 1);
        assert(seq![head] + rest =~= vs);
    }
}

/// Every byte of a canonical encoding except the last carries the
/// continuation bit.
proof fn lemma_encode_inner_bytes_continue(v: u64)
    ensures
        forall|k: int| 0 <= k < encode(v).len() - 1 ==> continues(#[trigger] encode(v)[k]),
    decreases v,
{
    if v >= 128 {
        assert(v >= 128 ==> (v >> 7) < v) by (bit_vector);
        lemma_encode_inner_bytes_continue(v >> 7);
        assert((((v & 0x7f) | 0x80) as u8) & 0x80 != 0) by (bit_vector);
        assert forall|k: int| 0 <= k < encode(v).len() - 1 implies continues(
            #[trigger] encode(v)[k],
        ) by {
            if k > 0 {
                assert(encode(v)[k] == encode(v >> 7)[k - 1]);
            }
        }
    }
}

/// Failure on truncation: no proper prefix of a canonical encoding decodes;
/// in particular the empty input never decodes.
pub proof fn lemma_truncated_decode_fails(v: u64, n: int)
    requires
        0 <= n < encode(v).len(),
    ensures
        decode_one(encode(v).take(n)) is None,
{
    lemma_encode_inner_bytes_continue(v);
    let prefix = encode(v).take(n);
    assert forall|k: int| 0 <= k < prefix.len() implies continues(prefix[k]) by {
        assert(prefix[k] == encode(v)[k]);
    }
    lemma_all_continue_decode_none(prefix);
}

/// `bit_length` of any value below `pow2(k)` is at most `k`.
proof fn lemma_bit_length_bound(v: u64, k: nat)
    requires
        v < pow2(k),
    ensures
        bit_length(v) <= k,
    decreases k,
{
    if v > 0 {
        assert(pow2(0) == 1) by {
            lemma2_to64();
        }
        assert(k > 0);
        assert(pow2(k) == 2 * pow2((k - 1) as nat)) by {
            vstd::arithmetic::power2::lemma_pow2_unfold(k);
        }
        assert(v >> 1 == v / 2) by (bit_vector);
        assert(v / 2 < pow2((k - 1) as nat)) by (nonlinear_arith)
            requires
                v < 2 * pow2((k - 1) as nat),
        ;
        lemma_bit_length_bound(v >> 1, (k - 1) as nat);
    }
}

/// Shifting seven bits off a value of at least one full group removes
/// exactly seven bits of its length.
proof fn lemma_bit_length_shift7(v: u64)
    requires
        v >= 128,
    ensures
        bit_length(v) == 7 + bit_length(v >> 7),
{
    assert(v >= 128 ==> v > 0 && v >> 1 > 0 && v >> 2 > 0 && v >> 3 > 0 && v >> 4 > 0 && v >> 5
        > 0 && v >> 6 > 0) by (bit_vector);
    assert(v >= 128 ==> (v >> 1) >> 1 == v >> 2 && (v >> 2) >> 1 == v >> 3 && (v >> 3) >> 1 == v
        >> 4 && (v >> 4) >> 1 == v >> 5 && (v >> 5) >> 1 == v >> 6 && (v >> 6) >> 1 == v
        >> 7) by (bit_vector);
    assert(bit_length(v) == 1 + bit_length(v >> 1));
    assert(bit_length(v >> 1) == 1 + bit_length((v >> 1) >> 1));
    assert(bit_length(v >> 2) == 1 + bit_length((v >> 2) >> 1));
    assert(bit_length(v >> 3) == 1 + bit_length((v >> 3) >> 1));
    assert(bit_length(v >> 4) == 1 + bit_length((v >> 4) >> 1));
    assert(bit_length(v >> 5) == 1 + bit_length((v >> 5) >> 1));
    assert(bit_length(v >> 6) == 1 + bit_length((v >> 6) >> 1));
}

/// Minimality: the canonical encoding of `v` is exactly
/// `max(1, ceil(bit_length(v) / 7))` bytes long — no padding groups are
/// ever emitted, and the value zero still takes its one byte.
pub proof fn lemma_minimal_length(v: u64)
    ensures
        encode(v).len() == max(1, (bit_length(v) + 6) as int / 7),
    decreases v,
{
    if v < 128 {
        if v > 0 {
            assert(bit_length(v) >= 1);
            assert(pow2(7) == 128) by {
                lemma2_to64();
            }
            lemma_bit_length_bound(v, 7);
        }
    } else {
        assert(v >= 128 ==> (v >> 7) < v) by (bit_vector);
        assert(v >= 128 ==> v >> 7 > 0) by (bit_vector);
        lemma_minimal_length(v >> 7);
        lemma_bit_length_shift7(v);
        assert(bit_length(v >> 7) >= 1);
        let b = bit_length(v >> 7) as int;
        assert((b + 7 + 6) / 7 == (b + 6) / 7 + 1) by (nonlinear_arith)
            requires
                b >= 0,
        ;
        assert((b + 6) / 7 >= 1) by (nonlinear_arith)
            requires
                b >= 1,
        ;
    }
}

/// A canonical encoding is never empty and never longer than ten bytes:
/// ten 7-bit groups cover all 64 bits of the largest value.
pub proof fn lemma_encode_length_range(v: u64)
    ensures
        1 <= encode(v).len() <= 10,
{
    lemma_minimal_length(v);
    assert(pow2(64) > u64::MAX) by {
        lemma2_to64();
    }
    lemma_bit_length_bound(v, 64);
}

} // verus!
