//! The executable codec, verified against the model in [`crate::model`].

use vstd::prelude::*;

use crate::model::continues;
use crate::model::decode_list;
use crate::model::decode_n;
use crate::model::decode_one;
use crate::model::encode;
use crate::model::encode_list;
use crate::model::group_bits;
use crate::model::lemma_all_continue_decode_none;
use crate::model::lemma_decode_one_shrinks;

verus! {

/// The one way a decode operation can fail: the input ended before a byte
/// with a clear continuation bit completed the value being read.
#[derive(Debug, PartialEq, Eq, Structural)]
pub enum Error {
    UnexpectedEndOfInput,
}

impl Error {
    /// The human-readable description of the error.
    pub fn message(&self) -> (r: String)
        ensures
            r@ == "End of input reached"@,
    {
        "End of input reached".to_owned()
    }
}

/// Encodes `val` as its canonical variable-length byte sequence.
pub fn compress(val: u64) -> (r: Vec<u8>)
    ensures
        r@ == encode(val),
{
    let mut v: Vec<u8> = Vec::new();
    if val == 0 {
        v.push(0u8);
        proof {
            assert(v@ =~= encode(0u64));
        }
        return v;
    }
    let mut cur: u64 = val;
    proof {
        assert(Seq::<u8>::empty() + encode(val) =~= encode(val));
    }
    while cur > 0
        invariant
            cur > 0 ==> v@ + encode(cur) == encode(val),
            cur == 0 ==> v@ == encode(val),
        decreases cur,
    {
        let ghost v0: Seq<u8> = v@;
        let low: u8 = (cur & 0x7f) as u8;
        let next: u64 = cur >> 7;
        let byte: u8 = if next > 0 {
            low | 0x80
        } else {
            low
        };
        v.push(byte);
        proof {
            assert(v@ =~= v0 + seq![byte]);
            if next > 0 {
                assert(cur >> 7 > 0 ==> cur >= 128) by (bit_vector);
                assert(((cur & 0x7f) as u8) | 0x80 == ((cur & 0x7f) | 0x80) as u8) by (bit_vector);
                assert(encode(cur) == seq![byte] + encode(next));
                assert((v0 + seq![byte]) + encode(next) =~= v0 + (seq![byte] + encode(next)));
                assert(cur > 0 ==> (cur >> 7) < cur) by (bit_vector);
            } else {
                assert(cur >> 7 == 0 ==> cur < 128) by (bit_vector);
                assert(cur < 128 ==> (cur & 0x7f) as u8 == cur as u8) by (bit_vector);
                assert(encode(cur) == seq![byte]);
            }
        }
        cur = next;
    }
    v
}

/// Encodes every value of `vs`, in order, into one concatenated byte
/// sequence with no separators.
pub fn compress_list(vs: &[u64]) -> (r: Vec<u8>)
    ensures
        r@ == encode_list(vs@),
{
    let mut buffer: Vec<u8> = Vec::new();
    let mut i: usize = 0;
    proof {
        assert(vs@.skip(0) =~= vs@);
        assert(Seq::<u8>::empty() + encode_list(vs@) =~= encode_list(vs@));
    }
    while i < vs.len()
        invariant
            i <= vs@.len(),
            buffer@ + encode_list(vs@.skip(i as int)) == encode_list(vs@),
        decreases vs@.len() - i,
    {
        let ghost b0: Seq<u8> = buffer@;
        let mut c = compress(vs[i]);
        buffer.append(&mut c);
        proof {
            assert(vs@.skip(i as int).drop_first() =~= vs@.skip(i as int + 1));
            assert(encode_list(vs@.skip(i as int))
                == encode(vs@[i as int]) + encode_list(vs@.skip(i as int + 1)));
            assert((b0 + encode(vs@[i as int])) + encode_list(vs@.skip(i as int + 1))
                =~= b0 + (encode(vs@[i as int]) + encode_list(vs@.skip(i as int + 1))));
        }
        i = i + 1;
    }
    proof {
        assert(vs@.skip(vs@.len() as int) =~= Seq::<u64>::empty());
        assert(buffer@ + Seq::<u8>::empty() =~= buffer@);
    }
    buffer
}

/// The index of the first byte whose continuation bit is clear: the byte
/// that ends the first encoded value. `None` when every byte claims that
/// more follow.
fn find_end(data: &[u8]) -> (r: Option<usize>)
    ensures
        match r {
            Some(j) => j < data@.len() && !continues(data@[j as int]) && forall|k: int|
                0 <= k < j ==> continues(data@[k]),
            None => forall|k: int| 0 <= k < data@.len() ==> continues(data@[k]),
        },
{
    let mut j: usize = 0;
    while j < data.len()
        invariant
            j <= data@.len(),
            forall|k: int| 0 <= k < j ==> continues(data@[k]),
        decreases data@.len() - j,
    {
        if data[j] & 0x80 == 0 {
            return Some(j);
        }
        j = j + 1;
    }
    None
}

/// Decodes one value from the front of `data` and returns it together with
/// the unconsumed suffix. Fails exactly when the input ends before a byte
/// with a clear continuation bit: then no prefix of `data` is a complete
/// encoding.
pub fn decompress(data: &[u8]) -> (r: Result<(u64, &[u8]), Error>)
    ensures
        match r {
            Ok(p) => decode_one(data@) == Some((p.0, p.1@)),
            Err(e) => decode_one(data@) is None && e == Error::UnexpectedEndOfInput,
        },
{
    let j: usize = match find_end(data) {
        Some(j) => j,
        None => {
            proof {
                lemma_all_continue_decode_none(data@);
            }
            return Err(Error::UnexpectedEndOfInput);
        },
    };
    let mut val: u64 = (data[j] & 0x7f) as u64;
    proof {
        assert(data@.skip(j as int).drop_first() =~= data@.skip(j as int + 1));
        assert(decode_one(data@.skip(j as int))
            == Some((group_bits(data@[j as int]), data@.skip(j as int + 1))));
    }
    let mut i: usize = j;
    while i > 0
        invariant
            i <= j < data@.len(),
            !continues(data@[j as int]),
            forall|k: int| 0 <= k < j ==> continues(data@[k]),
            decode_one(data@.skip(i as int)) == Some((val, data@.skip(j as int + 1))),
        decreases i,
    {
        i = i - 1;
        let ghost prev: u64 = val;
        val = ((data[i] & 0x7f) as u64) | (val << 7);
        proof {
            assert(data@.skip(i as int).drop_first() =~= data@.skip(i as int + 1));
            assert(val == group_bits(data@[i as int]) | (prev << 7));
        }
    }
    proof {
        assert(data@.skip(0) =~= data@);
    }
    let rest: &[u8] = vstd::slice::slice_subrange(data, j + 1, data.len());
    Ok((val, rest))
}

/// Decodes exactly `N` values in sequence, threading the suffix that each
/// decode leaves over into the next one, and returns them together with the
/// final unconsumed suffix. Fails as soon as any of the `N` decodes fails.
pub fn decompress_n<const N: usize>(data: &[u8]) -> (r: Result<([u64; N], &[u8]), Error>)
    ensures
        match r {
            Ok(p) => decode_n(data@, N as nat) == Some((p.0@, p.1@)),
            Err(e) => decode_n(data@, N as nat) is None && e == Error::UnexpectedEndOfInput,
        },
{
    let mut out: [u64; N] = [0u64; N];
    let mut cur: &[u8] = data;
    let mut i: usize = 0;
    proof {
        match decode_n(data@, N as nat) {
            Some(p) => {
                assert(Seq::<u64>::empty() + p.0 =~= p.0);
                assert(out@.take(0) =~= Seq::<u64>::empty());
            },
            None => {},
        }
    }
    while i < N
        invariant
            i <= N,
            out@.len() == N,
            match decode_n(cur@, (N - i) as nat) {
                Some(p) => decode_n(data@, N as nat) == Some((out@.take(i as int) + p.0, p.1)),
                None => decode_n(data@, N as nat) is None,
            },
        decreases N - i,
    {
        let ghost cur0: Seq<u8> = cur@;
        let ghost out0: Seq<u64> = out@;
        let ghost i0: int = i as int;
        match decompress(cur) {
            Ok(p) => {
                let (v, rest) = p;
                out[i] = v;
                cur = rest;
                i = i + 1;
                proof {
                    assert(out@.take(i as int) =~= out0.take(i0) + seq![v]);
                    match decode_n(cur@, (N - i) as nat) {
                        Some(q) => {
                            assert(decode_n(cur0, (N - i0) as nat)
                                == Some((seq![v] + q.0, q.1)));
                            assert((out0.take(i0) + seq![v]) + q.0
                                =~= out0.take(i0) + (seq![v] + q.0));
                        },
                        None => {},
                    }
                }
            },
            Err(e) => {
                return Err(e);
            },
        }
    }
    proof {
        assert(out@.take(N as int) =~= out@);
        match decode_n(cur@, 0) {
            Some(p) => {
                assert(out@ + p.0 =~= out@);
            },
            None => {},
        }
    }
    Ok((out, cur))
}

/// Decodes values from `data` until it is exhausted, returning them in
/// order. The empty input yields the empty batch; the operation fails as
/// soon as one decode fails before the end of the input is reached.
pub fn decompress_list(data: &[u8]) -> (r: Result<Vec<u64>, Error>)
    ensures
        match r {
            Ok(vals) => decode_list(data@) == Some(vals@),
            Err(e) => decode_list(data@) is None && e == Error::UnexpectedEndOfInput,
        },
{
    let mut out: Vec<u64> = Vec::new();
    let mut cur: &[u8] = data;
    proof {
        match decode_list(data@) {
            Some(vs) => {
                assert(Seq::<u64>::empty() + vs =~= vs);
            },
            None => {},
        }
    }
    while cur.len() > 0
        invariant
            match decode_list(cur@) {
                Some(vs) => decode_list(data@) == Some(out@ + vs),
                None => decode_list(data@) is None,
            },
        decreases cur@.len(),
    {
        let ghost cur0: Seq<u8> = cur@;
        let ghost out0: Seq<u64> = out@;
        match decompress(cur) {
            Ok(p) => {
                let (v, rest) = p;
                out.push(v);
                cur = rest;
                proof {
                    lemma_decode_one_shrinks(cur0);
                    match decode_list(cur@) {
                        Some(vs) => {
                            assert(decode_list(cur0) == Some(seq![v] + vs));
                            assert(out@ =~= out0 + seq![v]);
                            assert((out0 + seq![v]) + vs =~= out0 + (seq![v] + vs));
                        },
                        None => {},
                    }
                }
            },
            Err(e) => {
                return Err(e);
            },
        }
    }
    proof {
        match decode_list(cur@) {
            Some(vs) => {
                assert(out@ + vs =~= out@);
            },
            None => {},
        }
    }
    Ok(out)
}

} // verus!
