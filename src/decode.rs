//! Decoding: padding removal, whole groups of four symbols, the final
//! partial group, and the functions that combine them.
use crate::configs::SealedConfig;
use crate::model::{
    decode_spec, decode_unpadded, decode_value, decoded_byte, decoded_len, first_index, group_byte,
    invalid_at, is_valid_symbol, lemma_first_index, lemma_first_index_spec,
    strip_padding, DecodeError, INVALID_VALUE,
};
use vstd::prelude::*;

verus! {

/// The bytes of a successful decoding, or the error.
pub open spec fn vec_result_view(r: Result<Vec<u8>, DecodeError>) -> Result<Seq<u8>, DecodeError> {
    match r {
        Ok(v) => Ok(v@),
        Err(e) => Err(e),
    }
}

/// The bytes of a successful decoding, or the error.
pub open spec fn slice_result_view(r: Result<&[u8], DecodeError>) -> Result<Seq<u8>, DecodeError> {
    match r {
        Ok(v) => Ok(v@),
        Err(e) => Err(e),
    }
}

proof fn lemma_join_bits(v0: u8, v1: u8, v2: u8, v3: u8)
    requires
        v0 < 64,
        v1 < 64,
        v2 < 64,
        v3 < 64,
    ensures
        ((v0 << 2u8) | (v1 >> 4u8)) == v0 * 4 + v1 / 16,
        ((v1 << 4u8) | (v2 >> 2u8)) == (v1 % 16) * 16 + v2 / 4,
        ((v2 << 6u8) | v3) == (v2 % 4) * 64 + v3,
{
    assert(((v0 << 2u8) | (v1 >> 4u8)) == v0 * 4 + v1 / 16) by (bit_vector)
        requires
            v0 < 64,
            v1 < 64,
    ;
    assert(((v1 << 4u8) | (v2 >> 2u8)) == (v1 % 16) * 16 + v2 / 4) by (bit_vector)
        requires
            v1 < 64,
            v2 < 64,
    ;
    assert(((v2 << 6u8) | v3) == (v2 % 4) * 64 + v3) by (bit_vector)
        requires
            v2 < 64,
            v3 < 64,
    ;
}

/// A symbol that decodes to something other than `INVALID_VALUE` decodes to
/// a six-bit value.
pub proof fn lemma_valid_symbol_value(alpha: Seq<u8>, b: u8)
    requires
        is_valid_symbol(alpha, b),
    ensures
        decode_value(alpha, b) < 64,
{
}

/// Decodes the four symbols `input[i..i + 4]` into `output[o..o + 3]`, or
/// returns the first of them that is not in the alphabet.
pub fn decode_chunk<C: SealedConfig>(config: C, input: &[u8], i: usize, output: &mut [u8], o: usize) -> (r: Result<(), u8>)
    requires
        i + 4 <= input@.len(),
        o + 3 <= old(output)@.len(),
    ensures
        final(output)@.len() == old(output)@.len(),
        forall|k: int| 0 <= k < old(output)@.len() && !(o <= k < o + 3) ==> final(output)@[k] == old(output)@[k],
        match r {
            Ok(()) => {
                &&& forall|k: int| 0 <= k < 4 ==> is_valid_symbol(config.alphabet(), #[trigger] input@[i + k])
                &&& forall|k: int| 0 <= k < 3 ==> #[trigger] final(output)@[o + k] == group_byte(
                    decode_value(config.alphabet(), input@[i as int]) as int,
                    decode_value(config.alphabet(), input@[i + 1]) as int,
                    decode_value(config.alphabet(), input@[i + 2]) as int,
                    decode_value(config.alphabet(), input@[i + 3]) as int,
                    k,
                )
            },
            Err(b) => exists|k: int|
                0 <= k < 4 && #[trigger] input@[i + k] == b && !is_valid_symbol(config.alphabet(), b)
                    && forall|m: int| 0 <= m < k ==> is_valid_symbol(config.alphabet(), #[trigger] input@[i + m]),
        },
{
    let ghost alpha = config.alphabet();
    let a = input[i];
    let v0 = config.decode_u8(a);
    if v0 == INVALID_VALUE {
        proof {
            assert(input@[i + 0] == a);
        }
        return Err(a);
    }
    let b = input[i + 1];
    let v1 = config.decode_u8(b);
    if v1 == INVALID_VALUE {
        proof {
            assert(input@[i + 0] == a);
            assert(input@[i + 1] == b);
        }
        return Err(b);
    }
    let c = input[i + 2];
    let v2 = config.decode_u8(c);
    if v2 == INVALID_VALUE {
        proof {
            assert(input@[i + 0] == a);
            assert(input@[i + 1] == b);
            assert(input@[i + 2] == c);
        }
        return Err(c);
    }
    let d = input[i + 3];
    let v3 = config.decode_u8(d);
    if v3 == INVALID_VALUE {
        proof {
            assert(input@[i + 0] == a);
            assert(input@[i + 1] == b);
            assert(input@[i + 2] == c);
            assert(input@[i + 3] == d);
        }
        return Err(d);
    }
    proof {
        lemma_valid_symbol_value(alpha, a);
        lemma_valid_symbol_value(alpha, b);
        lemma_valid_symbol_value(alpha, c);
        lemma_valid_symbol_value(alpha, d);
        lemma_join_bits(v0, v1, v2, v3);
        assert(input@[i + 0] == a);
    }
    output[o] = (v0 << 2) | (v1 >> 4);
    output[o + 1] = (v1 << 4) | (v2 >> 2);
    output[o + 2] = (v2 << 6) | v3;
    Ok(())
}

proof fn lemma_word_bytes(v0: u8, v1: u8, v2: u8, v3: u8, v4: u8, v5: u8, v6: u8, v7: u8, w: u64)
    requires
        v0 < 64, v1 < 64, v2 < 64, v3 < 64, v4 < 64, v5 < 64, v6 < 64, v7 < 64,
        w == ((v0 as u64) << 42u64) | ((v1 as u64) << 36u64) | ((v2 as u64) << 30u64) | ((v3 as u64) << 24u64) | ((v4 as u64) << 18u64) | ((v5 as u64) << 12u64) | ((v6 as u64) << 6u64) | (v7 as u64),
    ensures
        (w >> 40u64) & 255 == v0 * 4 + v1 / 16,
        (w >> 32u64) & 255 == (v1 % 16) * 16 + v2 / 4,
        (w >> 24u64) & 255 == (v2 % 4) * 64 + v3,
        (w >> 16u64) & 255 == v4 * 4 + v5 / 16,
        (w >> 8u64) & 255 == (v5 % 16) * 16 + v6 / 4,
        w & 255 == (v6 % 4) * 64 + v7,
{
    assert((w >> 40u64) & 255 == v0 * 4 + v1 / 16) by (bit_vector)
        requires v0 < 64, v1 < 64, v2 < 64, v3 < 64, v4 < 64, v5 < 64, v6 < 64, v7 < 64,
            w == ((v0 as u64) << 42u64) | ((v1 as u64) << 36u64) | ((v2 as u64) << 30u64) | ((v3 as u64) << 24u64) | ((v4 as u64) << 18u64) | ((v5 as u64) << 12u64) | ((v6 as u64) << 6u64) | (v7 as u64);
    assert((w >> 32u64) & 255 == (v1 % 16) * 16 + v2 / 4) by (bit_vector)
        requires v0 < 64, v1 < 64, v2 < 64, v3 < 64, v4 < 64, v5 < 64, v6 < 64, v7 < 64,
            w == ((v0 as u64) << 42u64) | ((v1 as u64) << 36u64) | ((v2 as u64) << 30u64) | ((v3 as u64) << 24u64) | ((v4 as u64) << 18u64) | ((v5 as u64) << 12u64) | ((v6 as u64) << 6u64) | (v7 as u64);
    assert((w >> 24u64) & 255 == (v2 % 4) * 64 + v3) by (bit_vector)
        requires v0 < 64, v1 < 64, v2 < 64, v3 < 64, v4 < 64, v5 < 64, v6 < 64, v7 < 64,
            w == ((v0 as u64) << 42u64) | ((v1 as u64) << 36u64) | ((v2 as u64) << 30u64) | ((v3 as u64) << 24u64) | ((v4 as u64) << 18u64) | ((v5 as u64) << 12u64) | ((v6 as u64) << 6u64) | (v7 as u64);
    assert((w >> 16u64) & 255 == v4 * 4 + v5 / 16) by (bit_vector)
        requires v0 < 64, v1 < 64, v2 < 64, v3 < 64, v4 < 64, v5 < 64, v6 < 64, v7 < 64,
            w == ((v0 as u64) << 42u64) | ((v1 as u64) << 36u64) | ((v2 as u64) << 30u64) | ((v3 as u64) << 24u64) | ((v4 as u64) << 18u64) | ((v5 as u64) << 12u64) | ((v6 as u64) << 6u64) | (v7 as u64);
    assert((w >> 8u64) & 255 == (v5 % 16) * 16 + v6 / 4) by (bit_vector)
        requires v0 < 64, v1 < 64, v2 < 64, v3 < 64, v4 < 64, v5 < 64, v6 < 64, v7 < 64,
            w == ((v0 as u64) << 42u64) | ((v1 as u64) << 36u64) | ((v2 as u64) << 30u64) | ((v3 as u64) << 24u64) | ((v4 as u64) << 18u64) | ((v5 as u64) << 12u64) | ((v6 as u64) << 6u64) | (v7 as u64);
    assert(w & 255 == (v6 % 4) * 64 + v7) by (bit_vector)
        requires v0 < 64, v1 < 64, v2 < 64, v3 < 64, v4 < 64, v5 < 64, v6 < 64, v7 < 64,
            w == ((v0 as u64) << 42u64) | ((v1 as u64) << 36u64) | ((v2 as u64) << 30u64) | ((v3 as u64) << 24u64) | ((v4 as u64) << 18u64) | ((v5 as u64) << 12u64) | ((v6 as u64) << 6u64) | (v7 as u64);
}

/// Decodes the eight symbols `input[i..i + 8]` into `output[o..o + 6]`
/// through a single 48-bit word, or returns the first of them that is not
/// in the alphabet.
fn decode_word<C: SealedConfig>(config: C, input: &[u8], i: usize, output: &mut [u8], o: usize) -> (r: Result<(), u8>)
    requires
        i + 8 <= input@.len(),
        o + 6 <= old(output)@.len(),
    ensures
        final(output)@.len() == old(output)@.len(),
        forall|k: int| 0 <= k < old(output)@.len() && !(o <= k < o + 6) ==> final(output)@[k] == old(output)@[k],
        match r {
            Ok(()) => {
                &&& forall|k: int| 0 <= k < 8 ==> is_valid_symbol(config.alphabet(), #[trigger] input@[i + k])
                &&& forall|k: int| 0 <= k < 3 ==> #[trigger] final(output)@[o + k] == group_byte(
                    decode_value(config.alphabet(), input@[i as int]) as int,
                    decode_value(config.alphabet(), input@[i + 1]) as int,
                    decode_value(config.alphabet(), input@[i + 2]) as int,
                    decode_value(config.alphabet(), input@[i + 3]) as int,
                    k,
                )
                &&& forall|k: int| 0 <= k < 3 ==> #[trigger] final(output)@[o + 3 + k] == group_byte(
                    decode_value(config.alphabet(), input@[i + 4]) as int,
                    decode_value(config.alphabet(), input@[i + 5]) as int,
                    decode_value(config.alphabet(), input@[i + 6]) as int,
                    decode_value(config.alphabet(), input@[i + 7]) as int,
                    k,
                )
            },
            Err(b) => exists|k: int|
                0 <= k < 8 && #[trigger] input@[i + k] == b && !is_valid_symbol(config.alphabet(), b)
                    && forall|m: int| 0 <= m < k ==> is_valid_symbol(config.alphabet(), #[trigger] input@[i + m]),
        },
{
    let ghost alpha = config.alphabet();
    let mut vals: [u8; 8] = [0u8; 8];
    let mut k: usize = 0;
    proof {
        assert(input@.len() == input.len());
    }
    while k < 8
        invariant
            i + 8 <= input@.len(),
            input@.len() <= usize::MAX,
            alpha == config.alphabet(),
            k <= 8,
            forall|m: int| 0 <= m < k ==> is_valid_symbol(alpha, #[trigger] input@[i + m]),
            forall|m: int| 0 <= m < k ==> #[trigger] vals@[m] == decode_value(alpha, input@[i + m]),
            forall|m: int| 0 <= m < k ==> #[trigger] vals@[m] < 64,
            output@ == old(output)@,
        decreases 8 - k,
    {
        let b = input[i + k];
        let v = config.decode_u8(b);
        if v == INVALID_VALUE {
            return Err(b);
        }
        proof {
            lemma_valid_symbol_value(alpha, b);
        }
        vals[k] = v;
        k = k + 1;
    }
    let w: u64 = ((vals[0] as u64) << 42u64) | ((vals[1] as u64) << 36u64) | ((vals[2] as u64) << 30u64) | ((vals[3] as u64) << 24u64) | ((vals[4] as u64) << 18u64) | ((vals[5] as u64) << 12u64) | ((vals[6] as u64) << 6u64) | (vals[7] as u64);
    proof {
        assert(vals@[0] < 64 && vals@[1] < 64 && vals@[2] < 64 && vals@[3] < 64);
        assert(vals@[4] < 64 && vals@[5] < 64 && vals@[6] < 64 && vals@[7] < 64);
        lemma_word_bytes(vals@[0], vals@[1], vals@[2], vals@[3], vals@[4], vals@[5], vals@[6], vals@[7], w);
        assert(input@[i + 0] == input@[i as int]);
        assert(vals@[0] == decode_value(alpha, input@[i + 0]));
        assert(vals@[1] == decode_value(alpha, input@[i + 1]));
        assert(vals@[2] == decode_value(alpha, input@[i + 2]));
        assert(vals@[3] == decode_value(alpha, input@[i + 3]));
        assert(vals@[4] == decode_value(alpha, input@[i + 4]));
        assert(vals@[5] == decode_value(alpha, input@[i + 5]));
        assert(vals@[6] == decode_value(alpha, input@[i + 6]));
        assert(vals@[7] == decode_value(alpha, input@[i + 7]));
    }
    output[o] = ((w >> 40u64) & 255) as u8;
    output[o + 1] = ((w >> 32u64) & 255) as u8;
    output[o + 2] = ((w >> 24u64) & 255) as u8;
    output[o + 3] = ((w >> 16u64) & 255) as u8;
    output[o + 4] = ((w >> 8u64) & 255) as u8;
    output[o + 5] = (w & 255) as u8;
    Ok(())
}

/// Number of whole groups of four symbols among `n_in` whose decoding fits
/// in `n_out` bytes.
pub open spec fn groups_that_fit(n_in: int, n_out: int) -> int {
    if n_in / 4 <= n_out / 3 {
        n_in / 4
    } else {
        n_out / 3
    }
}

/// Decodes blocks of 32 symbols into blocks of 24 bytes, four 48-bit words
/// per block, for as many blocks as `input` holds and `output[out_start..]`
/// has room for. The bytes, and on failure the byte reported, are those of
/// the group-by-group decoding.
pub fn decode_blocks<C: SealedConfig>(
    config: C,
    input: &[u8],
    output: &mut [u8],
    out_start: usize,
) -> (r: Result<(usize, usize), DecodeError>)
    requires
        out_start <= old(output)@.len(),
    ensures
        final(output)@.len() == old(output)@.len(),
        match r {
            Ok((a, b)) => {
                &&& a as int == 4 * (b as int / 3)
                &&& b % 24 == 0
                &&& a <= input@.len()
                &&& out_start + b <= old(output)@.len()
                &&& input@.len() - a < 32 || old(output)@.len() - out_start - b < 24
                &&& forall|j: int| 0 <= j < a ==> !#[trigger] invalid_at(config.alphabet(), input@)(j)
                &&& forall|k: int| 0 <= k < old(output)@.len() && !(out_start <= k < out_start + b) ==> final(output)@[k] == old(output)@[k]
                &&& forall|j: int| 0 <= j < b ==> #[trigger] final(output)@[out_start + j] == decoded_byte(config.alphabet(), input@, j)
            },
            Err(e) => exists|f: int|
                0 <= f < 4 * groups_that_fit(input@.len() as int, old(output)@.len() - out_start)
                    && e == DecodeError::InvalidByte(input@[f])
                    && invalid_at(config.alphabet(), input@)(f)
                    && forall|j: int| 0 <= j < f ==> !#[trigger] invalid_at(config.alphabet(), input@)(j),
        },
{
    let ghost alpha = config.alphabet();
    proof {
        assert(output@.len() == output.len());
    }
    let mut i: usize = 0;
    let mut o: usize = out_start;
    while input.len() - i >= 32 && output.len() - o >= 24
        invariant
            alpha == config.alphabet(),
            output@.len() == old(output)@.len(),
            output@.len() <= usize::MAX,
            out_start <= o <= output@.len(),
            (o - out_start) % 24 == 0,
            i as int == 4 * ((o - out_start) / 3),
            i <= input@.len(),
            forall|k: int| 0 <= k < old(output)@.len() && !(out_start <= k < o) ==> output@[k] == old(output)@[k],
            forall|j: int| 0 <= j < o - out_start ==> #[trigger] output@[out_start + j] == decoded_byte(alpha, input@, j),
            forall|j: int| 0 <= j < i ==> !#[trigger] invalid_at(alpha, input@)(j),
        decreases input@.len() - i,
    {
        let ghost q = (o - out_start) / 3;
        let mut s: usize = 0;
        while s < 4
            invariant
                alpha == config.alphabet(),
                output@.len() == old(output)@.len(),
                output@.len() <= usize::MAX,
                input@.len() - i >= 32,
                output@.len() - o >= 24,
                out_start <= o,
                o - out_start == 3 * q,
                i == 4 * q,
                q % 8 == 0,
                i + 32 <= 4 * groups_that_fit(input@.len() as int, old(output)@.len() - out_start),
                s <= 4,
                forall|k: int| 0 <= k < old(output)@.len() && !(out_start <= k < o + 6 * s) ==> output@[k] == old(output)@[k],
                forall|j: int| 0 <= j < o + 6 * s - out_start ==> #[trigger] output@[out_start + j] == decoded_byte(alpha, input@, j),
                forall|j: int| 0 <= j < i + 8 * s ==> !#[trigger] invalid_at(alpha, input@)(j),
            decreases 4 - s,
        {
            let ghost before = output@;
            let ii = i + 8 * s;
            let oo = o + 6 * s;
            match decode_word(config, input, ii, output, oo) {
                Ok(()) => {},
                Err(b) => {
                    proof {
                        let k = choose|k: int|
                            0 <= k < 8 && #[trigger] input@[ii + k] == b && !is_valid_symbol(alpha, b)
                                && forall|m: int| 0 <= m < k ==> is_valid_symbol(alpha, #[trigger] input@[ii + m]);
                        assert forall|j: int| 0 <= j < ii + k implies !#[trigger] invalid_at(alpha, input@)(j) by {
                            if j >= ii {
                                assert(is_valid_symbol(alpha, input@[ii + (j - ii)]));
                            }
                        }
                        assert(invalid_at(alpha, input@)(ii + k));
                    }
                    return Err(DecodeError::InvalidByte(b));
                },
            }
            proof {
                let g = q + 2 * s;
                assert(ii == 4 * g && oo - out_start == 3 * g);
                assert forall|j: int| 0 <= j < oo + 6 - out_start implies #[trigger] output@[out_start + j] == decoded_byte(alpha, input@, j) by {
                    if j >= oo - out_start + 3 {
                        let k = j - 3 * (g + 1);
                        assert(j / 3 == g + 1 && j % 3 == k);
                        assert(output@[oo + 3 + k] == output@[out_start + j]);
                    } else if j >= oo - out_start {
                        let k = j - 3 * g;
                        assert(j / 3 == g && j % 3 == k);
                        assert(output@[oo + k] == output@[out_start + j]);
                    } else {
                        assert(output@[out_start + j] == before[out_start + j]);
                    }
                }
                assert forall|k: int| 0 <= k < old(output)@.len() && !(out_start <= k < oo + 6) implies output@[k] == old(output)@[k] by {
                    assert(output@[k] == before[k]);
                }
                assert forall|j: int| 0 <= j < ii + 8 implies !#[trigger] invalid_at(alpha, input@)(j) by {
                    if j >= ii {
                        assert(is_valid_symbol(alpha, input@[ii + (j - ii)]));
                    }
                }
            }
            s = s + 1;
        }
        i = i + 32;
        o = o + 24;
    }
    Ok((i, o - out_start))
}

/// Decodes as many whole groups of four symbols of `input` as there are and
/// as `output[out_start..]` has room for, and returns how many symbols were
/// consumed and bytes written; or the first symbol in those groups that is
/// not in the alphabet.
pub fn decode_full_chunks_without_padding<C: SealedConfig>(
    config: C,
    input: &[u8],
    output: &mut [u8],
    out_start: usize,
) -> (r: Result<(usize, usize), DecodeError>)
    requires
        out_start <= old(output)@.len(),
    ensures
        final(output)@.len() == old(output)@.len(),
        ({
            let g = groups_that_fit(input@.len() as int, old(output)@.len() - out_start);
            let f = first_index(invalid_at(config.alphabet(), input@), 0, 4 * g);
            match r {
                Ok((a, b)) => {
                    &&& a == 4 * g
                    &&& b == 3 * g
                    &&& f == 4 * g
                    &&& forall|k: int| 0 <= k < old(output)@.len() && !(out_start <= k < out_start + b) ==> final(output)@[k] == old(output)@[k]
                    &&& forall|j: int| 0 <= j < b ==> #[trigger] final(output)@[out_start + j] == decoded_byte(config.alphabet(), input@, j)
                },
                Err(e) => f < 4 * g && e == DecodeError::InvalidByte(input@[f]),
            }
        }),
{
    let ghost alpha = config.alphabet();
    let ghost g = groups_that_fit(input@.len() as int, old(output)@.len() - out_start);
    // Long inputs go through the block decoder first; it leaves fewer than
    // a block's worth of input or of room for the loop below.
    let (bi, bo) = if input.len() < 32 {
        (0, 0)
    } else {
        match decode_blocks(config, input, output, out_start) {
            Ok(ab) => ab,
            Err(e) => {
                proof {
                    let f = choose|f: int|
                        0 <= f < 4 * g && e == DecodeError::InvalidByte(input@[f]) && invalid_at(alpha, input@)(f)
                            && forall|j: int| 0 <= j < f ==> !#[trigger] invalid_at(alpha, input@)(j);
                    lemma_first_index(invalid_at(alpha, input@), f, 4 * g);
                }
                return Err(e);
            },
        }
    };
    proof {
        assert(output@.len() == output.len());
    }
    let mut i: usize = bi;
    let mut o: usize = out_start + bo;
    while input.len() - i >= 4 && output.len() - o >= 3
        invariant
            alpha == config.alphabet(),
            g == groups_that_fit(input@.len() as int, old(output)@.len() - out_start),
            output@.len() == old(output)@.len(),
            out_start <= o <= output@.len(),
            (o - out_start) % 3 == 0,
            i as int == 4 * ((o - out_start) / 3),
            i <= input@.len(),
            forall|k: int| 0 <= k < old(output)@.len() && !(out_start <= k < o) ==> output@[k] == old(output)@[k],
            forall|j: int| 0 <= j < o - out_start ==> #[trigger] output@[out_start + j] == decoded_byte(alpha, input@, j),
            forall|j: int| 0 <= j < i ==> !#[trigger] invalid_at(alpha, input@)(j),
        decreases input@.len() - i,
    {
        let ghost q = (o - out_start) / 3;
        let ghost before = output@;
        match decode_chunk(config, input, i, output, o) {
            Ok(()) => {},
            Err(b) => {
                proof {
                    let k = choose|k: int|
                        0 <= k < 4 && #[trigger] input@[i + k] == b && !is_valid_symbol(alpha, b)
                            && forall|m: int| 0 <= m < k ==> is_valid_symbol(alpha, #[trigger] input@[i + m]);
                    assert forall|j: int| 0 <= j < i + k implies !#[trigger] invalid_at(alpha, input@)(j) by {
                        if j >= i {
                            assert(is_valid_symbol(alpha, input@[i + (j - i)]));
                        }
                    }
                    assert(4 * q + 4 <= 4 * g);
                    lemma_first_index(invalid_at(alpha, input@), i + k, 4 * g);
                }
                return Err(DecodeError::InvalidByte(b));
            },
        }
        proof {
            assert(o - out_start == 3 * q);
            assert forall|j: int| 0 <= j < o + 3 - out_start implies #[trigger] output@[out_start + j] == decoded_byte(alpha, input@, j) by {
                if j >= o - out_start {
                    let k = j - 3 * q;
                    assert(j / 3 == q && j % 3 == k);
                    assert(output@[o + k] == output@[out_start + j]);
                } else {
                    assert(output@[out_start + j] == before[out_start + j]);
                }
            }
            assert forall|k: int| 0 <= k < old(output)@.len() && !(out_start <= k < o + 3) implies output@[k] == old(output)@[k] by {
                assert(output@[k] == before[k]);
            }
            assert forall|j: int| 0 <= j < i + 4 implies !#[trigger] invalid_at(alpha, input@)(j) by {
                if j >= i {
                    assert(is_valid_symbol(alpha, input@[i + (j - i)]));
                }
            }
        }
        i = i + 4;
        o = o + 3;
    }
    proof {
        lemma_first_index(invalid_at(alpha, input@), 4 * g, 4 * g);
    }
    Ok((i, o - out_start))
}

/// Removes up to two trailing padding bytes, after checking that a padded
/// input is a whole number of groups of four.
pub fn remove_padding<C: SealedConfig>(config: C, input: &[u8]) -> (r: Result<&[u8], DecodeError>)
    ensures
        match config.padding() {
            Some(p) => if input@.len() % 4 != 0 {
                r == Err::<&[u8], DecodeError>(DecodeError::InvalidLength)
            } else {
                r is Ok && r->Ok_0@ == strip_padding(input@, p)
            },
            None => r is Ok && r->Ok_0@ == input@,
        },
{
    if let Some(padding) = config.padding_byte() {
        let n = input.len();
        if n % 4 != 0 {
            return Err(DecodeError::InvalidLength);
        }
        if n >= 2 && input[n - 1] == padding && input[n - 2] == padding {
            Ok(&input[0..n - 2])
        } else if n >= 1 && input[n - 1] == padding {
            Ok(&input[0..n - 1])
        } else {
            Ok(input)
        }
    } else {
        Ok(input)
    }
}

/// Decodes the final partial group `input[i..]` (fewer than four symbols,
/// padding already removed) into `output[o..]`, and returns the number of
/// bytes written.
pub fn decode_partial_chunk<C: SealedConfig>(
    config: C,
    input: &[u8],
    i: usize,
    output: &mut [u8],
    o: usize,
) -> (r: Result<usize, DecodeError>)
    requires
        i <= input@.len() < i + 4,
        o + 2 <= old(output)@.len() || o + decoded_len(input@.len() - i) <= old(output)@.len(),
    ensures
        final(output)@.len() == old(output)@.len(),
        ({
            let t = input@.subrange(i as int, input@.len() as int);
            match decode_unpadded(config.alphabet(), t) {
                Ok(s) => r == Ok::<usize, DecodeError>(s.len() as usize)
                    && final(output)@.subrange(o as int, o + s.len()) == s
                    && forall|k: int| 0 <= k < old(output)@.len() && !(o <= k < o + s.len()) ==> final(output)@[k] == old(output)@[k],
                Err(e) => r == Err::<usize, DecodeError>(e),
            }
        }),
{
    let ghost alpha = config.alphabet();
    let ghost t = input@.subrange(i as int, input@.len() as int);
    let rem = input.len() - i;
    if rem == 0 {
        proof {
            lemma_first_index(invalid_at(alpha, t), 0, 0);
            assert(output@.subrange(o as int, o as int) =~= Seq::<u8>::empty());
        }
        return Ok(0);
    }
    if rem == 1 {
        proof {
            lemma_first_index(invalid_at(alpha, t), 0, 0);
        }
        return Err(DecodeError::InvalidLength);
    }
    let a = input[i];
    let first = config.decode_u8(a);
    if first == INVALID_VALUE {
        proof {
            assert(t[0] == a);
            lemma_first_index(invalid_at(alpha, t), 0, rem as int);
        }
        return Err(DecodeError::InvalidByte(a));
    }
    let b = input[i + 1];
    let second = config.decode_u8(b);
    if second == INVALID_VALUE {
        proof {
            assert(t[0] == a && t[1] == b);
            assert forall|j: int| 0 <= j < 1 implies !#[trigger] invalid_at(alpha, t)(j) by {}
            lemma_first_index(invalid_at(alpha, t), 1, rem as int);
        }
        return Err(DecodeError::InvalidByte(b));
    }
    proof {
        lemma_valid_symbol_value(alpha, a);
        lemma_valid_symbol_value(alpha, b);
        lemma_join_bits(first, second, 0, 0);
    }
    if rem == 2 {
        proof {
            assert(t[0] == a && t[1] == b);
            assert forall|j: int| 0 <= j < 2 implies !#[trigger] invalid_at(alpha, t)(j) by {}
            lemma_first_index(invalid_at(alpha, t), 2, 2);
        }
        if second & 0x0f != 0 {
            proof {
                assert(second & 0x0f == second % 16) by (bit_vector);
            }
            return Err(DecodeError::InvalidTrailingBits);
        }
        proof {
            assert(second & 0x0f == second % 16) by (bit_vector);
        }
        output[o] = (first << 2) | (second >> 4);
        proof {
            let s = Seq::new(decoded_len(2) as nat, |j: int| decoded_byte(alpha, t, j));
            assert(output@.subrange(o as int, o + 1) =~= s);
        }
        return Ok(1);
    }
    let c = input[i + 2];
    let third = config.decode_u8(c);
    if third == INVALID_VALUE {
        proof {
            assert(t[0] == a && t[1] == b && t[2] == c);
            assert forall|j: int| 0 <= j < 2 implies !#[trigger] invalid_at(alpha, t)(j) by {}
            lemma_first_index(invalid_at(alpha, t), 2, 3);
        }
        return Err(DecodeError::InvalidByte(c));
    }
    proof {
        lemma_valid_symbol_value(alpha, c);
        lemma_join_bits(first, second, third, 0);
        assert(t[0] == a && t[1] == b && t[2] == c);
        assert forall|j: int| 0 <= j < 3 implies !#[trigger] invalid_at(alpha, t)(j) by {}
        lemma_first_index(invalid_at(alpha, t), 3, 3);
        assert(third & 0x03 == third % 4) by (bit_vector);
    }
    if third & 0x03 != 0 {
        return Err(DecodeError::InvalidTrailingBits);
    }
    output[o] = (first << 2) | (second >> 4);
    output[o + 1] = (second << 4) | (third >> 2);
    proof {
        let s = Seq::new(decoded_len(3) as nat, |j: int| decoded_byte(alpha, t, j));
        assert(output@.subrange(o as int, o + 2) =~= s);
    }
    Ok(2)
}

/// Once the whole groups of `y` hold only alphabet symbols, decoding `y`
/// succeeds or fails as decoding its last partial group does, and the bytes
/// of that group follow the bytes of the whole groups.
pub proof fn lemma_decode_unpadded_split(alpha: Seq<u8>, y: Seq<u8>, g: int)
    requires
        0 <= g,
        4 * g <= y.len() < 4 * g + 4,
        first_index(invalid_at(alpha, y), 0, 4 * g) == 4 * g,
    ensures
        ({
            let t = y.subrange(4 * g, y.len() as int);
            match decode_unpadded(alpha, t) {
                Ok(ts) => decode_unpadded(alpha, y) is Ok && ({
                    let ys = decode_unpadded(alpha, y)->Ok_0;
                    &&& ys.len() == 3 * g + ts.len()
                    &&& forall|j: int| 0 <= j < 3 * g ==> #[trigger] ys[j] == decoded_byte(alpha, y, j)
                    &&& forall|j: int| 0 <= j < ts.len() ==> #[trigger] ys[3 * g + j] == ts[j]
                }),
                Err(e) => decode_unpadded(alpha, y) == Err::<Seq<u8>, DecodeError>(e),
            }
        }),
{
    let t = y.subrange(4 * g, y.len() as int);
    let m = y.len() as int;
    let r = m - 4 * g;
    assert(m % 4 == r && m / 4 == g);
    let lim_t: int = if r == 1 { 0 } else { r };
    let lim_y: int = if r == 1 { 4 * g } else { m };
    lemma_first_index_spec(invalid_at(alpha, y), 0, 4 * g);
    lemma_first_index_spec(invalid_at(alpha, t), 0, lim_t);
    let ft = first_index(invalid_at(alpha, t), 0, lim_t);
    assert forall|j: int| 0 <= j < 4 * g + ft implies !#[trigger] invalid_at(alpha, y)(j) by {
        if j >= 4 * g {
            assert(!invalid_at(alpha, t)(j - 4 * g));
            assert(t[j - 4 * g] == y[j]);
        }
    }
    if ft < lim_t {
        assert(invalid_at(alpha, t)(ft));
        assert(t[ft] == y[4 * g + ft]);
    }
    lemma_first_index(invalid_at(alpha, y), 4 * g + ft, lim_y);
    if r == 2 {
        assert(t[1] == y[4 * g + 1]);
    }
    if r == 3 {
        assert(t[2] == y[4 * g + 2]);
    }
    if decode_unpadded(alpha, t) is Ok {
        let ts = decode_unpadded(alpha, t)->Ok_0;
        let ys = decode_unpadded(alpha, y)->Ok_0;
        assert forall|j: int| 0 <= j < ts.len() implies #[trigger] ys[3 * g + j] == ts[j] by {
            assert((3 * g + j) / 3 == g && (3 * g + j) % 3 == j);
            assert(t[0] == y[4 * g] && t[1] == y[4 * g + 1]);
            if r == 3 {
                assert(t[2] == y[4 * g + 2]);
            }
        }
    }
}

/// The bytes that the first `plen / 4` whole groups of `z` decode to.
pub open spec fn groups_decoded(alpha: Seq<u8>, z: Seq<u8>, plen: int) -> Seq<u8> {
    Seq::new((3 * (plen / 4)) as nat, |j: int| decoded_byte(alpha, z, j))
}

/// A decoded byte reads only its own group.
pub proof fn lemma_decoded_byte_agree(alpha: Seq<u8>, z1: Seq<u8>, z2: Seq<u8>, j: int, len: int)
    requires
        0 <= j,
        4 * (j / 3) + 4 <= len,
        len <= z1.len(),
        len <= z2.len(),
        forall|k: int| 0 <= k < len ==> #[trigger] z1[k] == z2[k],
    ensures
        decoded_byte(alpha, z1, j) == decoded_byte(alpha, z2, j),
{
    let q = j / 3;
    assert(z1[4 * q] == z2[4 * q]);
    assert(z1[4 * q + 1] == z2[4 * q + 1]);
    assert(z1[4 * q + 2] == z2[4 * q + 2]);
    assert(z1[4 * q + 3] == z2[4 * q + 3]);
}

/// After whole groups `u`, the decoded bytes of `u + v` are those of `v`.
pub proof fn lemma_decoded_byte_shift(alpha: Seq<u8>, u: Seq<u8>, v: Seq<u8>, j: int)
    requires
        u.len() % 4 == 0,
        3 * (u.len() / 4) <= j,
        4 * ((j - 3 * (u.len() / 4)) / 3) + 4 <= v.len(),
    ensures
        decoded_byte(alpha, u + v, j) == decoded_byte(alpha, v, j - 3 * (u.len() / 4)),
{
    let g = u.len() / 4;
    let j2 = j - 3 * g;
    assert(j / 3 == j2 / 3 + g && j % 3 == j2 % 3);
    let q = j2 / 3;
    assert((u + v)[4 * (q + g)] == v[4 * q]);
    assert((u + v)[4 * (q + g) + 1] == v[4 * q + 1]);
    assert((u + v)[4 * (q + g) + 2] == v[4 * q + 2]);
    assert((u + v)[4 * (q + g) + 3] == v[4 * q + 3]);
}

/// Padding is stripped from the end only: bytes before a tail that hold no
/// padding byte stay where they are.
pub proof fn lemma_strip_padding_tail(u: Seq<u8>, t: Seq<u8>, p: u8)
    requires
        forall|i: int| 0 <= i < u.len() ==> #[trigger] u[i] != p,
    ensures
        strip_padding(u + t, p) == u + strip_padding(t, p),
{
    let z = u + t;
    if t.len() == 1 && u.len() >= 1 {
        assert(z[z.len() - 2] == u[u.len() - 1]);
    }
    if t.len() == 0 && u.len() >= 1 {
        assert(z[z.len() - 1] == u[u.len() - 1]);
        assert(z =~= u);
    }
    if t.len() >= 2 {
        assert(z[z.len() - 1] == t[t.len() - 1]);
        assert(z[z.len() - 2] == t[t.len() - 2]);
    }
    if t.len() == 1 {
        assert(z[z.len() - 1] == t[0]);
    }
    assert(z.take(z.len() - 2) =~= u + t.take(t.len() - 2) || t.len() < 2);
    assert(z.take(z.len() - 1) =~= u + t.take(t.len() - 1) || t.len() < 1);
    assert(strip_padding(u + t, p) =~= u + strip_padding(t, p));
}

/// A symbol outside the alphabet in the whole groups of `y` is the error.
pub proof fn lemma_decode_unpadded_early_error(alpha: Seq<u8>, y: Seq<u8>, g: int)
    requires
        0 <= g,
        4 * g <= y.len() < 4 * g + 4,
        first_index(invalid_at(alpha, y), 0, 4 * g) < 4 * g,
    ensures
        decode_unpadded(alpha, y) == Err::<Seq<u8>, DecodeError>(
            DecodeError::InvalidByte(y[first_index(invalid_at(alpha, y), 0, 4 * g)]),
        ),
{
    let m = y.len() as int;
    let lim_y: int = if m % 4 == 1 { 4 * g } else { m };
    assert(m / 4 == g);
    let f = first_index(invalid_at(alpha, y), 0, 4 * g);
    lemma_first_index_spec(invalid_at(alpha, y), 0, 4 * g);
    lemma_first_index(invalid_at(alpha, y), f, lim_y);
}

/// The upper bound `n * 6 / 8 + 1` on the length of the decoding of `n`
/// symbols.
pub open spec fn max_decoded_len(n: int) -> int {
    n * 6 / 8 + 1
}

/// Upper bound on the length of the decoding of `input_len` symbols.
pub fn maximum_decoded_output_len(input_len: usize) -> (r: usize)
    ensures
        r == max_decoded_len(input_len as int),
{
    let q = input_len / 4;
    let s = input_len % 4;
    proof {
        assert(input_len * 6 / 8 == 3 * q + (s * 6) / 8) by (nonlinear_arith)
            requires
                input_len == 4 * q + s,
                0 <= s < 4,
        ;
    }
    q * 3 + (s * 6) / 8 + 1
}

/// Decodes `input` into the beginning of `output` and returns the length of
/// the decoding.
pub fn decode_slice<C: SealedConfig>(config: C, input: &[u8], output: &mut [u8]) -> (r: Result<usize, DecodeError>)
    requires
        old(output)@.len() >= max_decoded_len(input@.len() as int),
    ensures
        final(output)@.len() == old(output)@.len(),
        match decode_spec(config.alphabet(), config.padding(), input@) {
            Ok(s) => r == Ok::<usize, DecodeError>(s.len() as usize) && final(output)@.subrange(0, s.len() as int) == s,
            Err(e) => r == Err::<usize, DecodeError>(e),
        },
{
    let ghost alpha = config.alphabet();
    let y = match remove_padding(config, input) {
        Ok(y) => y,
        Err(e) => return Err(e),
    };
    let ghost m = y@.len() as int;
    let ghost g = m / 4;
    proof {
        assert(3 * (m / 4) <= input@.len() * 6 / 8) by (nonlinear_arith)
            requires
                0 <= m <= input@.len(),
        ;
        assert(groups_that_fit(m, output@.len() as int) == g);
    }
    let (a, b) = match decode_full_chunks_without_padding(config, y, output, 0) {
        Ok(ab) => ab,
        Err(e) => {
            proof {
                lemma_decode_unpadded_early_error(alpha, y@, g);
            }
            return Err(e);
        },
    };
    let ghost mid = output@;
    proof {
        assert(decoded_len(m - a) + b <= input@.len() * 6 / 8 + 1) by (nonlinear_arith)
            requires
                0 <= m <= input@.len(),
                a == 4 * (m / 4),
                b == 3 * (m / 4),
                decoded_len(m - a) <= 2,
                m - a == 3 ==> m % 4 == 3,
                m - a == 2 ==> m % 4 == 2,
                decoded_len(m - a) == if m - a == 0 { 0 } else if m - a == 1 { 0 } else { m - a - 1 },
        ;
        lemma_decode_unpadded_split(alpha, y@, g);
    }
    let n = match decode_partial_chunk(config, y, a, output, b) {
        Ok(n) => n,
        Err(e) => return Err(e),
    };
    proof {
        let t = y@.subrange(a as int, m);
        let ts = decode_unpadded(alpha, t)->Ok_0;
        let ys = decode_unpadded(alpha, y@)->Ok_0;
        assert forall|j: int| 0 <= j < b + n implies #[trigger] output@[j] == ys[j] by {
            if j < b {
                assert(output@[j] == mid[0 + j]);
            } else {
                assert(output@[j] == output@.subrange(b as int, b + n)[j - b]);
                assert(ys[3 * g + (j - b)] == ts[j - b]);
            }
        }
        assert(output@.subrange(0, b + n) =~= ys);
    }
    Ok(b + n)
}

/// Decodes `input` into a new vector.
pub fn decode<C: SealedConfig>(config: C, input: &[u8]) -> (r: Result<Vec<u8>, DecodeError>)
    ensures
        vec_result_view(r) == decode_spec(config.alphabet(), config.padding(), input@),
{
    let len = maximum_decoded_output_len(input.len());
    let mut output: Vec<u8> = vec![0u8; len];
    match decode_slice(config, input, output.as_mut_slice()) {
        Ok(n) => {
            output.truncate(n);
            proof {
                assert(output@ =~= decode_spec(config.alphabet(), config.padding(), input@)->Ok_0);
            }
            Ok(output)
        },
        Err(e) => Err(e),
    }
}

/// Decodes `input` into the beginning of `buffer`, growing it when it is too
/// small, and returns the decoded bytes as a view into the buffer.
pub fn decode_with_buffer<'b, C: SealedConfig>(
    config: C,
    input: &[u8],
    buffer: &'b mut Vec<u8>,
) -> (r: Result<&'b [u8], DecodeError>)
    ensures
        slice_result_view(r) == decode_spec(config.alphabet(), config.padding(), input@),
{
    let output_size = maximum_decoded_output_len(input.len());
    if output_size > buffer.len() {
        buffer.resize(output_size, 0);
    }
    match decode_slice(config, input, buffer.as_mut_slice()) {
        Ok(n) => Ok(&buffer.as_slice()[0..n]),
        Err(e) => Err(e),
    }
}

} // verus!
