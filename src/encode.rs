//! Encoding: whole groups of three bytes, the final partial group, and the
//! functions that combine them.
use crate::configs::SealedConfig;
use crate::model::{
    ascii_chars, byte_or_zero, encode_spec, encoded_len, group_sextet, pad_or_zero, sextet,
    unpadded_len, valid_config,
};
use crate::u6::U6;
use vstd::prelude::*;

verus! {

/// Quotient and remainder of a position inside group `q` of four.
pub proof fn lemma_group_position(q: int, k: int)
    requires
        0 <= k < 4,
    ensures
        (4 * q + k) / 4 == q,
        (4 * q + k) % 4 == k,
{
}

/// Within the whole groups of `x`, the sextets are those of the group alone.
pub proof fn lemma_sextet_in_group(x: Seq<u8>, q: int, k: int)
    requires
        0 <= q,
        3 * q + 3 <= x.len(),
        0 <= k < 4,
    ensures
        sextet(x, 4 * q + k) == group_sextet(
            x[3 * q] as int,
            x[3 * q + 1] as int,
            x[3 * q + 2] as int,
            k,
        ),
{
    lemma_group_position(q, k);
}

proof fn lemma_shift_bits(a: u8, b: u8, c: u8)
    ensures
        (a >> 2u8) % 64 == a / 4,
        ((a << 4u8) | (b >> 4u8)) % 64 == (a % 4) * 16 + b / 16,
        ((b << 2u8) | (c >> 6u8)) % 64 == (b % 16) * 4 + c / 64,
        (a << 4u8) % 64 == (a % 4) * 16,
        (b << 2u8) % 64 == (b % 16) * 4,
{
    assert((a >> 2u8) % 64 == a / 4) by (bit_vector);
    assert(((a << 4u8) | (b >> 4u8)) % 64 == (a % 4) * 16 + b / 16) by (bit_vector);
    assert(((b << 2u8) | (c >> 6u8)) % 64 == (b % 16) * 4 + c / 64) by (bit_vector);
    assert((a << 4u8) % 64 == (a % 4) * 16) by (bit_vector);
    assert((b << 2u8) % 64 == (b % 16) * 4) by (bit_vector);
}

/// Number of whole groups of three bytes among `n_in` bytes whose encoding
/// fits in `n_out` bytes.
pub open spec fn groups_that_fit(n_in: int, n_out: int) -> int {
    if n_in / 3 <= n_out / 4 {
        n_in / 3
    } else {
        n_out / 4
    }
}

/// Encodes the three bytes `input[i..i + 3]` into `output[o..o + 4]`.
pub fn encode_chunk<C: SealedConfig>(config: C, input: &[u8], i: usize, output: &mut [u8], o: usize)
    requires
        i + 3 <= input@.len(),
        o + 4 <= old(output)@.len(),
    ensures
        final(output)@.len() == old(output)@.len(),
        forall|k: int|
            0 <= k < old(output)@.len() && !(o <= k < o + 4) ==> final(output)@[k] == old(output)@[k],
        forall|k: int|
            0 <= k < 4 ==> #[trigger] final(output)@[o + k] == config.alphabet()[group_sextet(
                input@[i as int] as int,
                input@[i + 1] as int,
                input@[i + 2] as int,
                k,
            )],
{
    let a = input[i];
    let b = input[i + 1];
    let c = input[i + 2];
    proof {
        lemma_shift_bits(a, b, c);
    }
    output[o] = config.encode_u6(U6::from_low_six_bits(a >> 2));
    output[o + 1] = config.encode_u6(U6::from_low_six_bits(a << 4 | b >> 4));
    output[o + 2] = config.encode_u6(U6::from_low_six_bits(b << 2 | c >> 6));
    output[o + 3] = config.encode_u6(U6::from_low_six_bits(c));
}

proof fn lemma_word_sextets(b0: u8, b1: u8, b2: u8, b3: u8, b4: u8, b5: u8, w: u64)
    requires
        w == ((b0 as u64) << 40u64) | ((b1 as u64) << 32u64) | ((b2 as u64) << 24u64) | ((b3 as u64) << 16u64) | ((b4 as u64) << 8u64) | (b5 as u64),
    ensures
        (w >> 42u64) & 63 == b0 / 4,
        (w >> 36u64) & 63 == (b0 % 4) * 16 + b1 / 16,
        (w >> 30u64) & 63 == (b1 % 16) * 4 + b2 / 64,
        (w >> 24u64) & 63 == b2 % 64,
        (w >> 18u64) & 63 == b3 / 4,
        (w >> 12u64) & 63 == (b3 % 4) * 16 + b4 / 16,
        (w >> 6u64) & 63 == (b4 % 16) * 4 + b5 / 64,
        w & 63 == b5 % 64,
{
    assert((w >> 42u64) & 63 == b0 / 4) by (bit_vector)
        requires w == ((b0 as u64) << 40u64) | ((b1 as u64) << 32u64) | ((b2 as u64) << 24u64) | ((b3 as u64) << 16u64) | ((b4 as u64) << 8u64) | (b5 as u64);
    assert((w >> 36u64) & 63 == (b0 % 4) * 16 + b1 / 16) by (bit_vector)
        requires w == ((b0 as u64) << 40u64) | ((b1 as u64) << 32u64) | ((b2 as u64) << 24u64) | ((b3 as u64) << 16u64) | ((b4 as u64) << 8u64) | (b5 as u64);
    assert((w >> 30u64) & 63 == (b1 % 16) * 4 + b2 / 64) by (bit_vector)
        requires w == ((b0 as u64) << 40u64) | ((b1 as u64) << 32u64) | ((b2 as u64) << 24u64) | ((b3 as u64) << 16u64) | ((b4 as u64) << 8u64) | (b5 as u64);
    assert((w >> 24u64) & 63 == b2 % 64) by (bit_vector)
        requires w == ((b0 as u64) << 40u64) | ((b1 as u64) << 32u64) | ((b2 as u64) << 24u64) | ((b3 as u64) << 16u64) | ((b4 as u64) << 8u64) | (b5 as u64);
    assert((w >> 18u64) & 63 == b3 / 4) by (bit_vector)
        requires w == ((b0 as u64) << 40u64) | ((b1 as u64) << 32u64) | ((b2 as u64) << 24u64) | ((b3 as u64) << 16u64) | ((b4 as u64) << 8u64) | (b5 as u64);
    assert((w >> 12u64) & 63 == (b3 % 4) * 16 + b4 / 16) by (bit_vector)
        requires w == ((b0 as u64) << 40u64) | ((b1 as u64) << 32u64) | ((b2 as u64) << 24u64) | ((b3 as u64) << 16u64) | ((b4 as u64) << 8u64) | (b5 as u64);
    assert((w >> 6u64) & 63 == (b4 % 16) * 4 + b5 / 64) by (bit_vector)
        requires w == ((b0 as u64) << 40u64) | ((b1 as u64) << 32u64) | ((b2 as u64) << 24u64) | ((b3 as u64) << 16u64) | ((b4 as u64) << 8u64) | (b5 as u64);
    assert(w & 63 == b5 % 64) by (bit_vector)
        requires w == ((b0 as u64) << 40u64) | ((b1 as u64) << 32u64) | ((b2 as u64) << 24u64) | ((b3 as u64) << 16u64) | ((b4 as u64) << 8u64) | (b5 as u64);
}

/// The six bytes `input[i..i + 6]` as the low 48 bits of a word, first
/// byte most significant.
fn read_be_u48(input: &[u8], i: usize) -> (w: u64)
    requires
        i + 6 <= input@.len(),
    ensures
        w == ((input@[i as int] as u64) << 40u64) | ((input@[i + 1] as u64) << 32u64) | ((input@[i + 2] as u64) << 24u64) | ((input@[i + 3] as u64) << 16u64) | ((input@[i + 4] as u64) << 8u64) | (input@[i + 5] as u64),
{
    ((input[i] as u64) << 40u64) | ((input[i + 1] as u64) << 32u64) | ((input[i + 2] as u64) << 24u64) | ((input[i + 3] as u64) << 16u64) | ((input[i + 4] as u64) << 8u64) | (input[i + 5] as u64)
}

/// Encodes the two groups `input[i..i + 6]` into `output[o..o + 8]`, from a
/// single 48-bit word.
fn encode_word<C: SealedConfig>(config: C, input: &[u8], i: usize, output: &mut [u8], o: usize)
    requires
        i + 6 <= input@.len(),
        o + 8 <= old(output)@.len(),
    ensures
        final(output)@.len() == old(output)@.len(),
        forall|k: int| 0 <= k < old(output)@.len() && !(o <= k < o + 8) ==> final(output)@[k] == old(output)@[k],
        forall|k: int| 0 <= k < 4 ==> #[trigger] final(output)@[o + k] == config.alphabet()[group_sextet(
            input@[i as int] as int,
            input@[i + 1] as int,
            input@[i + 2] as int,
            k,
        )],
        forall|k: int| 0 <= k < 4 ==> #[trigger] final(output)@[o + 4 + k] == config.alphabet()[group_sextet(
            input@[i + 3] as int,
            input@[i + 4] as int,
            input@[i + 5] as int,
            k,
        )],
{
    let w = read_be_u48(input, i);
    proof {
        lemma_word_sextets(input@[i as int], input@[i + 1], input@[i + 2], input@[i + 3], input@[i + 4], input@[i + 5], w);
    }
    proof {
        assert(output@.len() == output.len());
    }
    let mut idx: usize = 0;
    while idx < 8
        invariant
            o + 8 <= output@.len(),
            output@.len() <= usize::MAX,
            output@.len() == old(output)@.len(),
            idx <= 8,
            forall|k: int| 0 <= k < old(output)@.len() && !(o <= k < o + idx) ==> output@[k] == old(output)@[k],
            forall|k: int| 0 <= k < idx ==> #[trigger] output@[o + k] == config.alphabet()[((w >> (42 - 6 * k) as u64) & 63) as int],
        decreases 8 - idx,
    {
        let shift: u64 = 42 - 6 * idx as u64;
        let v = ((w >> shift) & 63) as u8;
        proof {
            assert(((w >> shift) & 63) < 64) by (bit_vector);
            assert(v as int % 64 == v as int);
        }
        output[o + idx] = config.encode_u6(U6::from_low_six_bits(v));
        idx = idx + 1;
    }
    proof {
        assert(output@[o + 0] == config.alphabet()[((w >> 42u64) & 63) as int]);
        assert(output@[o + 1] == config.alphabet()[((w >> 36u64) & 63) as int]);
        assert(output@[o + 2] == config.alphabet()[((w >> 30u64) & 63) as int]);
        assert(output@[o + 3] == config.alphabet()[((w >> 24u64) & 63) as int]);
        assert(output@[o + 4] == config.alphabet()[((w >> 18u64) & 63) as int]);
        assert(output@[o + 5] == config.alphabet()[((w >> 12u64) & 63) as int]);
        assert(output@[o + 6] == config.alphabet()[((w >> 6u64) & 63) as int]);
        assert(output@[o + 7] == config.alphabet()[((w >> 0u64) & 63) as int]);
        assert(w >> 0u64 == w) by (bit_vector);
    }
}

/// Encodes blocks of 24 bytes into blocks of 32 symbols, four 48-bit words
/// per block, for as many blocks as `input` holds and `output[out_start..]`
/// has room for. Returns how many bytes of input were consumed and of
/// output written; the symbols are those of the group-by-group encoding.
pub fn encode_blocks<C: SealedConfig>(config: C, input: &[u8], output: &mut [u8], out_start: usize) -> (r: (usize, usize))
    requires
        out_start <= old(output)@.len(),
    ensures
        final(output)@.len() == old(output)@.len(),
        r.0 as int == 3 * r.1 as int / 4,
        r.1 % 32 == 0,
        r.0 <= input@.len(),
        out_start + r.1 <= old(output)@.len(),
        input@.len() - r.0 < 24 || old(output)@.len() - out_start - r.1 < 32,
        forall|k: int| 0 <= k < old(output)@.len() && !(out_start <= k < out_start + r.1) ==> final(output)@[k] == old(output)@[k],
        forall|j: int| 0 <= j < r.1 ==> #[trigger] final(output)@[out_start + j] == config.alphabet()[sextet(input@, j)],
{
    let ghost alpha = config.alphabet();
    let mut i: usize = 0;
    let mut o: usize = out_start;
    while input.len() - i >= 24 && output.len() - o >= 32
        invariant
            alpha == config.alphabet(),
            output@.len() == old(output)@.len(),
            out_start <= o <= output@.len(),
            i as int == 3 * ((o - out_start) / 4),
            (o - out_start) % 32 == 0,
            i <= input@.len(),
            forall|k: int| 0 <= k < old(output)@.len() && !(out_start <= k < o) ==> output@[k] == old(output)@[k],
            forall|j: int| 0 <= j < o - out_start ==> #[trigger] output@[out_start + j] == alpha[sextet(input@, j)],
        decreases input@.len() - i,
    {
        let ghost q = (o - out_start) / 4;
        proof {
            assert(output@.len() == output.len());
        }
        let mut s: usize = 0;
        while s < 4
            invariant
                output@.len() <= usize::MAX,
                alpha == config.alphabet(),
                output@.len() == old(output)@.len(),
                input@.len() - i >= 24,
                output@.len() - o >= 32,
                out_start <= o,
                o - out_start == 4 * q,
                i == 3 * q,
                s <= 4,
                forall|k: int| 0 <= k < old(output)@.len() && !(out_start <= k < o + 8 * s) ==> output@[k] == old(output)@[k],
                forall|j: int| 0 <= j < o + 8 * s - out_start ==> #[trigger] output@[out_start + j] == alpha[sextet(input@, j)],
            decreases 4 - s,
        {
            let ghost before = output@;
            let ii = i + 6 * s;
            let oo = o + 8 * s;
            encode_word(config, input, ii, output, oo);
            proof {
                let g = q + 2 * s;
                assert(ii == 3 * g && oo - out_start == 4 * g);
                assert forall|j: int| 0 <= j < oo + 8 - out_start implies #[trigger] output@[out_start + j] == alpha[sextet(input@, j)] by {
                    if j >= oo - out_start + 4 {
                        let k = j - 4 * (g + 1);
                        lemma_sextet_in_group(input@, g + 1, k);
                        assert(output@[oo + 4 + k] == output@[out_start + j]);
                    } else if j >= oo - out_start {
                        let k = j - 4 * g;
                        lemma_sextet_in_group(input@, g, k);
                        assert(output@[oo + k] == output@[out_start + j]);
                    } else {
                        assert(output@[out_start + j] == before[out_start + j]);
                    }
                }
                assert forall|k: int| 0 <= k < old(output)@.len() && !(out_start <= k < oo + 8) implies output@[k] == old(output)@[k] by {
                    assert(output@[k] == before[k]);
                }
            }
            s = s + 1;
        }
        i = i + 24;
        o = o + 32;
    }
    (i, o - out_start)
}

/// Encodes as many whole groups of three bytes of `input` as there are and
/// as `output[out_start..]` has room for, and returns how many bytes of
/// input were consumed and of output written.
pub fn encode_full_chunks_without_padding<C: SealedConfig>(
    config: C,
    input: &[u8],
    output: &mut [u8],
    out_start: usize,
) -> (r: (usize, usize))
    requires
        out_start <= old(output)@.len(),
    ensures
        final(output)@.len() == old(output)@.len(),
        r.0 as int == 3 * r.1 as int / 4,
        r.1 % 4 == 0,
        r.0 == 3 * groups_that_fit(input@.len() as int, old(output)@.len() - out_start),
        forall|k: int|
            0 <= k < old(output)@.len() && !(out_start <= k < out_start + r.1) ==> final(output)@[k] == old(output)@[k],
        forall|j: int|
            0 <= j < r.1 ==> final(output)@[out_start + j] == config.alphabet()[sextet(
                input@,
                j,
            )],
{
    let ghost alpha = config.alphabet();
    // Long inputs go through the block encoder first; it leaves fewer than
    // a block's worth of input or of room for the loop below.
    let (bi, bo) = if input.len() < 32 {
        (0, 0)
    } else {
        encode_blocks(config, input, output, out_start)
    };
    proof {
        assert(output@.len() == output.len());
    }
    let mut i: usize = bi;
    let mut o: usize = out_start + bo;
    while input.len() - i >= 3 && output.len() - o >= 4
        invariant
            alpha == config.alphabet(),
            output@.len() == old(output)@.len(),
            out_start <= o <= output@.len(),
            i as int == 3 * ((o - out_start) / 4),
            (o - out_start) % 4 == 0,
            i <= input@.len(),
            forall|k: int|
                0 <= k < old(output)@.len() && !(out_start <= k < o) ==> output@[k] == old(output)@[k],
            forall|j: int|
                0 <= j < o - out_start ==> output@[out_start + j] == alpha[sextet(input@, j)],
        decreases input@.len() - i,
    {
        let ghost q = (o - out_start) / 4;
        let ghost before = output@;
        encode_chunk(config, input, i, output, o);
        proof {
            assert(o - out_start == 4 * q);
            assert forall|j: int| 0 <= j < o + 4 - out_start implies output@[out_start + j]
                == alpha[sextet(input@, j)] by {
                if j >= o - out_start {
                    let k = j - 4 * q;
                    lemma_sextet_in_group(input@, q, k);
                    assert(output@[o + k] == alpha[group_sextet(
                        input@[i as int] as int,
                        input@[i + 1] as int,
                        input@[i + 2] as int,
                        k,
                    )]);
                } else {
                    assert(output@[out_start + j] == before[out_start + j]);
                }
            }
            assert forall|k: int|
                0 <= k < old(output)@.len() && !(out_start <= k < o + 4) implies output@[k] == old(output)@[k] by {
                assert(output@[k] == before[k]);
            }
        }
        i = i + 3;
        o = o + 4;
    }
    (i, o - out_start)
}

/// Encodes the final partial group `input[i..]` (zero, one or two bytes)
/// into `output[o..]`, padding it if the configuration pads, and returns the
/// number of bytes written.
pub fn encode_partial_chunk<C: SealedConfig>(
    config: C,
    input: &[u8],
    i: usize,
    output: &mut [u8],
    o: usize,
) -> (r: usize)
    requires
        i <= input@.len() < i + 3,
        o + encoded_len(input@.len() - i, config.padding() is Some) <= old(output)@.len(),
    ensures
        r == encoded_len(input@.len() - i, config.padding() is Some),
        final(output)@.len() == old(output)@.len(),
        forall|k: int|
            0 <= k < old(output)@.len() && !(o <= k < o + r) ==> final(output)@[k] == old(output)@[k],
        forall|k: int|
            0 <= k < r ==> #[trigger] final(output)@[o + k] == if k < unpadded_len(input@.len() - i) {
                config.alphabet()[group_sextet(
                    input@[i as int] as int,
                    byte_or_zero(input@, i + 1),
                    0,
                    k,
                )]
            } else {
                pad_or_zero(config.padding())
            },
{
    let rem = input.len() - i;
    if rem == 0 {
        0
    } else if rem == 1 {
        let a = input[i];
        proof {
            lemma_shift_bits(a, 0, 0);
        }
        output[o] = config.encode_u6(U6::from_low_six_bits(a >> 2));
        output[o + 1] = config.encode_u6(U6::from_low_six_bits(a << 4));
        if let Some(padding) = config.padding_byte() {
            output[o + 2] = padding;
            output[o + 3] = padding;
            4
        } else {
            2
        }
    } else {
        let a = input[i];
        let b = input[i + 1];
        proof {
            lemma_shift_bits(a, b, 0);
        }
        output[o] = config.encode_u6(U6::from_low_six_bits(a >> 2));
        output[o + 1] = config.encode_u6(U6::from_low_six_bits(a << 4 | b >> 4));
        output[o + 2] = config.encode_u6(U6::from_low_six_bits(b << 2));
        if let Some(padding) = config.padding_byte() {
            output[o + 3] = padding;
            4
        } else {
            3
        }
    }
}

/// Encodes `input` into the beginning of `output` and returns the length of
/// the encoding.
pub fn encode_slice<C: SealedConfig>(config: C, input: &[u8], output: &mut [u8]) -> (r: usize)
    requires
        encoded_len(input@.len() as int, config.padding() is Some) <= old(output)@.len(),
    ensures
        r == encoded_len(input@.len() as int, config.padding() is Some),
        final(output)@.len() == old(output)@.len(),
        final(output)@.subrange(0, r as int) == encode_spec(
            config.alphabet(),
            config.padding(),
            input@,
        ),
        final(output)@.subrange(r as int, final(output)@.len() as int) == old(output)@.subrange(
            r as int,
            old(output)@.len() as int,
        ),
{
    let ghost x = input@;
    let ghost alpha = config.alphabet();
    let (input_idx, output_idx) = encode_full_chunks_without_padding(config, input, output, 0);
    proof {
        assert(input_idx == 3 * (x.len() / 3));
        assert(output_idx == 4 * (x.len() / 3));
        assert(x.len() - input_idx == x.len() % 3);
        assert(output_idx + encoded_len(x.len() - input_idx, config.padding() is Some) == encoded_len(
            x.len() as int,
            config.padding() is Some,
        ));
    }
    let ghost mid = output@;
    let written = encode_partial_chunk(config, input, input_idx, output, output_idx);
    proof {
        assert(written + output_idx <= output@.len());
        assert(output@.len() == output.len());
    }
    let r = output_idx + written;
    proof {
        let e = encode_spec(alpha, config.padding(), x);
        assert forall|j: int| 0 <= j < r implies output@[j] == e[j] by {
            if j >= output_idx {
                let k = j - output_idx;
                let q = (x.len() / 3) as int;
                lemma_group_position(q, k);
                assert(output@[output_idx + k] == output@[j]);
                if k < unpadded_len(x.len() - input_idx) {
                    assert(byte_or_zero(x, 3 * q) == x[input_idx as int]);
                }
            } else {
                assert(output@[j] == mid[j]);
            }
        }
        assert(output@.subrange(0, r as int) =~= e);
        assert(output@.subrange(r as int, output@.len() as int) =~= old(output)@.subrange(
            r as int,
            old(output)@.len() as int,
        ));
    }
    r
}

/// Length of the encoding of `input_len` bytes.
pub fn encoded_output_len<C: SealedConfig>(config: C, input_len: usize) -> (r: usize)
    requires
        encoded_len(input_len as int, config.padding() is Some) <= usize::MAX,
    ensures
        r == encoded_len(input_len as int, config.padding() is Some),
{
    let complete_chunks = input_len / 3;
    let input_remaining = input_len % 3;
    if input_remaining == 0 {
        return complete_chunks * 4;
    }
    if config.padding_byte().is_some() {
        (complete_chunks + 1) * 4
    } else {
        let encoded_remaining: usize = if input_remaining == 1 {
            2
        } else {
            3
        };
        complete_chunks * 4 + encoded_remaining
    }
}

/// Relies on `String::from_utf8`: bytes below 128 are valid UTF-8, and each
/// of them is one character of the result.
#[verifier::external_body]
fn ascii_to_string(bytes: Vec<u8>) -> (r: String)
    requires
        forall|i: int| 0 <= i < bytes@.len() ==> bytes@[i] < 128,
    ensures
        r@ == ascii_chars(bytes@),
{
    String::from_utf8(bytes).unwrap()
}

/// Relies on `std::str::from_utf8`: bytes below 128 are valid UTF-8, and
/// each of them is one character of the result.
#[verifier::external_body]
fn ascii_as_str(bytes: &[u8]) -> (r: &str)
    requires
        forall|i: int| 0 <= i < bytes@.len() ==> bytes@[i] < 128,
    ensures
        r@ == ascii_chars(bytes@),
{
    std::str::from_utf8(bytes).unwrap()
}

/// Every byte of an encoding under a usable configuration is ASCII.
pub proof fn lemma_encoding_is_ascii(alpha: Seq<u8>, pad: Option<u8>, x: Seq<u8>)
    requires
        valid_config(alpha, pad),
    ensures
        forall|i: int|
            0 <= i < encode_spec(alpha, pad, x).len() ==> #[trigger] encode_spec(alpha, pad, x)[i]
                < 128,
{
    assert forall|i: int| 0 <= i < encode_spec(alpha, pad, x).len() implies #[trigger] encode_spec(
        alpha,
        pad,
        x,
    )[i] < 128 by {
        if i < unpadded_len(x.len() as int) {
            let q = i / 4;
            assert(0 <= sextet(x, i) < 64);
        }
    }
}

/// Encodes `input` into a new `String`.
pub fn encode<C: SealedConfig>(config: C, input: &[u8]) -> (r: String)
    requires
        encoded_len(input@.len() as int, config.padding() is Some) <= usize::MAX,
    ensures
        r@ == ascii_chars(encode_spec(config.alphabet(), config.padding(), input@)),
{
    let len = encoded_output_len(config, input.len());
    let mut output: Vec<u8> = vec![0u8; len];
    let n = encode_slice(config, input, output.as_mut_slice());
    proof {
        config.lemma_valid();
        lemma_encoding_is_ascii(config.alphabet(), config.padding(), input@);
        assert(output@ =~= output@.subrange(0, n as int));
    }
    ascii_to_string(output)
}

/// Encodes `input` into the beginning of `buffer`, growing it when it is too
/// small, and returns the encoding as text that borrows the buffer.
pub fn encode_with_buffer<'b, C: SealedConfig>(
    config: C,
    input: &[u8],
    buffer: &'b mut Vec<u8>,
) -> (r: &'b str)
    requires
        encoded_len(input@.len() as int, config.padding() is Some) <= usize::MAX,
    ensures
        r@ == ascii_chars(encode_spec(config.alphabet(), config.padding(), input@)),
{
    let output_size = encoded_output_len(config, input.len());
    if output_size > buffer.len() {
        buffer.resize(output_size, 0);
    }
    let n = encode_slice(config, input, buffer.as_mut_slice());
    proof {
        config.lemma_valid();
        lemma_encoding_is_ascii(config.alphabet(), config.padding(), input@);
    }
    let encoded = &buffer.as_slice()[0..n];
    ascii_as_str(encoded)
}

} // verus!
