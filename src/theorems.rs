//! What holds of encoding and decoding for every input.
use crate::configs::Config;
use crate::model::{
    byte_or_zero, decode_spec, decode_unpadded, decode_value, decoded_byte, decoded_len,
    encode_spec, encoded_len, first_index, group_byte, group_sextet, has_trailing_bits, invalid_at, is_valid_symbol,
    lemma_decode_value_at, lemma_first_index, sextet, strip_padding, unpadded_len, valid_config,
    DecodeError,
};
use vstd::prelude::*;

verus! {

/// The bytes of a group come back from its sextets.
proof fn lemma_group_roundtrip(a: int, b: int, c: int)
    requires
        0 <= a < 256,
        0 <= b < 256,
        0 <= c < 256,
    ensures
        group_byte(group_sextet(a, b, c, 0), group_sextet(a, b, c, 1), group_sextet(a, b, c, 2), group_sextet(a, b, c, 3), 0) == a,
        group_byte(group_sextet(a, b, c, 0), group_sextet(a, b, c, 1), group_sextet(a, b, c, 2), group_sextet(a, b, c, 3), 1) == b,
        group_byte(group_sextet(a, b, c, 0), group_sextet(a, b, c, 1), group_sextet(a, b, c, 2), group_sextet(a, b, c, 3), 2) == c,
{
}

/// Byte `j` of the decoding of the unpadded symbols of an encoding.
proof fn lemma_decoded_byte_of_encoding(alpha: Seq<u8>, x: Seq<u8>, y: Seq<u8>, j: int)
    requires
        y.len() == unpadded_len(x.len() as int),
        forall|i: int| 0 <= i < y.len() ==> decode_value(alpha, #[trigger] y[i]) == sextet(x, i),
        0 <= j < x.len(),
    ensures
        decoded_byte(alpha, y, j) == x[j],
{
    let m = y.len() as int;
    let q = j / 3;
    let a = byte_or_zero(x, 3 * q);
    let b = byte_or_zero(x, 3 * q + 1);
    let c = byte_or_zero(x, 3 * q + 2);
    lemma_group_roundtrip(a, b, c);
    assert forall|k: int| 0 <= k < 4 && 4 * q + k < m implies decode_value(alpha, #[trigger] y[4 * q + k]) == group_sextet(a, b, c, k) by {
        assert((4 * q + k) / 4 == q && (4 * q + k) % 4 == k);
    }
    assert(4 * q + 1 < m);
    if j % 3 >= 1 {
        assert(4 * q + 2 < m);
    }
    if j % 3 == 2 {
        assert(4 * q + 3 < m);
    }
    assert(j == 3 * q + j % 3);
}

/// No symbol of an encoding lies outside the alphabet, and the unused bits
/// of its last symbol are zero.
proof fn lemma_encoding_symbols(alpha: Seq<u8>, x: Seq<u8>, y: Seq<u8>)
    requires
        valid_config(alpha, None),
        y.len() == unpadded_len(x.len() as int),
        forall|i: int| 0 <= i < y.len() ==> #[trigger] y[i] == alpha[sextet(x, i)],
    ensures
        forall|i: int| 0 <= i < y.len() ==> decode_value(alpha, #[trigger] y[i]) == sextet(x, i),
        first_index(invalid_at(alpha, y), 0, y.len() as int) == y.len(),
        !has_trailing_bits(alpha, y),
{
    let m = y.len() as int;
    assert forall|i: int| 0 <= i < m implies decode_value(alpha, #[trigger] y[i]) == sextet(x, i) by {
        assert(0 <= sextet(x, i) < 64);
        lemma_decode_value_at(alpha, sextet(x, i));
    }
    assert forall|j: int| 0 <= j < m implies !#[trigger] invalid_at(alpha, y)(j) by {
        assert(decode_value(alpha, y[j]) == sextet(x, j));
    }
    lemma_first_index(invalid_at(alpha, y), m, m);
    let base = 4 * (m / 4);
    if m % 4 == 2 {
        assert(decode_value(alpha, y[base + 1]) == sextet(x, base + 1));
        assert((base + 1) / 4 == m / 4 && (base + 1) % 4 == 1);
        assert(byte_or_zero(x, 3 * (m / 4) + 1) == 0);
    }
    if m % 4 == 3 {
        assert(decode_value(alpha, y[base + 2]) == sextet(x, base + 2));
        assert((base + 2) / 4 == m / 4 && (base + 2) % 4 == 2);
        assert(byte_or_zero(x, 3 * (m / 4) + 2) == 0);
    }
}

/// Decoding the unpadded symbols of an encoding gives back the input.
proof fn lemma_decode_unpadded_encoding(alpha: Seq<u8>, x: Seq<u8>, y: Seq<u8>)
    requires
        valid_config(alpha, None),
        y.len() == unpadded_len(x.len() as int),
        forall|i: int| 0 <= i < y.len() ==> #[trigger] y[i] == alpha[sextet(x, i)],
    ensures
        decode_unpadded(alpha, y) == Ok::<Seq<u8>, DecodeError>(x),
{
    let n = x.len() as int;
    let m = y.len() as int;
    lemma_encoding_symbols(alpha, x, y);
    assert(m % 4 != 1);
    assert(decoded_len(m) == n);
    let out = Seq::new(decoded_len(m) as nat, |j: int| decoded_byte(alpha, y, j));
    assert forall|j: int| 0 <= j < n implies #[trigger] out[j] == x[j] by {
        lemma_decoded_byte_of_encoding(alpha, x, y, j);
    }
    assert(out =~= x);
}

/// Decoding the encoding of any bytes gives back those bytes, under every
/// configuration.
pub proof fn lemma_roundtrip<C: Config>(config: C, x: Seq<u8>)
    ensures
        decode_spec(config.alphabet(), config.padding(), encode_spec(config.alphabet(), config.padding(), x))
            == Ok::<Seq<u8>, DecodeError>(x),
{
    config.lemma_valid();
    let alpha = config.alphabet();
    let pad = config.padding();
    let e = encode_spec(alpha, pad, x);
    let n = x.len() as int;
    let u = unpadded_len(n);
    assert(valid_config(alpha, None));
    assert forall|i: int| 0 <= i < u implies 0 <= #[trigger] sextet(x, i) < 64 by {}
    match pad {
        Some(p) => {
            let y = strip_padding(e, p);
            assert(e.len() % 4 == 0);
            if e.len() >= 1 && u == e.len() {
                assert(e[e.len() - 1] == alpha[sextet(x, e.len() - 1)]);
            }
            if e.len() - u == 1 {
                assert(e[e.len() - 2] == alpha[sextet(x, e.len() - 2)]);
            }
            assert(y.len() == u);
            assert forall|i: int| 0 <= i < y.len() implies #[trigger] y[i] == alpha[sextet(x, i)] by {
                assert(y[i] == e[i]);
            }
            lemma_decode_unpadded_encoding(alpha, x, y);
        },
        None => {
            lemma_decode_unpadded_encoding(alpha, x, e);
        },
    }
}

/// The encoding of `x` has the length that `encoded_output_len` gives for
/// `x.len()`.
pub proof fn lemma_encoded_length<C: Config>(config: C, x: Seq<u8>)
    ensures
        encode_spec(config.alphabet(), config.padding(), x).len() == encoded_len(
            x.len() as int,
            config.padding() is Some,
        ),
{
}

/// Two configurations with the same characters and padding encode alike, and
/// each decodes what the other encodes.
pub proof fn lemma_same_alphabet_interchangeable<C1: Config, C2: Config>(c1: C1, c2: C2, x: Seq<u8>)
    requires
        c1.alphabet() == c2.alphabet(),
        c1.padding() == c2.padding(),
    ensures
        encode_spec(c1.alphabet(), c1.padding(), x) == encode_spec(c2.alphabet(), c2.padding(), x),
        decode_spec(c2.alphabet(), c2.padding(), encode_spec(c1.alphabet(), c1.padding(), x))
            == Ok::<Seq<u8>, DecodeError>(x),
        decode_spec(c1.alphabet(), c1.padding(), encode_spec(c2.alphabet(), c2.padding(), x))
            == Ok::<Seq<u8>, DecodeError>(x),
{
    lemma_roundtrip(c1, x);
    lemma_roundtrip(c2, x);
}

/// A single byte outside the alphabet (and not the padding byte), among
/// alphabet symbols, is reported by value wherever it stands, as long as the
/// length is one that decodes.
pub proof fn lemma_single_invalid_byte<C: Config>(config: C, x: Seq<u8>, i: int)
    requires
        0 <= i < x.len(),
        !is_valid_symbol(config.alphabet(), x[i]),
        forall|j: int| 0 <= j < x.len() && j != i ==> is_valid_symbol(config.alphabet(), #[trigger] x[j]),
        x.len() % 4 != 1,
        config.padding() is Some ==> x.len() % 4 == 0 && x[i] != config.padding()->0,
    ensures
        decode_spec(config.alphabet(), config.padding(), x) == Err::<Seq<u8>, DecodeError>(
            DecodeError::InvalidByte(x[i]),
        ),
{
    config.lemma_valid();
    let alpha = config.alphabet();
    let y = match config.padding() {
        Some(p) => strip_padding(x, p),
        None => x,
    };
    if config.padding() is Some {
        let p = config.padding()->0;
        assert forall|j: int| 0 <= j < x.len() implies #[trigger] x[j] != p by {
            if j != i {
                assert(is_valid_symbol(alpha, x[j]));
                if x[j] == p {
                    assert(forall|k: int| 0 <= k < 64 ==> #[trigger] alpha[k] != p);
                    assert(!(exists|k: int| 0 <= k < 64 && alpha[k] == x[j]));
                }
            }
        }
        assert(y == x);
    }
    assert forall|j: int| 0 <= j < i implies !#[trigger] invalid_at(alpha, y)(j) by {
        assert(is_valid_symbol(alpha, x[j]));
    }
    lemma_first_index(invalid_at(alpha, y), i, y.len() as int);
}

/// A length of one more than a multiple of four never decodes: once the
/// whole groups hold alphabet symbols, that length is the error.
pub proof fn lemma_dangling_symbol<C: Config>(config: C, x: Seq<u8>)
    requires
        x.len() % 4 == 1,
        forall|j: int| 0 <= j < x.len() - 1 ==> is_valid_symbol(config.alphabet(), #[trigger] x[j]),
    ensures
        decode_spec(config.alphabet(), config.padding(), x) == Err::<Seq<u8>, DecodeError>(
            DecodeError::InvalidLength,
        ),
{
    let alpha = config.alphabet();
    if config.padding() is None {
        let lim = x.len() - 1;
        assert forall|j: int| 0 <= j < lim implies !#[trigger] invalid_at(alpha, x)(j) by {
            assert(is_valid_symbol(alpha, x[j]));
        }
        lemma_first_index(invalid_at(alpha, x), lim, lim);
    }
}

/// Stripping the padding of an encoding leaves its unpadded form.
proof fn lemma_strip_encoding(alpha: Seq<u8>, p: u8, x: Seq<u8>)
    requires
        valid_config(alpha, Some(p)),
    ensures
        strip_padding(encode_spec(alpha, Some(p), x), p) == encode_spec(alpha, None, x),
{
    let e = encode_spec(alpha, Some(p), x);
    let u = unpadded_len(x.len() as int);
    assert forall|i: int| 0 <= i < u implies 0 <= #[trigger] sextet(x, i) < 64 by {}
    if e.len() >= 1 && u == e.len() {
        assert(e[e.len() - 1] == alpha[sextet(x, e.len() - 1)]);
    }
    if e.len() - u == 1 {
        assert(e[e.len() - 2] == alpha[sextet(x, e.len() - 2)]);
    }
    assert(strip_padding(e, p) =~= encode_spec(alpha, None, x));
}

/// A padded group followed by more groups does not decode: the padding
/// byte inside the input is reported as a byte outside the alphabet.
pub proof fn lemma_padding_inside_rejected<C: Config>(config: C, a: Seq<u8>, b: Seq<u8>)
    requires
        config.padding() is Some,
        a.len() % 3 != 0,
        b.len() > 0,
    ensures
        decode_spec(
            config.alphabet(),
            config.padding(),
            encode_spec(config.alphabet(), config.padding(), a) + encode_spec(config.alphabet(), config.padding(), b),
        ) == Err::<Seq<u8>, DecodeError>(DecodeError::InvalidByte(config.padding()->0)),
{
    config.lemma_valid();
    let alpha = config.alphabet();
    let p = config.padding()->0;
    let ea = encode_spec(alpha, Some(p), a);
    let eb = encode_spec(alpha, Some(p), b);
    let z = ea + eb;
    lemma_strip_encoding(alpha, p, b);
    let sb = encode_spec(alpha, None, b);
    let y = ea + sb;
    assert(eb.len() >= 4);
    assert(strip_padding(z, p) =~= y) by {
        assert(z[z.len() - 1] == eb[eb.len() - 1]);
        assert(z[z.len() - 2] == eb[eb.len() - 2]);
        assert(z.take(z.len() - 2) =~= ea + eb.take(eb.len() - 2));
        assert(z.take(z.len() - 1) =~= ea + eb.take(eb.len() - 1));
    }
    let f = unpadded_len(a.len() as int);
    assert(y.len() % 4 != 1);
    assert(y[f] == p);
    assert forall|j: int| 0 <= j < f implies !#[trigger] invalid_at(alpha, y)(j) by {
        assert(0 <= sextet(a, j) < 64);
        assert(y[j] == alpha[sextet(a, j)]);
        lemma_decode_value_at(alpha, sextet(a, j));
    }
    assert(invalid_at(alpha, y)(f)) by {
        assert(forall|k: int| 0 <= k < 64 ==> #[trigger] alpha[k] != p);
    }
    lemma_first_index(invalid_at(alpha, y), f, y.len() as int);
}

/// The block engines write, at each position, the model's symbol
/// `alpha[sextet(x, j)]` or byte `decoded_byte(alpha, y, j)`; these are
/// exactly what encoding or decoding that position's group alone gives, so
/// output produced block by block equals output produced group by group.
pub proof fn lemma_block_output_is_group_output(alpha: Seq<u8>, pad: Option<u8>, x: Seq<u8>, y: Seq<u8>, j: int)
    requires
        valid_config(alpha, pad),
        0 <= j,
    ensures
        3 * (j / 4) + 3 <= x.len() ==> alpha[sextet(x, j)] == encode_spec(
            alpha,
            pad,
            x.subrange(3 * (j / 4), 3 * (j / 4) + 3),
        )[j % 4],
        4 * (j / 3) + 4 <= y.len() && decode_unpadded(alpha, y.subrange(4 * (j / 3), 4 * (j / 3) + 4)) is Ok
            ==> decoded_byte(alpha, y, j) == decode_unpadded(
            alpha,
            y.subrange(4 * (j / 3), 4 * (j / 3) + 4),
        )->Ok_0[j % 3],
{
    let q = j / 4;
    if 3 * q + 3 <= x.len() {
        let g = x.subrange(3 * q, 3 * q + 3);
        assert(sextet(g, j % 4) == sextet(x, j)) by {
            assert(g[0] == x[3 * q] && g[1] == x[3 * q + 1] && g[2] == x[3 * q + 2]);
        }
    }
    let r = j / 3;
    if 4 * r + 4 <= y.len() {
        let t = y.subrange(4 * r, 4 * r + 4);
        assert(t[0] == y[4 * r] && t[1] == y[4 * r + 1] && t[2] == y[4 * r + 2] && t[3] == y[4 * r + 3]);
        assert(decoded_byte(alpha, t, j % 3) == decoded_byte(alpha, y, j));
    }
}

} // verus!
