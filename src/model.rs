//! Mathematical model of base64: alphabets, the encoded form of a byte
//! sequence, and the result of decoding a byte sequence.
use vstd::prelude::*;

verus! {

/// Value stored in a decode table for a byte that is not in the alphabet.
pub const INVALID_VALUE: u8 = 255;

/// Errors that can occur during decoding.
#[derive(Debug, Clone, Copy, PartialEq, Eq, Structural)]
pub enum DecodeError {
    /// An invalid byte was found in the input. The offending byte is provided.
    InvalidByte(u8),
    /// The length of the input is invalid.
    InvalidLength,
    /// The last non-padding byte of input has discarded bits and those bits are
    /// not zero. While this could be decoded it likely represents a corrupted or
    /// invalid encoding.
    InvalidTrailingBits,
}

/// The six-bit value that `b` stands for in `alpha`, or `INVALID_VALUE`.
pub open spec fn decode_value(alpha: Seq<u8>, b: u8) -> u8 {
    if exists|i: int| 0 <= i < 64 && alpha[i] == b {
        (choose|i: int| 0 <= i < 64 && alpha[i] == b) as u8
    } else {
        INVALID_VALUE
    }
}

/// A usable configuration: 64 distinct ASCII bytes, and a padding byte (if
/// any) that is ASCII and not one of them.
pub open spec fn valid_config(alpha: Seq<u8>, pad: Option<u8>) -> bool {
    &&& alpha.len() == 64
    &&& forall|i: int, j: int|
        0 <= i < 64 && 0 <= j < 64 && i != j ==> #[trigger] alpha[i] != #[trigger] alpha[j]
    &&& forall|i: int| 0 <= i < 64 ==> #[trigger] alpha[i] < 128
    &&& match pad {
        Some(p) => p < 128 && forall|i: int| 0 <= i < 64 ==> #[trigger] alpha[i] != p,
        None => true,
    }
}

// ---------------------------------------------------------------------------
// Encoding
/// Byte `i` of `x`, or zero past its end.
pub open spec fn byte_or_zero(x: Seq<u8>, i: int) -> int {
    if 0 <= i < x.len() {
        x[i] as int
    } else {
        0
    }
}

/// Six-bit group `k` (of four) of the bytes `a`, `b`, `c`, in big-endian
/// bit order.
pub open spec fn group_sextet(a: int, b: int, c: int, k: int) -> int {
    if k == 0 {
        a / 4
    } else if k == 1 {
        (a % 4) * 16 + b / 16
    } else if k == 2 {
        (b % 16) * 4 + c / 64
    } else {
        c % 64
    }
}

/// The six-bit group written at output position `i` when encoding `x`; a
/// partial last group reads zero bits past the end of `x`.
pub open spec fn sextet(x: Seq<u8>, i: int) -> int {
    let q = i / 4;
    group_sextet(byte_or_zero(x, 3 * q), byte_or_zero(x, 3 * q + 1), byte_or_zero(x, 3 * q + 2), i % 4)
}

/// Number of alphabet symbols that encode `n` bytes.
pub open spec fn unpadded_len(n: int) -> int {
    4 * (n / 3) + if n % 3 == 0 {
        0
    } else {
        n % 3 + 1
    }
}

/// Length of the encoding of `n` bytes, padded to a multiple of four or not.
pub open spec fn encoded_len(n: int, padded: bool) -> int {
    if padded && n % 3 != 0 {
        4 * (n / 3) + 4
    } else {
        unpadded_len(n)
    }
}

pub open spec fn pad_or_zero(pad: Option<u8>) -> u8 {
    match pad {
        Some(p) => p,
        None => 0,
    }
}

/// The base64 encoding of `x`.
pub open spec fn encode_spec(alpha: Seq<u8>, pad: Option<u8>, x: Seq<u8>) -> Seq<u8> {
    Seq::new(
        encoded_len(x.len() as int, pad is Some) as nat,
        |i: int|
            if i < unpadded_len(x.len() as int) {
                alpha[sextet(x, i)]
            } else {
                pad_or_zero(pad)
            },
    )
}

/// The symbols of `x` read as characters.
pub open spec fn ascii_chars(x: Seq<u8>) -> Seq<char> {
    Seq::new(x.len(), |i: int| x[i] as char)
}

// ---------------------------------------------------------------------------
// Decoding
pub open spec fn is_valid_symbol(alpha: Seq<u8>, b: u8) -> bool {
    decode_value(alpha, b) != INVALID_VALUE
}

/// `y` without up to two trailing padding bytes.
pub open spec fn strip_padding(y: Seq<u8>, p: u8) -> Seq<u8> {
    if y.len() >= 2 && y[y.len() - 1] == p && y[y.len() - 2] == p {
        y.take(y.len() - 2)
    } else if y.len() >= 1 && y[y.len() - 1] == p {
        y.take(y.len() - 1)
    } else {
        y
    }
}

/// The first position in `i..lim` at which `p` holds, or `lim`.
pub open spec fn first_index(p: spec_fn(int) -> bool, i: int, lim: int) -> int
    decreases lim - i,
{
    if i >= lim {
        lim
    } else if p(i) {
        i
    } else {
        first_index(p, i + 1, lim)
    }
}

/// Positions of `y` that hold a byte outside the alphabet.
pub open spec fn invalid_at(alpha: Seq<u8>, y: Seq<u8>) -> spec_fn(int) -> bool {
    |i: int| !is_valid_symbol(alpha, y[i])
}

/// Number of bytes that `m` unpadded symbols decode to.
pub open spec fn decoded_len(m: int) -> int {
    3 * (m / 4) + if m % 4 == 0 {
        0
    } else {
        m % 4 - 1
    }
}

/// Output byte `k` (of three) of a group whose symbols have the six-bit
/// values `v0` to `v3`.
pub open spec fn group_byte(v0: int, v1: int, v2: int, v3: int, k: int) -> int {
    if k == 0 {
        v0 * 4 + v1 / 16
    } else if k == 1 {
        (v1 % 16) * 16 + v2 / 4
    } else {
        (v2 % 4) * 64 + v3
    }
}

/// Output byte `j` when decoding the unpadded symbols `y`.
pub open spec fn decoded_byte(alpha: Seq<u8>, y: Seq<u8>, j: int) -> u8 {
    let q = j / 3;
    group_byte(
        decode_value(alpha, y[4 * q]) as int,
        decode_value(alpha, y[4 * q + 1]) as int,
        decode_value(alpha, y[4 * q + 2]) as int,
        decode_value(alpha, y[4 * q + 3]) as int,
        j % 3,
    ) as u8
}

/// The last symbol of a partial group carries bits that no output byte uses,
/// and they are not zero.
pub open spec fn has_trailing_bits(alpha: Seq<u8>, y: Seq<u8>) -> bool {
    let base = 4 * (y.len() as int / 4);
    if y.len() as int % 4 == 2 {
        decode_value(alpha, y[base + 1]) % 16 != 0
    } else if y.len() as int % 4 == 3 {
        decode_value(alpha, y[base + 2]) % 4 != 0
    } else {
        false
    }
}

/// Decoding of symbols from which any padding has been removed.
pub open spec fn decode_unpadded(alpha: Seq<u8>, y: Seq<u8>) -> Result<Seq<u8>, DecodeError> {
    let m = y.len() as int;
    let lim = if m % 4 == 1 {
        4 * (m / 4)
    } else {
        m
    };
    let f = first_index(invalid_at(alpha, y), 0, lim);
    if f < lim {
        Err(DecodeError::InvalidByte(y[f]))
    } else if m % 4 == 1 {
        Err(DecodeError::InvalidLength)
    } else if has_trailing_bits(alpha, y) {
        Err(DecodeError::InvalidTrailingBits)
    } else {
        Ok(Seq::new(decoded_len(m) as nat, |j: int| decoded_byte(alpha, y, j)))
    }
}

/// The result of decoding `x`.
pub open spec fn decode_spec(alpha: Seq<u8>, pad: Option<u8>, x: Seq<u8>) -> Result<
    Seq<u8>,
    DecodeError,
> {
    match pad {
        Some(p) => if x.len() % 4 != 0 {
            Err(DecodeError::InvalidLength)
        } else {
            decode_unpadded(alpha, strip_padding(x, p))
        },
        None => decode_unpadded(alpha, x),
    }
}

// ---------------------------------------------------------------------------
// Facts about the definitions
/// `first_index` finds `k` when `p` fails before `k` and holds at `k`.
pub proof fn lemma_first_index(p: spec_fn(int) -> bool, k: int, lim: int)
    requires
        0 <= k <= lim,
        forall|j: int| 0 <= j < k ==> !#[trigger] p(j),
        k < lim ==> p(k),
    ensures
        first_index(p, 0, lim) == k,
{
    lemma_first_index_from(p, 0, k, lim);
}

proof fn lemma_first_index_from(p: spec_fn(int) -> bool, i: int, k: int, lim: int)
    requires
        0 <= i <= k <= lim,
        forall|j: int| 0 <= j < k ==> !#[trigger] p(j),
        k < lim ==> p(k),
    ensures
        first_index(p, i, lim) == k,
    decreases k - i,
{
    if i < k {
        lemma_first_index_from(p, i + 1, k, lim);
    }
}

/// What `first_index` returns: a position in `i..=lim` before which `p`
/// fails, and at which `p` holds unless it is `lim`.
pub proof fn lemma_first_index_spec(p: spec_fn(int) -> bool, i: int, lim: int)
    requires
        i <= lim,
    ensures
        i <= first_index(p, i, lim) <= lim,
        forall|j: int| i <= j < first_index(p, i, lim) ==> !#[trigger] p(j),
        first_index(p, i, lim) < lim ==> p(first_index(p, i, lim)),
    decreases lim - i,
{
    if i < lim && !p(i) {
        lemma_first_index_spec(p, i + 1, lim);
    }
}

/// A sextet of `x` that reads only bytes below `len` is a sextet of any
/// sequence that agrees with `x` there.
pub proof fn lemma_sextet_agree(x: Seq<u8>, z: Seq<u8>, i: int, len: int)
    requires
        0 <= i,
        3 * (i / 4) + 3 <= len,
        len <= x.len(),
        len <= z.len(),
        forall|k: int| 0 <= k < len ==> #[trigger] x[k] == z[k],
    ensures
        sextet(x, i) == sextet(z, i),
{
    let q = i / 4;
    assert(x[3 * q] == z[3 * q]);
    assert(x[3 * q + 1] == z[3 * q + 1]);
    assert(x[3 * q + 2] == z[3 * q + 2]);
}

/// After whole groups `u`, the sextets of `u + v` are those of `v`.
pub proof fn lemma_sextet_shift(u: Seq<u8>, v: Seq<u8>, i: int)
    requires
        u.len() % 3 == 0,
        4 * (u.len() / 3) <= i,
    ensures
        sextet(u + v, i) == sextet(v, i - 4 * (u.len() / 3)),
{
    let g = u.len() / 3;
    let i2 = i - 4 * g;
    assert(i / 4 == i2 / 4 + g && i % 4 == i2 % 4);
    let q = i2 / 4;
    assert(byte_or_zero(u + v, 3 * (q + g)) == byte_or_zero(v, 3 * q));
    assert(byte_or_zero(u + v, 3 * (q + g) + 1) == byte_or_zero(v, 3 * q + 1));
    assert(byte_or_zero(u + v, 3 * (q + g) + 2) == byte_or_zero(v, 3 * q + 2));
}

/// In an alphabet without repeats, the symbol at position `i` decodes to `i`.
pub proof fn lemma_decode_value_at(alpha: Seq<u8>, i: int)
    requires
        alpha.len() == 64,
        forall|a: int, b: int|
            0 <= a < 64 && 0 <= b < 64 && a != b ==> #[trigger] alpha[a] != #[trigger] alpha[b],
        0 <= i < 64,
    ensures
        decode_value(alpha, alpha[i]) == i,
{
    let b = alpha[i];
    assert(exists|j: int| 0 <= j < 64 && alpha[j] == b);
    let c = choose|j: int| 0 <= j < 64 && alpha[j] == b;
    assert(alpha[c] == alpha[i]);
}

/// A byte that no position of the alphabet holds decodes to `INVALID_VALUE`.
pub proof fn lemma_decode_value_absent(alpha: Seq<u8>, b: u8)
    requires
        forall|i: int| 0 <= i < 64 ==> #[trigger] alpha[i] != b,
    ensures
        decode_value(alpha, b) == INVALID_VALUE,
{
}

} // verus!
