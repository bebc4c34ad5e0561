//! The different varieties of base64.
use crate::model::{
    decode_value, first_index, lemma_decode_value_absent, lemma_decode_value_at, lemma_first_index,
    valid_config, INVALID_VALUE,
};
use crate::decode::{max_decoded_len, slice_result_view, vec_result_view};
use crate::model::{ascii_chars, decode_spec, encode_spec, encoded_len, DecodeError};
use crate::u6::U6;
use vstd::prelude::*;

verus! {

/// What a configuration provides to the codec: its alphabet, the inverse of
/// its alphabet, and its padding byte. The trait is sealed: only the
/// configuration types of this crate implement it.
pub trait SealedConfig: crate::sealed::Sealed + Sized + Copy {
    /// The 64 symbols, indexed by six-bit value.
    spec fn alphabet(&self) -> Seq<u8>;

    /// The padding byte, if the configuration pads.
    spec fn padding(&self) -> Option<u8>;

    /// Every configuration that can be built is usable.
    proof fn lemma_valid(&self)
        ensures
            valid_config(self.alphabet(), self.padding()),
    ;

    /// Encodes the six bits of input into the 8 bits of output.
    fn encode_u6(self, input: U6) -> (r: u8)
        ensures
            r == self.alphabet()[input@],
    ;

    /// Decodes the encoded byte into the six bits it stands for.
    /// `INVALID_VALUE` is returned on invalid input.
    fn decode_u8(self, input: u8) -> (r: u8)
        ensures
            r == decode_value(self.alphabet(), input),
    ;

    /// Indicates whether this configuration uses padding and if so, which
    /// character to use.
    fn padding_byte(self) -> (r: Option<u8>)
        ensures
            r == self.padding(),
    ;
}

/// Config represents a base64 configuration.
///
/// Each Config provides methods to encode and decode according to the
/// configuration. Custom configurations can be defined using
/// [CustomConfig](struct.CustomConfig.html).
pub trait Config: SealedConfig {
    /// Encode the provided input into a String.
    fn encode(self, input: &[u8]) -> (r: String)
        requires
            encoded_len(input@.len() as int, self.padding() is Some) <= usize::MAX,
        ensures
            r@ == ascii_chars(encode_spec(self.alphabet(), self.padding(), input@)),
    {
        crate::encode::encode(self, input)
    }

    /// Encode the provided input into the provided buffer, returning a &str of
    /// the encoded input. The buffer is overwritten from its beginning, and
    /// grown only when it is too small.
    fn encode_with_buffer<'b>(self, input: &[u8], buffer: &'b mut Vec<u8>) -> (r: &'b str)
        requires
            encoded_len(input@.len() as int, self.padding() is Some) <= usize::MAX,
        ensures
            r@ == ascii_chars(encode_spec(self.alphabet(), self.padding(), input@)),
    {
        crate::encode::encode_with_buffer(self, input, buffer)
    }

    /// Encode the provided input into the provided output slice, which must be
    /// large enough to hold the encoding (see `encoded_output_len`). Returns
    /// the number of bytes written.
    fn encode_slice(self, input: &[u8], output: &mut [u8]) -> (r: usize)
        requires
            encoded_len(input@.len() as int, self.padding() is Some) <= old(output)@.len(),
        ensures
            r == encoded_len(input@.len() as int, self.padding() is Some),
            final(output)@.len() == old(output)@.len(),
            final(output)@.subrange(0, r as int) == encode_spec(self.alphabet(), self.padding(), input@),
            final(output)@.subrange(r as int, final(output)@.len() as int) == old(output)@.subrange(r as int, old(output)@.len() as int),
    {
        crate::encode::encode_slice(self, input, output)
    }

    /// Decode the provided input.
    fn decode(self, input: &[u8]) -> (r: Result<Vec<u8>, DecodeError>)
        ensures
            vec_result_view(r) == decode_spec(self.alphabet(), self.padding(), input@),
    {
        crate::decode::decode(self, input)
    }

    /// Decode the provided input into the provided buffer, returning a &[u8]
    /// of the decoded input. The buffer is overwritten from its beginning, and
    /// grown only when it is too small.
    fn decode_with_buffer<'b>(self, input: &[u8], buffer: &'b mut Vec<u8>) -> (r: Result<&'b [u8], DecodeError>)
        ensures
            slice_result_view(r) == decode_spec(self.alphabet(), self.padding(), input@),
    {
        crate::decode::decode_with_buffer(self, input, buffer)
    }

    /// Decode the provided input into the provided output slice, which must be
    /// at least `maximum_decoded_output_len` long. Returns the number of bytes
    /// written.
    fn decode_slice(self, input: &[u8], output: &mut [u8]) -> (r: Result<usize, DecodeError>)
        requires
            old(output)@.len() >= max_decoded_len(input@.len() as int),
        ensures
            final(output)@.len() == old(output)@.len(),
            match decode_spec(self.alphabet(), self.padding(), input@) {
                Ok(s) => r == Ok::<usize, DecodeError>(s.len() as usize) && final(output)@.subrange(0, s.len() as int) == s,
                Err(e) => r == Err::<usize, DecodeError>(e),
            },
    {
        crate::decode::decode_slice(self, input, output)
    }

    /// Determine the size of encoded output for the given input length.
    fn encoded_output_len(self, input_len: usize) -> (r: usize)
        requires
            encoded_len(input_len as int, self.padding() is Some) <= usize::MAX,
        ensures
            r == encoded_len(input_len as int, self.padding() is Some),
    {
        crate::encode::encoded_output_len(self, input_len)
    }

    /// Determine the maximum size of decoded output for the given input
    /// length. This is an upper bound, not necessarily the decoded size.
    fn maximum_decoded_output_len(self, input_len: usize) -> (r: usize)
        ensures
            r == max_decoded_len(input_len as int),
    {
        crate::decode::maximum_decoded_output_len(input_len)
    }
}

impl Config for Std {}

impl Config for StdNoPad {}

impl Config for UrlSafe {}

impl Config for UrlSafeNoPad {}

impl Config for Crypt {}

impl Config for Fast {}

impl Config for CustomConfig {}

// ---------------------------------------------------------------------------
// Builtin alphabets
pub open spec fn std_symbol(i: int) -> u8 {
    (if i < 26 {
        i + 65
    } else if i < 52 {
        i + 71
    } else if i < 62 {
        i - 4
    } else if i == 62 {
        43
    } else {
        47
    }) as u8
}

pub open spec fn url_safe_symbol(i: int) -> u8 {
    if i == 62 {
        45
    } else if i == 63 {
        95
    } else {
        std_symbol(i)
    }
}

pub open spec fn crypt_symbol(i: int) -> u8 {
    (if i < 12 {
        i + 46
    } else if i < 38 {
        i + 53
    } else {
        i + 59
    }) as u8
}

pub open spec fn fast_symbol(i: int) -> u8 {
    (i + 62) as u8
}

/// `ABCDEFGHIJKLMNOPQRSTUVWXYZabcdefghijklmnopqrstuvwxyz0123456789+/`
pub open spec fn std_alphabet() -> Seq<u8> {
    Seq::new(64, |i: int| std_symbol(i))
}

/// `ABCDEFGHIJKLMNOPQRSTUVWXYZabcdefghijklmnopqrstuvwxyz0123456789-_`
pub open spec fn url_safe_alphabet() -> Seq<u8> {
    Seq::new(64, |i: int| url_safe_symbol(i))
}

/// `./0123456789ABCDEFGHIJKLMNOPQRSTUVWXYZabcdefghijklmnopqrstuvwxyz`
pub open spec fn crypt_alphabet() -> Seq<u8> {
    Seq::new(64, |i: int| crypt_symbol(i))
}

/// ``>?@ABCDEFGHIJKLMNOPQRSTUVWXYZ[\]^_`abcdefghijklmnopqrstuvwxyz{|}``
pub open spec fn fast_alphabet() -> Seq<u8> {
    Seq::new(64, |i: int| fast_symbol(i))
}

proof fn lemma_builtin_alphabets_valid()
    ensures
        valid_config(std_alphabet(), Some(61u8)),
        valid_config(url_safe_alphabet(), Some(61u8)),
        valid_config(crypt_alphabet(), None),
        valid_config(fast_alphabet(), None),
{
}

fn std_encode(v: u8) -> (r: u8)
    requires
        v < 64,
    ensures
        r == std_alphabet()[v as int],
{
    if v < 26 {
        v + 65
    } else if v < 52 {
        v + 71
    } else if v < 62 {
        v - 4
    } else if v == 62 {
        43
    } else {
        47
    }
}

fn url_safe_encode(v: u8) -> (r: u8)
    requires
        v < 64,
    ensures
        r == url_safe_alphabet()[v as int],
{
    if v == 62 {
        45
    } else if v == 63 {
        95
    } else {
        std_encode(v)
    }
}

fn crypt_encode(v: u8) -> (r: u8)
    requires
        v < 64,
    ensures
        r == crypt_alphabet()[v as int],
{
    if v < 12 {
        v + 46
    } else if v < 38 {
        v + 53
    } else {
        v + 59
    }
}

fn fast_encode(v: u8) -> (r: u8)
    requires
        v < 64,
    ensures
        r == fast_alphabet()[v as int],
{
    v + 62
}

fn std_decode(b: u8) -> (r: u8)
    ensures
        r == decode_value(std_alphabet(), b),
{
    let alpha = Ghost(std_alphabet());
    proof {
        lemma_builtin_alphabets_valid();
    }
    let r = if 65 <= b && b <= 90 {
        b - 65
    } else if 97 <= b && b <= 122 {
        b - 71
    } else if 48 <= b && b <= 57 {
        b + 4
    } else if b == 43 {
        62
    } else if b == 47 {
        63
    } else {
        proof {
            assert forall|i: int| 0 <= i < 64 implies #[trigger] alpha@[i] != b by {}
            lemma_decode_value_absent(alpha@, b);
        }
        return 255;
    };
    proof {
        lemma_decode_value_at(alpha@, r as int);
    }
    r
}

fn url_safe_decode(b: u8) -> (r: u8)
    ensures
        r == decode_value(url_safe_alphabet(), b),
{
    let alpha = Ghost(url_safe_alphabet());
    proof {
        lemma_builtin_alphabets_valid();
    }
    let r = if 65 <= b && b <= 90 {
        b - 65
    } else if 97 <= b && b <= 122 {
        b - 71
    } else if 48 <= b && b <= 57 {
        b + 4
    } else if b == 45 {
        62
    } else if b == 95 {
        63
    } else {
        proof {
            assert forall|i: int| 0 <= i < 64 implies #[trigger] alpha@[i] != b by {}
            lemma_decode_value_absent(alpha@, b);
        }
        return 255;
    };
    proof {
        lemma_decode_value_at(alpha@, r as int);
    }
    r
}

fn crypt_decode(b: u8) -> (r: u8)
    ensures
        r == decode_value(crypt_alphabet(), b),
{
    let alpha = Ghost(crypt_alphabet());
    proof {
        lemma_builtin_alphabets_valid();
    }
    let r = if 46 <= b && b <= 57 {
        b - 46
    } else if 65 <= b && b <= 90 {
        b - 53
    } else if 97 <= b && b <= 122 {
        b - 59
    } else {
        proof {
            assert forall|i: int| 0 <= i < 64 implies #[trigger] alpha@[i] != b by {}
            lemma_decode_value_absent(alpha@, b);
        }
        return 255;
    };
    proof {
        lemma_decode_value_at(alpha@, r as int);
    }
    r
}

fn fast_decode(b: u8) -> (r: u8)
    ensures
        r == decode_value(fast_alphabet(), b),
{
    let alpha = Ghost(fast_alphabet());
    proof {
        lemma_builtin_alphabets_valid();
    }
    if 62 <= b && b <= 125 {
        proof {
            lemma_decode_value_at(alpha@, b - 62);
        }
        b - 62
    } else {
        proof {
            assert forall|i: int| 0 <= i < 64 implies #[trigger] alpha@[i] != b by {}
            lemma_decode_value_absent(alpha@, b);
        }
        255
    }
}

/// The standard character set (uses `+` and `/`) with `=` padding.
#[derive(Debug, Default, Clone, Copy)]
pub struct Std;

/// The standard character set (uses `+` and `/`) *without* padding.
#[derive(Debug, Default, Clone, Copy)]
pub struct StdNoPad;

/// The URL safe character set (uses `-` and `_`) with `=` padding.
#[derive(Debug, Default, Clone, Copy)]
pub struct UrlSafe;

/// The URL safe character set (uses `-` and `_`) *without* padding.
#[derive(Debug, Default, Clone, Copy)]
pub struct UrlSafeNoPad;

/// The crypt(3) character set
/// (uses `./0123456789ABCDEFGHIJKLMNOPQRSTUVWXYZabcdefghijklmnopqrstuvwxyz`)
/// *without* padding.
#[derive(Debug, Default, Clone, Copy)]
pub struct Crypt;

/// The Fast character set
/// (uses ``>?@ABCDEFGHIJKLMNOPQRSTUVWXYZ[\]^_`abcdefghijklmnopqrstuvwxyz{|}``)
/// *without* padding.
#[derive(Debug, Default, Clone, Copy)]
pub struct Fast;

impl SealedConfig for Std {
    open spec fn alphabet(&self) -> Seq<u8> {
        std_alphabet()
    }

    open spec fn padding(&self) -> Option<u8> {
        Some(61u8)
    }

    proof fn lemma_valid(&self) {
        lemma_builtin_alphabets_valid();
    }

    fn encode_u6(self, input: U6) -> (r: u8) {
        std_encode(input.get())
    }

    fn decode_u8(self, input: u8) -> (r: u8) {
        std_decode(input)
    }

    fn padding_byte(self) -> (r: Option<u8>) {
        Some(61u8)
    }
}

impl SealedConfig for StdNoPad {
    open spec fn alphabet(&self) -> Seq<u8> {
        std_alphabet()
    }

    open spec fn padding(&self) -> Option<u8> {
        None
    }

    proof fn lemma_valid(&self) {
        lemma_builtin_alphabets_valid();
    }

    fn encode_u6(self, input: U6) -> (r: u8) {
        std_encode(input.get())
    }

    fn decode_u8(self, input: u8) -> (r: u8) {
        std_decode(input)
    }

    fn padding_byte(self) -> (r: Option<u8>) {
        None
    }
}

impl SealedConfig for UrlSafe {
    open spec fn alphabet(&self) -> Seq<u8> {
        url_safe_alphabet()
    }

    open spec fn padding(&self) -> Option<u8> {
        Some(61u8)
    }

    proof fn lemma_valid(&self) {
        lemma_builtin_alphabets_valid();
    }

    fn encode_u6(self, input: U6) -> (r: u8) {
        url_safe_encode(input.get())
    }

    fn decode_u8(self, input: u8) -> (r: u8) {
        url_safe_decode(input)
    }

    fn padding_byte(self) -> (r: Option<u8>) {
        Some(61u8)
    }
}

impl SealedConfig for UrlSafeNoPad {
    open spec fn alphabet(&self) -> Seq<u8> {
        url_safe_alphabet()
    }

    open spec fn padding(&self) -> Option<u8> {
        None
    }

    proof fn lemma_valid(&self) {
        lemma_builtin_alphabets_valid();
    }

    fn encode_u6(self, input: U6) -> (r: u8) {
        url_safe_encode(input.get())
    }

    fn decode_u8(self, input: u8) -> (r: u8) {
        url_safe_decode(input)
    }

    fn padding_byte(self) -> (r: Option<u8>) {
        None
    }
}

impl SealedConfig for Crypt {
    open spec fn alphabet(&self) -> Seq<u8> {
        crypt_alphabet()
    }

    open spec fn padding(&self) -> Option<u8> {
        None
    }

    proof fn lemma_valid(&self) {
        lemma_builtin_alphabets_valid();
    }

    fn encode_u6(self, input: U6) -> (r: u8) {
        crypt_encode(input.get())
    }

    fn decode_u8(self, input: u8) -> (r: u8) {
        crypt_decode(input)
    }

    fn padding_byte(self) -> (r: Option<u8>) {
        None
    }
}

impl SealedConfig for Fast {
    open spec fn alphabet(&self) -> Seq<u8> {
        fast_alphabet()
    }

    open spec fn padding(&self) -> Option<u8> {
        None
    }

    proof fn lemma_valid(&self) {
        lemma_builtin_alphabets_valid();
    }

    fn encode_u6(self, input: U6) -> (r: u8) {
        fast_encode(input.get())
    }

    fn decode_u8(self, input: u8) -> (r: u8) {
        fast_decode(input)
    }

    fn padding_byte(self) -> (r: Option<u8>) {
        None
    }
}

// ---------------------------------------------------------------------------
// Custom configurations
/// A custom defined alphabet and padding.
///
/// All characters of the alphabet, as well as the padding character (if any),
/// must be ascii characters. A `CustomConfig` can only be obtained from a
/// builder, which checks this.
#[derive(Debug, Clone, Copy)]
pub struct CustomConfig {
    encode_table: [u8; 64],
    decode_table: [u8; 256],
    padding_byte: Option<u8>,
}

impl CustomConfig {
    #[verifier::type_invariant]
    spec fn tables_agree(self) -> bool {
        &&& valid_config(self.encode_table@, self.padding_byte)
        &&& forall|b: u8| #[trigger]
            self.decode_table@[b as int] == decode_value(self.encode_table@, b)
    }

    /// See [Config::encode](trait.Config.html#method.encode).
    pub fn encode(&self, input: &[u8]) -> (r: String)
        requires
            encoded_len(input@.len() as int, self.padding() is Some) <= usize::MAX,
        ensures
            r@ == ascii_chars(encode_spec(self.alphabet(), self.padding(), input@)),
    {
        crate::encode::encode(*self, input)
    }

    /// See [Config::encode_with_buffer](trait.Config.html#method.encode_with_buffer).
    pub fn encode_with_buffer<'b>(&self, input: &[u8], buffer: &'b mut Vec<u8>) -> (r: &'b str)
        requires
            encoded_len(input@.len() as int, self.padding() is Some) <= usize::MAX,
        ensures
            r@ == ascii_chars(encode_spec(self.alphabet(), self.padding(), input@)),
    {
        crate::encode::encode_with_buffer(*self, input, buffer)
    }

    /// See [Config::encode_slice](trait.Config.html#method.encode_slice).
    pub fn encode_slice(&self, input: &[u8], output: &mut [u8]) -> (r: usize)
        requires
            encoded_len(input@.len() as int, self.padding() is Some) <= old(output)@.len(),
        ensures
            r == encoded_len(input@.len() as int, self.padding() is Some),
            final(output)@.len() == old(output)@.len(),
            final(output)@.subrange(0, r as int) == encode_spec(self.alphabet(), self.padding(), input@),
            final(output)@.subrange(r as int, final(output)@.len() as int) == old(output)@.subrange(r as int, old(output)@.len() as int),
    {
        crate::encode::encode_slice(*self, input, output)
    }

    /// See [Config::decode](trait.Config.html#method.decode).
    pub fn decode(&self, input: &[u8]) -> (r: Result<Vec<u8>, DecodeError>)
        ensures
            vec_result_view(r) == decode_spec(self.alphabet(), self.padding(), input@),
    {
        crate::decode::decode(*self, input)
    }

    /// See [Config::decode_with_buffer](trait.Config.html#method.decode_with_buffer).
    pub fn decode_with_buffer<'b>(&self, input: &[u8], buffer: &'b mut Vec<u8>) -> (r: Result<&'b [u8], DecodeError>)
        ensures
            slice_result_view(r) == decode_spec(self.alphabet(), self.padding(), input@),
    {
        crate::decode::decode_with_buffer(*self, input, buffer)
    }

    /// See [Config::decode_slice](trait.Config.html#method.decode_slice).
    pub fn decode_slice(&self, input: &[u8], output: &mut [u8]) -> (r: Result<usize, DecodeError>)
        requires
            old(output)@.len() >= max_decoded_len(input@.len() as int),
        ensures
            final(output)@.len() == old(output)@.len(),
            match decode_spec(self.alphabet(), self.padding(), input@) {
                Ok(s) => r == Ok::<usize, DecodeError>(s.len() as usize) && final(output)@.subrange(0, s.len() as int) == s,
                Err(e) => r == Err::<usize, DecodeError>(e),
            },
    {
        crate::decode::decode_slice(*self, input, output)
    }

    /// See [Config::encoded_output_len](trait.Config.html#method.encoded_output_len).
    pub fn encoded_output_len(&self, input_len: usize) -> (r: usize)
        requires
            encoded_len(input_len as int, self.padding() is Some) <= usize::MAX,
        ensures
            r == encoded_len(input_len as int, self.padding() is Some),
    {
        crate::encode::encoded_output_len(*self, input_len)
    }

    /// See [Config::maximum_decoded_output_len](trait.Config.html#method.maximum_decoded_output_len).
    pub fn maximum_decoded_output_len(&self, input_len: usize) -> (r: usize)
        ensures
            r == max_decoded_len(input_len as int),
    {
        crate::decode::maximum_decoded_output_len(input_len)
    }

    /// Start creating a new CustomConfig with the provided alphabet.
    /// The provided alphabet needs to be 64 non-repeating ascii bytes.
    pub fn with_alphabet(alphabet: &[u8; 64]) -> (r: CustomConfigBuilder)
        ensures
            r.alphabet@ == alphabet@,
            r.padding_byte == Some(61u8),
    {
        CustomConfigBuilder::with_alphabet(*alphabet)
    }
}

impl SealedConfig for CustomConfig {
    // Every value keeps `tables_agree`; the fallback only makes that
    // visible to proofs that cannot consult the invariant.
    closed spec fn alphabet(&self) -> Seq<u8> {
        if self.tables_agree() {
            self.encode_table@
        } else {
            std_alphabet()
        }
    }

    closed spec fn padding(&self) -> Option<u8> {
        if self.tables_agree() {
            self.padding_byte
        } else {
            None
        }
    }

    proof fn lemma_valid(&self) {
        lemma_builtin_alphabets_valid();
    }

    fn encode_u6(self, input: U6) -> (r: u8) {
        proof {
            use_type_invariant(&self);
        }
        self.encode_table[input.get() as usize]
    }

    fn decode_u8(self, input: u8) -> (r: u8) {
        proof {
            use_type_invariant(&self);
        }
        self.decode_table[input as usize]
    }

    fn padding_byte(self) -> (r: Option<u8>) {
        proof {
            use_type_invariant(&self);
        }
        self.padding_byte
    }
}

/// Errors that can occur when building a `CustomConfig`.
#[derive(Debug, Clone, Copy, PartialEq, Eq, Structural)]
pub enum CustomConfigError {
    /// The alphabet is not 64 characters long.
    AlphabetNot64Bytes,
    /// The alphabet contains non-ascii characters.
    NonAscii(u8),
    /// The alphabet contains duplicate values.
    DuplicateValue(u8),
}

/// Positions of `alpha` holding a byte that is not ASCII.
pub open spec fn non_ascii_at(alpha: Seq<u8>) -> spec_fn(int) -> bool {
    |i: int| alpha[i] >= 128
}

/// Positions of `alpha` holding a byte that an earlier position holds too.
pub open spec fn repeat_at(alpha: Seq<u8>) -> spec_fn(int) -> bool {
    |j: int| exists|i: int| 0 <= i < j && alpha[i] == alpha[j]
}

/// The error that building a configuration from `alpha` and `pad` reports,
/// checked in this order: the length, the first non-ASCII byte of the
/// alphabet, the padding byte, the first byte that repeats an earlier one.
pub open spec fn build_error(alpha: Seq<u8>, pad: Option<u8>) -> Option<CustomConfigError> {
    let na = first_index(non_ascii_at(alpha), 0, 64);
    let rep = first_index(repeat_at(alpha), 0, 64);
    if alpha.len() != 64 {
        Some(CustomConfigError::AlphabetNot64Bytes)
    } else if na < 64 {
        Some(CustomConfigError::NonAscii(alpha[na]))
    } else if pad is Some && pad->0 >= 128 {
        Some(CustomConfigError::NonAscii(pad->0))
    } else if pad is Some && alpha.contains(pad->0) {
        Some(CustomConfigError::DuplicateValue(pad->0))
    } else if rep < 64 {
        Some(CustomConfigError::DuplicateValue(alpha[rep]))
    } else {
        None
    }
}

/// The configurations that build successfully are the usable ones.
pub proof fn lemma_build_error_none_iff_valid(alpha: Seq<u8>, pad: Option<u8>)
    ensures
        build_error(alpha, pad) is None <==> valid_config(alpha, pad),
{
    if alpha.len() == 64 {
        let na = first_index(non_ascii_at(alpha), 0, 64);
        let rep = first_index(repeat_at(alpha), 0, 64);
        if valid_config(alpha, pad) {
            assert forall|j: int| 0 <= j < 64 implies !#[trigger] non_ascii_at(alpha)(j) by {}
            lemma_first_index(non_ascii_at(alpha), 64, 64);
            assert forall|j: int| 0 <= j < 64 implies !#[trigger] repeat_at(alpha)(j) by {
                if exists|i: int| 0 <= i < j && alpha[i] == alpha[j] {
                    let i = choose|i: int| 0 <= i < j && alpha[i] == alpha[j];
                    assert(alpha[i] != alpha[j]);
                }
            }
            lemma_first_index(repeat_at(alpha), 64, 64);
            if pad is Some {
                assert(!alpha.contains(pad->0));
            }
        }
        if build_error(alpha, pad) is None {
            lemma_first_index_none(non_ascii_at(alpha), 0, 64);
            lemma_first_index_none(repeat_at(alpha), 0, 64);
            assert forall|i: int, j: int|
                0 <= i < 64 && 0 <= j < 64 && i != j implies #[trigger] alpha[i]
                != #[trigger] alpha[j] by {
                if i < j {
                    assert(!repeat_at(alpha)(j));
                } else {
                    assert(!repeat_at(alpha)(i));
                }
            }
            assert forall|i: int| 0 <= i < 64 implies #[trigger] alpha[i] < 128 by {
                assert(!non_ascii_at(alpha)(i));
            }
        }
    }
}

proof fn lemma_first_index_none(p: spec_fn(int) -> bool, i: int, lim: int)
    requires
        0 <= i <= lim,
        first_index(p, i, lim) >= lim,
    ensures
        forall|j: int| i <= j < lim ==> !#[trigger] p(j),
    decreases lim - i,
{
    if i < lim {
        lemma_first_index_none(p, i + 1, lim);
    }
}

/// Checks `alphabet` and `padding_byte` and builds the tables of the
/// configuration they describe.
fn build_tables(alphabet: &[u8], padding_byte: Option<u8>) -> (r: Result<
    CustomConfig,
    CustomConfigError,
>)
    ensures
        match r {
            Ok(cfg) => build_error(alphabet@, padding_byte) is None && cfg.alphabet()
                == alphabet@ && cfg.padding() == padding_byte,
            Err(e) => build_error(alphabet@, padding_byte) == Some(e),
        },
{
    let ghost alpha = alphabet@;
    if alphabet.len() != 64 {
        return Err(CustomConfigError::AlphabetNot64Bytes);
    }
    let mut i: usize = 0;
    while i < 64
        invariant
            alpha == alphabet@,
            alpha.len() == 64,
            0 <= i <= 64,
            forall|j: int| 0 <= j < i ==> !#[trigger] non_ascii_at(alpha)(j),
        decreases 64 - i,
    {
        if alphabet[i] >= 128 {
            proof {
                lemma_first_index(non_ascii_at(alpha), i as int, 64);
            }
            return Err(CustomConfigError::NonAscii(alphabet[i]));
        }
        i = i + 1;
    }
    proof {
        lemma_first_index(non_ascii_at(alpha), 64, 64);
    }
    if let Some(pad) = padding_byte {
        if pad >= 128 {
            return Err(CustomConfigError::NonAscii(pad));
        }
        let mut k: usize = 0;
        while k < 64
            invariant
                alpha == alphabet@,
                alpha.len() == 64,
                0 <= k <= 64,
                forall|j: int| 0 <= j < k ==> alpha[j] != pad,
                first_index(non_ascii_at(alpha), 0, 64) == 64,
                padding_byte == Some(pad),
                pad < 128,
            decreases 64 - k,
        {
            if alphabet[k] == pad {
                proof {
                    assert(alpha[k as int] == pad);
                    assert(alpha.contains(pad));
                }
                return Err(CustomConfigError::DuplicateValue(pad));
            }
            k = k + 1;
        }
        proof {
            assert(!alpha.contains(pad));
        }
    }
    let mut decode_table: [u8; 256] = [INVALID_VALUE; 256];
    let mut encode_table: [u8; 64] = [0u8; 64];
    let mut i: usize = 0;
    while i < 64
        invariant
            alpha == alphabet@,
            alpha.len() == 64,
            0 <= i <= 64,
            forall|j: int| 0 <= j < i ==> #[trigger] encode_table@[j] == alpha[j],
            forall|j: int| 0 <= j < i ==> decode_table@[#[trigger] alpha[j] as int] == j,
            forall|b: int|
                0 <= b < 256 && #[trigger] decode_table@[b] != INVALID_VALUE ==> decode_table@[b]
                    < i && alpha[decode_table@[b] as int] == b,
            forall|j: int| 0 <= j < i ==> !#[trigger] repeat_at(alpha)(j),
            first_index(non_ascii_at(alpha), 0, 64) == 64,
            padding_byte is Some ==> padding_byte->0 < 128 && !alpha.contains(padding_byte->0),
        decreases 64 - i,
    {
        let b = alphabet[i];
        if decode_table[b as usize] != INVALID_VALUE {
            proof {
                let w = decode_table@[b as int] as int;
                assert(0 <= w < i && alpha[w] == alpha[i as int]);
                assert(repeat_at(alpha)(i as int));
                lemma_first_index(repeat_at(alpha), i as int, 64);
            }
            return Err(CustomConfigError::DuplicateValue(b));
        }
        proof {
            assert forall|j: int| 0 <= j < i implies alpha[j] != b by {
                assert(decode_table@[alpha[j] as int] == j);
            }
            assert(!repeat_at(alpha)(i as int));
        }
        decode_table[b as usize] = i as u8;
        encode_table[i] = b;
        i = i + 1;
    }
    proof {
        lemma_first_index(repeat_at(alpha), 64, 64);
        assert(encode_table@ =~= alpha);
        lemma_build_error_none_iff_valid(alpha, padding_byte);
        assert forall|b: u8| #[trigger] decode_table@[b as int] == decode_value(alpha, b) by {
            if decode_table@[b as int] != INVALID_VALUE {
                lemma_decode_value_at(alpha, decode_table@[b as int] as int);
            } else {
                assert forall|j: int| 0 <= j < 64 implies #[trigger] alpha[j] != b by {
                    assert(decode_table@[alpha[j] as int] == j);
                }
                lemma_decode_value_absent(alpha, b);
            }
        }
    }
    let cfg = CustomConfig { encode_table, decode_table, padding_byte };
    Ok(cfg)
}

/// A constructor for custom configurations.
#[derive(Debug, Clone, Copy)]
pub struct CustomConfigBuilder {
    pub alphabet: [u8; 64],
    pub padding_byte: Option<u8>,
}

impl CustomConfigBuilder {
    /// Set the alphabet to use, with `=` as padding.
    /// The provided alphabet needs to be 64 non-repeating ascii bytes.
    pub fn with_alphabet(alphabet: [u8; 64]) -> (r: Self)
        ensures
            r.alphabet == alphabet,
            r.padding_byte == Some(61u8),
    {
        CustomConfigBuilder { alphabet: alphabet, padding_byte: Some(61u8) }
    }

    /// Set which character to use for padding.
    pub fn with_padding(self, padding_byte: u8) -> (r: Self)
        ensures
            r.alphabet == self.alphabet,
            r.padding_byte == Some(padding_byte),
    {
        CustomConfigBuilder { alphabet: self.alphabet, padding_byte: Some(padding_byte) }
    }

    /// Do not use any padding.
    pub fn no_padding(self) -> (r: Self)
        ensures
            r.alphabet == self.alphabet,
            r.padding_byte == None::<u8>,
    {
        CustomConfigBuilder { alphabet: self.alphabet, padding_byte: None }
    }

    /// Validate and build the `CustomConfig`.
    pub fn build(self) -> (r: Result<CustomConfig, CustomConfigError>)
        ensures
            match r {
                Ok(cfg) => build_error(self.alphabet@, self.padding_byte) is None
                    && cfg.alphabet() == self.alphabet@ && cfg.padding() == self.padding_byte,
                Err(e) => build_error(self.alphabet@, self.padding_byte) == Some(e),
            },
    {
        build_tables(self.alphabet.as_slice(), self.padding_byte)
    }

    /// Validate and build the `CustomConfig`, for an alphabet and padding
    /// that are known to be valid.
    pub fn build_or_die(self) -> (r: CustomConfig)
        requires
            valid_config(self.alphabet@, self.padding_byte),
        ensures
            r.alphabet() == self.alphabet@,
            r.padding() == self.padding_byte,
    {
        proof {
            lemma_build_error_none_iff_valid(self.alphabet@, self.padding_byte);
        }
        match self.build() {
            Ok(cfg) => cfg,
            Err(_) => vstd::pervasive::unreached(),
        }
    }
}

/// A constructor for custom configurations from an alphabet of any length.
#[derive(Debug, Clone, Copy)]
pub struct ConfigBuilder<'a> {
    pub alphabet: &'a [u8],
    pub padding_byte: Option<u8>,
}

impl<'a> ConfigBuilder<'a> {
    /// Set the alphabet to use, with `=` as padding.
    /// The provided alphabet needs to be 64 non-repeating ascii bytes.
    pub fn with_alphabet(alphabet: &'a [u8]) -> (r: Self)
        ensures
            r.alphabet@ == alphabet@,
            r.padding_byte == Some(61u8),
    {
        ConfigBuilder { alphabet, padding_byte: Some(61u8) }
    }

    /// Set which character to use for padding.
    pub fn with_padding(self, padding_byte: u8) -> (r: Self)
        ensures
            r.alphabet@ == self.alphabet@,
            r.padding_byte == Some(padding_byte),
    {
        ConfigBuilder { alphabet: self.alphabet, padding_byte: Some(padding_byte) }
    }

    /// Do not use any padding.
    pub fn no_padding(self) -> (r: Self)
        ensures
            r.alphabet@ == self.alphabet@,
            r.padding_byte == None::<u8>,
    {
        ConfigBuilder { alphabet: self.alphabet, padding_byte: None }
    }

    /// Validate and build the `CustomConfig`.
    pub fn build(self) -> (r: Result<CustomConfig, CustomConfigError>)
        ensures
            match r {
                Ok(cfg) => build_error(self.alphabet@, self.padding_byte) is None
                    && cfg.alphabet() == self.alphabet@ && cfg.padding() == self.padding_byte,
                Err(e) => build_error(self.alphabet@, self.padding_byte) == Some(e),
            },
    {
        build_tables(self.alphabet, self.padding_byte)
    }
}

} // verus!
