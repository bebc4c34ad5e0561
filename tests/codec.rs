use radix64::{
    Config, ConfigBuilder, CustomConfig, CustomConfigError, DecodeError, Display, CRYPT, FAST,
    STD, STD_NO_PAD, URL_SAFE, URL_SAFE_NO_PAD,
};

const STD_CHARS: &[u8; 64] = b"ABCDEFGHIJKLMNOPQRSTUVWXYZabcdefghijklmnopqrstuvwxyz0123456789+/";
const URL_CHARS: &[u8; 64] = b"ABCDEFGHIJKLMNOPQRSTUVWXYZabcdefghijklmnopqrstuvwxyz0123456789-_";
const CRYPT_CHARS: &[u8; 64] = b"./0123456789ABCDEFGHIJKLMNOPQRSTUVWXYZabcdefghijklmnopqrstuvwxyz";
const FAST_CHARS: &[u8; 64] = br#">?@ABCDEFGHIJKLMNOPQRSTUVWXYZ[\]^_`abcdefghijklmnopqrstuvwxyz{|}"#;

fn sample(len: usize, seed: u32) -> Vec<u8> {
    let mut x = seed.wrapping_mul(2654435761).wrapping_add(12345);
    (0..len)
        .map(|_| {
            x ^= x << 13;
            x ^= x >> 17;
            x ^= x << 5;
            (x >> 7) as u8
        })
        .collect()
}

fn roundtrip_all<C: Config>(cfg: C) {
    for len in 0..130 {
        let input = sample(len, len as u32);
        let encoded = cfg.encode(&input);
        assert_eq!(encoded.len(), cfg.encoded_output_len(len));
        assert!(encoded.bytes().all(|b| b.is_ascii()));
        let decoded = cfg.decode(encoded.as_bytes()).expect("decode failed");
        assert_eq!(decoded, input);
    }
}

#[test]
fn roundtrip_every_builtin_config() {
    roundtrip_all(STD);
    roundtrip_all(STD_NO_PAD);
    roundtrip_all(URL_SAFE);
    roundtrip_all(URL_SAFE_NO_PAD);
    roundtrip_all(CRYPT);
    roundtrip_all(FAST);
}

#[test]
fn roundtrip_custom_config() {
    let cfg = CustomConfig::with_alphabet(CRYPT_CHARS).no_padding().build().unwrap();
    roundtrip_all(cfg);
    let padded = CustomConfig::with_alphabet(URL_CHARS).with_padding(b'.').build().unwrap();
    roundtrip_all(padded);
}

#[test]
fn encode_my_message() {
    assert_eq!(STD.encode("my message".as_bytes()), "bXkgbWVzc2FnZQ==");
    assert_eq!(STD_NO_PAD.encode("my message".as_bytes()), "bXkgbWVzc2FnZQ");
    assert_eq!(CRYPT.encode("my message".as_bytes()), "PLYUPKJnQq3bNE");
    assert_eq!(STD.encode(b""), "");
    assert_eq!(STD.encode(&[0xfb, 0xff]), "+/8=");
    assert_eq!(URL_SAFE.encode(&[0xfb, 0xff]), "-_8=");
    assert_eq!(FAST.encode(&[0, 0, 0]), ">>>>");
}

#[test]
fn decode_url_safe_abcd() {
    assert_eq!(URL_SAFE.decode("ABCD".as_bytes()).unwrap(), vec![0, 16, 131]);
    assert_eq!(URL_SAFE.decode("ABCE".as_bytes()).unwrap(), vec![0, 16, 132]);
    assert_eq!(URL_SAFE.decode("ABCF".as_bytes()).unwrap(), vec![0, 16, 133]);
}

#[test]
fn encoded_output_len_no_pad_partial_groups() {
    assert_eq!(STD_NO_PAD.encoded_output_len(0), 0);
    assert_eq!(URL_SAFE_NO_PAD.encoded_output_len(1), 2);
    assert_eq!(URL_SAFE_NO_PAD.encoded_output_len(2), 3);
    assert_eq!(URL_SAFE_NO_PAD.encoded_output_len(3), 4);
    assert_eq!(CRYPT.encoded_output_len(7), 10);
    assert_eq!(URL_SAFE.encoded_output_len(7), 12);
}

#[test]
fn maximum_decoded_output_len_bound() {
    assert_eq!(STD.maximum_decoded_output_len(0), 1);
    assert_eq!(STD.maximum_decoded_output_len(4), 4);
    assert_eq!(STD.maximum_decoded_output_len(7), 6);
    assert_eq!(STD.maximum_decoded_output_len(11), 9);
    for n in 0..200usize {
        assert_eq!(STD.maximum_decoded_output_len(n), n * 6 / 8 + 1);
    }
}

#[test]
fn buffer_variants_match_allocating_ones() {
    let mut enc_buf = Vec::new();
    assert_eq!(STD.encode_with_buffer("my message".as_bytes(), &mut enc_buf), "bXkgbWVzc2FnZQ==");
    assert_eq!(STD.encode_with_buffer("my message2".as_bytes(), &mut enc_buf), "bXkgbWVzc2FnZTI=");
    assert_eq!(STD.encode_with_buffer("my message3".as_bytes(), &mut enc_buf), "bXkgbWVzc2FnZTM=");
    let mut dec_buf = Vec::new();
    assert_eq!(URL_SAFE.decode_with_buffer("ABCD".as_bytes(), &mut dec_buf).unwrap(), &[0, 16, 131]);
    assert_eq!(URL_SAFE.decode_with_buffer("ABCE".as_bytes(), &mut dec_buf).unwrap(), &[0, 16, 132]);
    for len in 0..70 {
        let input = sample(len, 7);
        let mut out = vec![0u8; len * 4 / 3 + 3];
        let n = URL_SAFE.encode_slice(&input, &mut out);
        assert_eq!(&out[..n], URL_SAFE.encode(&input).as_bytes());
        let encoded = URL_SAFE.encode(&input);
        let mut dec = vec![0u8; URL_SAFE.maximum_decoded_output_len(encoded.len())];
        let m = URL_SAFE.decode_slice(encoded.as_bytes(), &mut dec).unwrap();
        assert_eq!(&dec[..m], &input[..]);
    }
}

#[test]
fn custom_config_matches_builtin() {
    let pairs: Vec<(CustomConfig, Box<dyn Fn(&[u8]) -> String>, Box<dyn Fn(&[u8]) -> Result<Vec<u8>, DecodeError>>)> = vec![
        (CustomConfig::with_alphabet(STD_CHARS).with_padding(b'=').build().unwrap(), Box::new(|x| STD.encode(x)), Box::new(|x| STD.decode(x))),
        (CustomConfig::with_alphabet(STD_CHARS).no_padding().build().unwrap(), Box::new(|x| STD_NO_PAD.encode(x)), Box::new(|x| STD_NO_PAD.decode(x))),
        (CustomConfig::with_alphabet(URL_CHARS).build().unwrap(), Box::new(|x| URL_SAFE.encode(x)), Box::new(|x| URL_SAFE.decode(x))),
        (CustomConfig::with_alphabet(URL_CHARS).no_padding().build().unwrap(), Box::new(|x| URL_SAFE_NO_PAD.encode(x)), Box::new(|x| URL_SAFE_NO_PAD.decode(x))),
        (CustomConfig::with_alphabet(CRYPT_CHARS).no_padding().build_or_die(), Box::new(|x| CRYPT.encode(x)), Box::new(|x| CRYPT.decode(x))),
        (CustomConfig::with_alphabet(FAST_CHARS).no_padding().build().unwrap(), Box::new(|x| FAST.encode(x)), Box::new(|x| FAST.decode(x))),
    ];
    for (custom, builtin_encode, builtin_decode) in pairs.iter() {
        for len in 0..80 {
            let input = sample(len, 99);
            let a = custom.encode(&input);
            let b = builtin_encode(&input);
            assert_eq!(a, b);
            assert_eq!(custom.decode(b.as_bytes()).unwrap(), input);
            assert_eq!(builtin_decode(a.as_bytes()).unwrap(), input);
        }
    }
}

#[test]
fn block_path_matches_group_path() {
    // Inputs of 32 bytes and more go through the block engines; every group
    // of their encoding must equal the encoding of that group alone.
    for len in [32usize, 33, 47, 48, 49, 96, 100, 255, 1000] {
        let input = sample(len, len as u32);
        let encoded = STD.encode(&input);
        for (k, group) in input.chunks(3).enumerate() {
            let small = STD.encode(group);
            assert_eq!(&encoded.as_bytes()[4 * k..4 * k + 4], small.as_bytes());
        }
        let decoded = STD.decode(encoded.as_bytes()).unwrap();
        assert_eq!(decoded, input);
    }
}

#[test]
fn invalid_byte_reported_at_every_offset() {
    for len in [3usize, 30, 60, 120] {
        let input = sample(len, 5);
        let encoded = STD_NO_PAD.encode(&input).into_bytes();
        for pos in 0..encoded.len() {
            for bad in [b'!', b'=', 0x80, 0xff, b'\n'] {
                let mut corrupt = encoded.clone();
                corrupt[pos] = bad;
                assert_eq!(STD_NO_PAD.decode(&corrupt), Err(DecodeError::InvalidByte(bad)));
            }
        }
    }
}

#[test]
fn padded_invalid_byte_and_lengths() {
    let encoded = STD.encode(&sample(40, 1)).into_bytes();
    for pos in 0..encoded.len() - 2 {
        let mut corrupt = encoded.clone();
        corrupt[pos] = b'*';
        assert_eq!(STD.decode(&corrupt), Err(DecodeError::InvalidByte(b'*')));
    }
    assert_eq!(STD.decode(b"AAAAA"), Err(DecodeError::InvalidLength));
    assert_eq!(STD.decode(b"AA"), Err(DecodeError::InvalidLength));
    assert_eq!(STD_NO_PAD.decode(b"A"), Err(DecodeError::InvalidLength));
    assert_eq!(STD_NO_PAD.decode(b"AAAAA"), Err(DecodeError::InvalidLength));
    assert_eq!(STD_NO_PAD.decode(b"AAAA="), Err(DecodeError::InvalidLength));
    assert_eq!(STD.decode(b"A==="), Err(DecodeError::InvalidByte(b'=')));
    assert_eq!(STD_NO_PAD.decode(b"iYU="), Err(DecodeError::InvalidByte(b'=')));
    assert_eq!(STD.decode(b""), Ok(vec![]));
    assert_eq!(STD.decode(b"iYU="), Ok(vec![0x89, 0x85]));
    assert_eq!(STD_NO_PAD.decode(b"iYU"), Ok(vec![0x89, 0x85]));
    assert_eq!(STD_NO_PAD.decode(b"iYV"), Err(DecodeError::InvalidTrailingBits));
    assert_eq!(STD_NO_PAD.decode(b"QR"), Err(DecodeError::InvalidTrailingBits));
    assert_eq!(STD_NO_PAD.decode(b"QQ"), Ok(vec![b'A']));
}

#[test]
fn padding_inside_input_rejected() {
    let mut input = STD.encode(b"A");
    input.push_str(&STD.encode(b"BBB"));
    assert_eq!(STD.decode(input.as_bytes()), Err(DecodeError::InvalidByte(b'=')));
    let mut input = URL_SAFE.encode(b"AB");
    input.push_str(&URL_SAFE.encode(b"CD"));
    assert_eq!(URL_SAFE.decode(input.as_bytes()), Err(DecodeError::InvalidByte(b'=')));
}

#[test]
fn custom_config_errors() {
    let mut chars = *STD_CHARS;
    chars[10] = 0xc3;
    chars[20] = 0xa9;
    assert!(matches!(
        CustomConfig::with_alphabet(&chars).build(),
        Err(CustomConfigError::NonAscii(0xc3))
    ));
    let mut chars = *STD_CHARS;
    chars[30] = b'A';
    chars[40] = b'B';
    assert!(matches!(
        CustomConfig::with_alphabet(&chars).build(),
        Err(CustomConfigError::DuplicateValue(b'A'))
    ));
    assert!(matches!(
        CustomConfig::with_alphabet(STD_CHARS).with_padding(b'+').build(),
        Err(CustomConfigError::DuplicateValue(b'+'))
    ));
    assert!(matches!(
        CustomConfig::with_alphabet(STD_CHARS).with_padding(0x80).build(),
        Err(CustomConfigError::NonAscii(0x80))
    ));
    assert!(matches!(
        ConfigBuilder::with_alphabet(&STD_CHARS[..63]).build(),
        Err(CustomConfigError::AlphabetNot64Bytes)
    ));
    let cfg = ConfigBuilder::with_alphabet(&STD_CHARS[..]).with_padding(b'=').build().unwrap();
    assert_eq!(cfg.encode("my message".as_bytes()), "bXkgbWVzc2FnZQ==");
    let cfg = ConfigBuilder::with_alphabet(&STD_CHARS[..]).no_padding().build().unwrap();
    assert_eq!(cfg.encode("my message".as_bytes()), "bXkgbWVzc2FnZQ");
}

#[test]
fn display_matches_encode() {
    for len in 0..50 {
        let input = sample(len, 3);
        assert_eq!(Display::new(URL_SAFE, &input).to_string(), URL_SAFE.encode(&input));
    }
}
