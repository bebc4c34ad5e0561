use radix64::io::{DecodeReader, EncodeWriter};
use radix64::{Config, DecodeError, CRYPT, STD, STD_NO_PAD, URL_SAFE};

fn sample(len: usize, seed: u32) -> Vec<u8> {
    let mut x = seed.wrapping_mul(2246822519).wrapping_add(777);
    (0..len)
        .map(|_| {
            x ^= x << 13;
            x ^= x >> 17;
            x ^= x << 5;
            (x >> 9) as u8
        })
        .collect()
}

/// Writes `input` in pieces of `piece` bytes into a sink that takes at most
/// `sink_limit` bytes per write and fails every `fail_every`-th write.
fn encode_through_writer<C: Config>(cfg: C, input: &[u8], piece: usize, sink_limit: usize, fail_every: usize) -> Vec<u8> {
    let mut w = EncodeWriter::new(cfg);
    let mut sink = Vec::new();
    let mut calls = 0usize;
    let mut flush_some = |w: &mut EncodeWriter<C>, sink: &mut Vec<u8>| {
        calls += 1;
        if calls % fail_every == 0 {
            return; // a transient sink error: nothing written
        }
        let pending = w.pending_output();
        let n = pending.len().min(sink_limit);
        sink.extend_from_slice(&pending[..n]);
        w.consume_pending_output(n);
    };
    let mut rest = input;
    while !rest.is_empty() {
        if w.needs_flush() {
            flush_some(&mut w, &mut sink);
            continue;
        }
        let take = rest.len().min(piece);
        let n = w.write(&rest[..take]);
        assert!(n > 0);
        rest = &rest[n..];
    }
    while !w.finish() {
        flush_some(&mut w, &mut sink);
    }
    while !w.pending_output().is_empty() {
        flush_some(&mut w, &mut sink);
    }
    sink
}

fn decode_through_reader<C: Config>(cfg: C, encoded: &[u8], piece: usize, buf_size: usize) -> Result<Vec<u8>, DecodeError> {
    let mut r = DecodeReader::new(cfg);
    let mut src = encoded;
    let mut out = Vec::new();
    loop {
        while r.needs_input() {
            let n = r.free_space().min(piece).min(src.len());
            r.supply(&src[..n]);
            src = &src[n..];
        }
        let mut buf = vec![0u8; buf_size];
        let n = r.read(&mut buf)?;
        if n == 0 {
            return Ok(out);
        }
        out.extend_from_slice(&buf[..n]);
    }
}

#[test]
fn encode_writer_matches_one_shot() {
    for len in [0usize, 1, 2, 3, 4, 5, 31, 32, 100, 1000, 3000] {
        let input = sample(len, len as u32);
        let expected = STD.encode(&input).into_bytes();
        for (piece, limit, fail) in [(1usize, 1usize, 3usize), (2, 7, 2), (5, 1000, 4), (1000, 3, 5), (4096, 4096, 1000)] {
            assert_eq!(encode_through_writer(STD, &input, piece, limit, fail), expected);
        }
        assert_eq!(encode_through_writer(CRYPT, &input, 1, 5, 3), CRYPT.encode(&input).into_bytes());
    }
}

#[test]
fn encode_writer_one_byte_writes() {
    let input = sample(200, 9);
    let mut w = EncodeWriter::new(URL_SAFE);
    let mut sink = Vec::new();
    for b in &input {
        let n = w.write(&[*b]);
        assert_eq!(n, 1);
        let pending = w.pending_output().to_vec();
        sink.extend_from_slice(&pending);
        w.consume_pending_output(pending.len());
    }
    assert!(w.finish());
    sink.extend_from_slice(w.pending_output());
    assert_eq!(sink, URL_SAFE.encode(&input).into_bytes());
}

#[test]
fn decode_reader_matches_one_shot() {
    for len in [0usize, 1, 2, 3, 4, 5, 30, 31, 32, 99, 1000, 2500] {
        let input = sample(len, 3 * len as u32);
        for cfg_padded in [true, false] {
            for (piece, buf) in [(1usize, 1usize), (3, 2), (7, 5), (1, 1000), (5000, 1), (5000, 5000)] {
                if cfg_padded {
                    let encoded = STD.encode(&input);
                    assert_eq!(decode_through_reader(STD, encoded.as_bytes(), piece, buf), Ok(input.clone()));
                } else {
                    let encoded = STD_NO_PAD.encode(&input);
                    assert_eq!(decode_through_reader(STD_NO_PAD, encoded.as_bytes(), piece, buf), Ok(input.clone()));
                }
            }
        }
    }
}

#[test]
fn decode_reader_errors_match_one_shot() {
    let cases: [&[u8]; 8] = [b"A", b"AAAAA", b"iYV=", b"iYU", b"AB!D", b"AAAA====", b"QQ==QkJC", b"QUJD\n"];
    for case in cases.iter() {
        for (piece, buf) in [(1usize, 1usize), (2, 3), (100, 100)] {
            let stream = decode_through_reader(STD, case, piece, buf).map_err(|_| ());
            let one_shot = STD.decode(case).map_err(|_| ());
            assert_eq!(stream, one_shot, "input {:?}", case);
        }
    }
}

#[test]
fn decode_reader_rejects_middle_padding() {
    for (piece, buf) in [(1usize, 1usize), (2, 4), (4, 2), (100, 3)] {
        let mut input = STD.encode(b"A");
        input.push_str(&STD.encode(b"BBB"));
        assert!(decode_through_reader(STD, input.as_bytes(), piece, buf).is_err());
        let mut input = STD_NO_PAD.encode(b"A");
        input.push_str(&STD_NO_PAD.encode(b"BBB"));
        assert!(decode_through_reader(STD_NO_PAD, input.as_bytes(), piece, buf).is_err());
    }
}
