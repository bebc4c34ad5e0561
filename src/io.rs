//! Incremental encoding and decoding, free of any reader or writer.
//!
//! `EncodeWriter` accepts input in pieces of any size and holds the encoded
//! bytes until the caller has handed them to a sink; `DecodeReader` accepts
//! encoded bytes as a source yields them and hands out decoded bytes into
//! buffers of any size. The caller performs the actual reads and writes.
use crate::configs::Config;
use crate::decode::{
    decode_full_chunks_without_padding, decode_partial_chunk, groups_decoded,
    lemma_decode_unpadded_split, lemma_decoded_byte_agree, lemma_decoded_byte_shift,
    lemma_strip_padding_tail, remove_padding,
};
use crate::encode::{encode_chunk, encode_full_chunks_without_padding, encode_partial_chunk};
use crate::model::{
    byte_or_zero, decode_spec, decode_unpadded, decoded_byte, encode_spec, first_index, invalid_at, is_valid_symbol, lemma_first_index,
    lemma_first_index_spec, lemma_sextet_agree, lemma_sextet_shift, sextet,
    strip_padding, unpadded_len, DecodeError,
};
use vstd::prelude::*;

verus! {

/// Size of the buffer of encoded output waiting for the sink.
pub const PENDING_CAPACITY: usize = 1024;

/// Every byte of `out` is the symbol of the matching sextet of `c`.
pub open spec fn symbols_of(alpha: Seq<u8>, c: Seq<u8>, out: Seq<u8>) -> bool {
    forall|i: int| 0 <= i < out.len() ==> #[trigger] out[i] == alpha[sextet(c, i)]
}

/// Encodes base64 incrementally. Only whole groups of three bytes are
/// encoded until `finish` declares that no more input will come; encoded
/// bytes wait in a buffer of `PENDING_CAPACITY` bytes until the caller
/// reports them written with `consume_pending_output`.
pub struct EncodeWriter<C> {
    config: C,
    // already encoded input, waiting to be written.
    pending_output: [u8; 1024],
    // number of bytes in pending_output.
    bytes_in_pending_output: usize,
    // unencoded input that does not complete a group yet.
    partial_input: [u8; 3],
    // number of bytes in partial_input.
    bytes_in_partial_input: usize,
    finished: bool,
    // all input accepted so far.
    consumed: Ghost<Seq<u8>>,
    // all output reported written so far.
    delivered: Ghost<Seq<u8>>,
}

impl<C: Config> EncodeWriter<C> {
    pub closed spec fn config(&self) -> C {
        self.config
    }

    /// All input accepted so far.
    pub closed spec fn consumed(&self) -> Seq<u8> {
        self.consumed@
    }

    /// All output that the caller has reported written.
    pub closed spec fn delivered(&self) -> Seq<u8> {
        self.delivered@
    }

    /// Encoded output waiting to be written.
    pub closed spec fn pending(&self) -> Seq<u8> {
        self.pending_output@.take(self.bytes_in_pending_output as int)
    }

    /// Whether `finish` has encoded the final group.
    pub closed spec fn is_finished(&self) -> bool {
        self.finished
    }

    pub closed spec fn wf(&self) -> bool {
        let alpha = self.config.alphabet();
        let pad = self.config.padding();
        let c = self.consumed@;
        let out = self.delivered@ + self.pending();
        let k = self.bytes_in_partial_input as int;
        &&& self.bytes_in_pending_output <= PENDING_CAPACITY
        &&& if self.finished {
            k == 0 && out == encode_spec(alpha, pad, c)
        } else {
            &&& k < 3
            &&& k == c.len() % 3
            &&& forall|j: int| 0 <= j < k ==> #[trigger] self.partial_input@[j] == c[c.len() - k + j]
            &&& out.len() == 4 * (c.len() / 3)
            &&& symbols_of(alpha, c, out)
        }
    }

    /// Create a new EncodeWriter.
    pub fn new(config: C) -> (r: Self)
        ensures
            r.wf(),
            r.config() == config,
            r.consumed() == Seq::<u8>::empty(),
            r.delivered() == Seq::<u8>::empty(),
            r.pending() == Seq::<u8>::empty(),
            !r.is_finished(),
    {
        let r = EncodeWriter {
            config,
            pending_output: [0u8; 1024],
            bytes_in_pending_output: 0,
            partial_input: [0u8; 3],
            bytes_in_partial_input: 0,
            finished: false,
            consumed: Ghost(Seq::empty()),
            delivered: Ghost(Seq::empty()),
        };
        proof {
            assert(r.pending() =~= Seq::<u8>::empty());
            assert(r.delivered@ + r.pending() =~= Seq::<u8>::empty());
        }
        r
    }

    /// The encoded output waiting to be written to the sink.
    pub fn pending_output(&self) -> (r: &[u8])
        requires
            self.wf(),
        ensures
            r@ == self.pending(),
    {
        &self.pending_output.as_slice()[0..self.bytes_in_pending_output]
    }

    /// Whether `finish` has encoded the final group, after which no more
    /// input is accepted.
    pub fn finished(&self) -> (r: bool)
        ensures
            r == self.is_finished(),
    {
        self.finished
    }

    /// Whether the waiting output leaves no room for another group, so
    /// that some of it must be written before `write` can accept input.
    pub fn needs_flush(&self) -> (r: bool)
        requires
            self.wf(),
        ensures
            r == (self.pending().len() + 4 > PENDING_CAPACITY),
    {
        PENDING_CAPACITY - self.bytes_in_pending_output < 4
    }

    /// Records that the sink accepted the first `num_bytes` bytes of the
    /// waiting output.
    pub fn consume_pending_output(&mut self, num_bytes: usize)
        requires
            old(self).wf(),
            num_bytes <= old(self).pending().len(),
        ensures
            final(self).wf(),
            final(self).config() == old(self).config(),
            final(self).consumed() == old(self).consumed(),
            final(self).delivered() == old(self).delivered() + old(self).pending().take(num_bytes as int),
            final(self).pending() == old(self).pending().skip(num_bytes as int),
            final(self).is_finished() == old(self).is_finished(),
    {
        let ghost p0 = self.pending();
        let count = self.bytes_in_pending_output - num_bytes;
        let mut idx: usize = 0;
        while idx < count
            invariant
                count + num_bytes <= 1024,
                count == self.bytes_in_pending_output - num_bytes,
                idx <= count,
                p0 == old(self).pending(),
                self.bytes_in_pending_output == old(self).bytes_in_pending_output,
                forall|j: int| 0 <= j < idx ==> #[trigger] self.pending_output@[j] == p0[j + num_bytes],
                forall|j: int| idx <= j < 1024 ==> #[trigger] self.pending_output@[j] == old(self).pending_output@[j],
                self.config == old(self).config,
                self.consumed == old(self).consumed,
                self.delivered == old(self).delivered,
                self.partial_input == old(self).partial_input,
                self.bytes_in_partial_input == old(self).bytes_in_partial_input,
                self.finished == old(self).finished,
            decreases count - idx,
        {
            let b = self.pending_output[idx + num_bytes];
            self.pending_output[idx] = b;
            idx = idx + 1;
        }
        self.bytes_in_pending_output = count;
        self.delivered = Ghost(self.delivered@ + p0.take(num_bytes as int));
        proof {
            assert(self.pending() =~= p0.skip(num_bytes as int));
            assert(self.delivered@ + self.pending() =~= old(self).delivered@ + p0);
        }
    }

    /// Number of input bytes held back because they do not complete a group.
    pub closed spec fn held(&self) -> int {
        self.bytes_in_partial_input as int
    }

    /// Completes the held partial group with the first bytes of `input`,
    /// encoding it once it has three bytes.
    fn complete_partial(&mut self, input: &[u8]) -> (r: usize)
        requires
            old(self).wf(),
            !old(self).is_finished(),
            old(self).held() > 0,
            old(self).pending().len() + 4 <= PENDING_CAPACITY,
        ensures
            final(self).wf(),
            !final(self).is_finished(),
            final(self).config() == old(self).config(),
            final(self).delivered() == old(self).delivered(),
            r <= input@.len(),
            input@.len() > 0 ==> r > 0,
            final(self).consumed() == old(self).consumed() + input@.take(r as int),
            final(self).held() == 0 || r == input@.len(),
    {
        let ghost alpha = self.config.alphabet();
        let ghost c0 = self.consumed@;
        let ghost out0 = self.delivered@ + self.pending();
        let k = self.bytes_in_partial_input;
        let to_copy = if input.len() < 3 - k {
            input.len()
        } else {
            3 - k
        };
        let mut t: usize = 0;
        while t < to_copy
            invariant
                0 < k < 3,
                k + to_copy <= 3,
                to_copy <= input@.len(),
                t <= to_copy,
                forall|j: int| 0 <= j < k ==> #[trigger] self.partial_input@[j] == old(self).partial_input@[j],
                forall|j: int| 0 <= j < t ==> #[trigger] self.partial_input@[k + j] == input@[j],
                self.config == old(self).config,
                self.consumed == old(self).consumed,
                self.delivered == old(self).delivered,
                self.pending_output == old(self).pending_output,
                self.bytes_in_pending_output == old(self).bytes_in_pending_output,
                self.bytes_in_partial_input == old(self).bytes_in_partial_input,
                self.finished == old(self).finished,
            decreases to_copy - t,
        {
            self.partial_input[k + t] = input[t];
            t = t + 1;
        }
        let ghost c1 = c0 + input@.take(to_copy as int);
        self.consumed = Ghost(c1);
        if k + to_copy < 3 {
            self.bytes_in_partial_input = k + to_copy;
            proof {
                assert(to_copy == input@.len());
                assert forall|j: int| 0 <= j < k + to_copy implies #[trigger] self.partial_input@[j] == c1[c1.len() - (k + to_copy) + j] by {
                    if j >= k {
                        assert(self.partial_input@[k + (j - k)] == input@[j - k]);
                    }
                }
                assert forall|i: int| 0 <= i < out0.len() implies #[trigger] out0[i] == alpha[sextet(c1, i)] by {
                    lemma_sextet_agree(c0, c1, i, c0.len() as int - k);
                }
            }
            return to_copy;
        }
        let n = self.bytes_in_pending_output;
        let partial = self.partial_input;
        encode_chunk(self.config, partial.as_slice(), 0, &mut self.pending_output, n);
        self.bytes_in_pending_output = n + 4;
        self.bytes_in_partial_input = 0;
        proof {
            let out1 = self.delivered@ + self.pending();
            let g = c0.len() as int / 3;
            assert(c1.len() == 3 * g + 3);
            assert forall|j: int| 0 <= j < 3 implies #[trigger] partial@[j] == c1[3 * g + j] by {
                if j >= k {
                    assert(partial@[k + (j - k)] == input@[j - k]);
                }
            }
            assert forall|i: int| 0 <= i < out1.len() implies #[trigger] out1[i] == alpha[sextet(c1, i)] by {
                if i < out0.len() {
                    assert(out1[i] == out0[i]);
                    lemma_sextet_agree(c0, c1, i, c0.len() as int - k);
                } else {
                    let m = i - 4 * g;
                    assert(out1[i] == self.pending_output@[n + m]);
                    assert(i / 4 == g && i % 4 == m);
                }
            }
        }
        to_copy
    }

    /// Encodes as many whole groups at the start of `input` as the waiting
    /// output has room for.
    fn encode_groups(&mut self, input: &[u8]) -> (r: usize)
        requires
            old(self).wf(),
            !old(self).is_finished(),
            old(self).held() == 0,
        ensures
            final(self).wf(),
            !final(self).is_finished(),
            final(self).held() == 0,
            final(self).config() == old(self).config(),
            final(self).delivered() == old(self).delivered(),
            r == 3 * crate::encode::groups_that_fit(input@.len() as int, PENDING_CAPACITY - old(self).pending().len()),
            final(self).consumed() == old(self).consumed() + input@.take(r as int),
    {
        let ghost alpha = self.config.alphabet();
        let ghost c2 = self.consumed@;
        let ghost out2 = self.delivered@ + self.pending();
        let n = self.bytes_in_pending_output;
        let (a, b) = encode_full_chunks_without_padding(self.config, input, &mut self.pending_output, n);
        self.bytes_in_pending_output = n + b;
        let ghost c3 = c2 + input@.take(a as int);
        self.consumed = Ghost(c3);
        proof {
            let out3 = self.delivered@ + self.pending();
            let g = c2.len() as int / 3;
            assert(c2.len() % 3 == 0);
            assert(out3.len() == 4 * (c3.len() / 3));
            assert forall|i: int| 0 <= i < out3.len() implies #[trigger] out3[i] == alpha[sextet(c3, i)] by {
                if i < out2.len() {
                    assert(out3[i] == out2[i]);
                    lemma_sextet_agree(c2, c3, i, c2.len() as int);
                } else {
                    let m = i - 4 * g;
                    assert(out3[i] == self.pending_output@[n + m]);
                    lemma_sextet_shift(c2, input@.take(a as int), i);
                    lemma_sextet_agree(input@, input@.take(a as int), m, a as int);
                }
            }
        }
        a
    }

    /// Holds the last one or two bytes of the input until more input or
    /// `finish` comes.
    fn hold_remainder(&mut self, input: &[u8])
        requires
            old(self).wf(),
            !old(self).is_finished(),
            old(self).held() == 0,
            input@.len() < 3,
        ensures
            final(self).wf(),
            !final(self).is_finished(),
            final(self).config() == old(self).config(),
            final(self).delivered() == old(self).delivered(),
            final(self).consumed() == old(self).consumed() + input@,
    {
        let ghost alpha = self.config.alphabet();
        let ghost c3 = self.consumed@;
        let left = input.len();
        let mut t: usize = 0;
        while t < left
            invariant
                left == input@.len(),
                left < 3,
                t <= left,
                forall|j: int| 0 <= j < t ==> #[trigger] self.partial_input@[j] == input@[j],
                self.config == old(self).config,
                self.consumed == old(self).consumed,
                self.delivered == old(self).delivered,
                self.pending_output == old(self).pending_output,
                self.bytes_in_pending_output == old(self).bytes_in_pending_output,
                self.bytes_in_partial_input == old(self).bytes_in_partial_input,
                self.finished == old(self).finished,
            decreases left - t,
        {
            self.partial_input[t] = input[t];
            t = t + 1;
        }
        self.bytes_in_partial_input = left;
        let ghost c4 = c3 + input@;
        self.consumed = Ghost(c4);
        proof {
            let out4 = self.delivered@ + self.pending();
            assert forall|i: int| 0 <= i < out4.len() implies #[trigger] out4[i] == alpha[sextet(c4, i)] by {
                lemma_sextet_agree(c3, c4, i, c3.len() as int);
            }
            assert forall|j: int| 0 <= j < left implies #[trigger] self.partial_input@[j] == c4[c4.len() - left + j] by {
                assert(c4[c3.len() + j] == input@[j]);
            }
        }
    }

    /// Accepts a prefix of `input` and returns its length. Whole groups are
    /// encoded into the waiting output as far as it has room; the last one
    /// or two bytes of the input are held until more input or `finish`
    /// comes. Input is refused only when the waiting output has no room for
    /// another group.
    pub fn write(&mut self, input: &[u8]) -> (r: usize)
        requires
            old(self).wf(),
            !old(self).is_finished(),
        ensures
            final(self).wf(),
            !final(self).is_finished(),
            final(self).config() == old(self).config(),
            r <= input@.len(),
            final(self).consumed() == old(self).consumed() + input@.take(r as int),
            final(self).delivered() == old(self).delivered(),
            input@.len() > 0 && old(self).pending().len() + 4 <= PENDING_CAPACITY ==> r > 0,
    {
        let ghost c0 = self.consumed@;
        let mut consumed: usize = 0;
        if self.bytes_in_partial_input > 0 {
            if PENDING_CAPACITY - self.bytes_in_pending_output < 4 {
                proof {
                    assert(c0 + input@.take(0) =~= c0);
                }
                return 0;
            }
            consumed = self.complete_partial(input);
            if self.bytes_in_partial_input > 0 {
                return consumed;
            }
        }
        let ghost c1 = self.consumed@;
        let ghost room = PENDING_CAPACITY - self.pending().len();
        let rest = &input[consumed..input.len()];
        let a = self.encode_groups(rest);
        proof {
            assert(c1 + rest@.take(a as int) =~= c0 + input@.take(consumed + a));
        }
        consumed = consumed + a;
        if input.len() - consumed < 3 {
            let tail = &input[consumed..input.len()];
            let ghost c2 = self.consumed@;
            self.hold_remainder(tail);
            proof {
                assert(c2 + tail@ =~= c0 + input@.take(input@.len() as int));
            }
            consumed = input.len();
        }
        consumed
    }

    /// Encodes the final partial group, padded as the configuration asks,
    /// when the waiting output has room for it, and reports whether all
    /// input is now encoded. Once it is, no more input is accepted.
    pub fn finish(&mut self) -> (r: bool)
        requires
            old(self).wf(),
        ensures
            final(self).wf(),
            final(self).config() == old(self).config(),
            final(self).consumed() == old(self).consumed(),
            final(self).delivered() == old(self).delivered(),
            r == final(self).is_finished(),
            old(self).is_finished() ==> r,
            old(self).pending().len() + 4 <= PENDING_CAPACITY ==> r,
            !r ==> final(self).pending() == old(self).pending(),
    {
        if self.finished {
            return true;
        }
        let k = self.bytes_in_partial_input;
        let n = self.bytes_in_pending_output;
        if PENDING_CAPACITY - n < 4 && k > 0 {
            return false;
        }
        let ghost alpha = self.config.alphabet();
        let ghost pad = self.config.padding();
        let ghost c = self.consumed@;
        let ghost out0 = self.delivered@ + self.pending();
        let partial = self.partial_input;
        let written = encode_partial_chunk(self.config, &partial.as_slice()[0..k], 0, &mut self.pending_output, n);
        self.bytes_in_pending_output = n + written;
        self.bytes_in_partial_input = 0;
        self.finished = true;
        proof {
            let out1 = self.delivered@ + self.pending();
            let e = encode_spec(alpha, pad, c);
            let g = c.len() as int / 3;
            let u = unpadded_len(c.len() as int);
            assert(out1.len() == e.len());
            assert forall|i: int| 0 <= i < e.len() implies #[trigger] out1[i] == e[i] by {
                if i < out0.len() {
                    assert(out1[i] == out0[i]);
                } else {
                    let m = i - 4 * g;
                    assert(out1[i] == self.pending_output@[n + m]);
                    if i < u {
                        assert(i / 4 == g && i % 4 == m);
                        assert(partial@[0] == c[3 * g]);
                        if k == 2 {
                            assert(partial@[1] == c[3 * g + 1]);
                        }
                        assert(byte_or_zero(c, 3 * g + 2) == 0);
                    }
                }
            }
            assert(out1 =~= e);
        }
        true
    }
}

/// Once `finish` has succeeded and all waiting output has been written,
/// what was written is exactly the one-shot encoding of all the input, in
/// whatever pieces the input was written and however the sink split its
/// writes.
pub proof fn lemma_encode_writer_output<C: Config>(w: EncodeWriter<C>)
    requires
        w.wf(),
        w.is_finished(),
        w.pending().len() == 0,
    ensures
        w.delivered() == encode_spec(w.config().alphabet(), w.config().padding(), w.consumed()),
{
    assert(w.delivered() + w.pending() =~= w.delivered());
}

/// Size of the buffer of encoded input not yet decoded.
pub const RAW_CAPACITY: usize = 1024;

/// Decodes base64 incrementally. The caller supplies encoded bytes as a
/// source yields them (an empty piece marks the end of the input) and reads
/// decoded bytes into buffers of any size. Padding is stripped only once the
/// end of the input has been seen, so padding in the middle of the input is
/// rejected like any other byte outside the alphabet.
pub struct DecodeReader<C> {
    config: C,
    data: [u8; 1024],
    pos: usize,
    cap: usize,
    eof_seen: bool,
    padding_removed: bool,
    tail_decoded: bool,
    // decoded bytes that did not fit the caller's buffer; the first
    // bytes_contained_in_partial_chunk of them are valid.
    decoded_partial_chunk: [u8; 3],
    bytes_contained_in_partial_chunk: usize,
    // all encoded input supplied so far.
    received: Ghost<Seq<u8>>,
    // all decoded output handed out so far.
    delivered: Ghost<Seq<u8>>,
}

impl<C: Config> DecodeReader<C> {
    pub closed spec fn config(&self) -> C {
        self.config
    }

    /// All encoded input supplied so far.
    pub closed spec fn received(&self) -> Seq<u8> {
        self.received@
    }

    /// All decoded output handed out so far.
    pub closed spec fn delivered(&self) -> Seq<u8> {
        self.delivered@
    }

    /// Whether the end of the input has been supplied.
    pub closed spec fn eof_seen(&self) -> bool {
        self.eof_seen
    }

    /// Whether all input has been decoded and handed out.
    pub closed spec fn is_done(&self) -> bool {
        self.tail_decoded && self.bytes_contained_in_partial_chunk == 0
    }

    /// Number of buffered encoded bytes.
    pub closed spec fn buffered(&self) -> int {
        self.cap - self.pos
    }

    /// Decoded bytes waiting for a buffer.
    pub closed spec fn stash(&self) -> Seq<u8> {
        self.decoded_partial_chunk@.take(self.bytes_contained_in_partial_chunk as int)
    }

    /// The input as decoding sees it: without its trailing padding once the
    /// end has been reached.
    pub closed spec fn effective(&self) -> Seq<u8> {
        match self.config.padding() {
            Some(p) => if self.padding_removed {
                strip_padding(self.received@, p)
            } else {
                self.received@
            },
            None => self.received@,
        }
    }

    /// Length of the decoded prefix of the effective input.
    pub closed spec fn plen(&self) -> int {
        self.effective().len() - (self.cap - self.pos)
    }

    pub closed spec fn wf(&self) -> bool {
        let alpha = self.config.alphabet();
        let e = self.effective();
        let plen = self.plen();
        let out = self.delivered@ + self.stash();
        &&& valid_codec(self.config)
        &&& self.pos <= self.cap <= RAW_CAPACITY
        &&& self.bytes_contained_in_partial_chunk <= 3
        &&& self.padding_removed ==> self.eof_seen
        &&& self.tail_decoded ==> self.padding_removed
        &&& 0 <= plen
        &&& e.subrange(plen, e.len() as int) == self.data@.subrange(self.pos as int, self.cap as int)
        &&& self.padding_removed && self.config.padding() is Some ==> self.received@.len() % 4 == 0
        &&& if self.tail_decoded {
            self.pos == self.cap && decode_unpadded(alpha, e) == Ok::<Seq<u8>, DecodeError>(out)
        } else {
            &&& plen % 4 == 0
            &&& forall|i: int| 0 <= i < plen ==> is_valid_symbol(alpha, #[trigger] e[i])
            &&& out == groups_decoded(alpha, e, plen)
        }
    }

    /// Create a new DecodeReader.
    pub fn new(config: C) -> (r: Self)
        ensures
            r.wf(),
            r.config() == config,
            r.received() == Seq::<u8>::empty(),
            r.delivered() == Seq::<u8>::empty(),
            !r.eof_seen(),
    {
        let r = DecodeReader {
            config,
            data: [0u8; 1024],
            pos: 0,
            cap: 0,
            eof_seen: false,
            padding_removed: false,
            tail_decoded: false,
            decoded_partial_chunk: [0u8; 3],
            bytes_contained_in_partial_chunk: 0,
            received: Ghost(Seq::empty()),
            delivered: Ghost(Seq::empty()),
        };
        proof {
            config.lemma_valid();
            assert(r.stash() =~= Seq::<u8>::empty());
            assert(r.delivered@ + r.stash() =~= groups_decoded(config.alphabet(), r.effective(), 0));
            assert(r.effective().subrange(0, 0) =~= r.data@.subrange(0, 0));
        }
        r
    }

    /// Whether `read` needs more encoded input first: nothing decoded is
    /// waiting, the end has not been seen, and fewer than four bytes can be
    /// decoded without knowing whether the last two are padding.
    pub fn needs_input(&self) -> (r: bool)
        requires
            self.wf(),
        ensures
            r == (self.stash().len() == 0 && !self.eof_seen() && self.buffered() < 6),
    {
        self.bytes_contained_in_partial_chunk == 0 && !self.eof_seen && self.cap - self.pos < 6
    }

    /// How many encoded bytes `supply` can take now.
    pub fn free_space(&self) -> (r: usize)
        requires
            self.wf(),
        ensures
            r == RAW_CAPACITY - self.buffered(),
    {
        RAW_CAPACITY - (self.cap - self.pos)
    }

    /// Takes the next encoded bytes from the source; an empty piece marks the
    /// end of the input.
    pub fn supply(&mut self, bytes: &[u8])
        requires
            old(self).wf(),
            !old(self).eof_seen(),
            bytes@.len() <= RAW_CAPACITY - old(self).buffered(),
        ensures
            final(self).wf(),
            final(self).config() == old(self).config(),
            final(self).received() == old(self).received() + bytes@,
            final(self).delivered() == old(self).delivered(),
            final(self).eof_seen() == (bytes@.len() == 0),
            final(self).buffered() == old(self).buffered() + bytes@.len(),
            final(self).stash() == old(self).stash(),
            !final(self).is_done(),
    {
        let ghost alpha = self.config.alphabet();
        let ghost e0 = self.effective();
        let ghost plen = self.plen();
        let ghost t0 = self.data@.subrange(self.pos as int, self.cap as int);
        let count = self.cap - self.pos;
        let pos = self.pos;
        let mut idx: usize = 0;
        while idx < count
            invariant
                pos + count <= 1024,
                pos == self.pos,
                count == self.cap - self.pos,
                idx <= count,
                t0 == old(self).data@.subrange(pos as int, pos + count),
                forall|j: int| 0 <= j < idx ==> #[trigger] self.data@[j] == t0[j],
                forall|j: int| idx <= j < 1024 ==> #[trigger] self.data@[j] == old(self).data@[j],
                self.cap == old(self).cap,
                self.config == old(self).config,
                self.received == old(self).received,
                self.delivered == old(self).delivered,
                self.eof_seen == old(self).eof_seen,
                self.padding_removed == old(self).padding_removed,
                self.tail_decoded == old(self).tail_decoded,
                self.decoded_partial_chunk == old(self).decoded_partial_chunk,
                self.bytes_contained_in_partial_chunk == old(self).bytes_contained_in_partial_chunk,
            decreases count - idx,
        {
            let b = self.data[pos + idx];
            self.data[idx] = b;
            idx = idx + 1;
        }
        let n = bytes.len();
        let mut k: usize = 0;
        while k < n
            invariant
                n == bytes@.len(),
                count + n <= 1024,
                k <= n,
                forall|j: int| 0 <= j < count ==> #[trigger] self.data@[j] == t0[j],
                forall|j: int| 0 <= j < k ==> #[trigger] self.data@[count + j] == bytes@[j],
                self.cap == old(self).cap,
                self.pos == old(self).pos,
                self.config == old(self).config,
                self.received == old(self).received,
                self.delivered == old(self).delivered,
                self.eof_seen == old(self).eof_seen,
                self.padding_removed == old(self).padding_removed,
                self.tail_decoded == old(self).tail_decoded,
                self.decoded_partial_chunk == old(self).decoded_partial_chunk,
                self.bytes_contained_in_partial_chunk == old(self).bytes_contained_in_partial_chunk,
            decreases n - k,
        {
            self.data[count + k] = bytes[k];
            k = k + 1;
        }
        self.pos = 0;
        self.cap = count + n;
        if n == 0 {
            self.eof_seen = true;
        }
        let ghost e1 = e0 + bytes@;
        self.received = Ghost(self.received@ + bytes@);
        proof {
            assert(self.effective() == e1);
            assert(t0 == e0.subrange(plen, e0.len() as int));
            assert forall|i: int| 0 <= i < count + n implies #[trigger] self.data@[i] == e1[plen + i] by {
                if i < count {
                    assert(self.data@[i] == t0[i]);
                    assert(t0[i] == e0[plen + i]);
                } else {
                    assert(self.data@[count + (i - count)] == bytes@[i - count]);
                }
            }
            assert(e1.subrange(plen, e1.len() as int) =~= self.data@.subrange(0, count + n));
            assert forall|i: int| 0 <= i < plen implies is_valid_symbol(alpha, #[trigger] e1[i]) by {
                assert(e1[i] == e0[i]);
            }
            assert forall|j: int| 0 <= j < 3 * (plen / 4) implies #[trigger] groups_decoded(alpha, e1, plen)[j] == groups_decoded(alpha, e0, plen)[j] by {
                lemma_decoded_byte_agree(alpha, e1, e0, j, plen);
            }
            assert(groups_decoded(alpha, e1, plen) =~= groups_decoded(alpha, e0, plen));
        }
    }

    /// Hands out up to `output.len() - start` bytes of the stash into
    /// `output[start..]`.
    fn deliver_stash(&mut self, output: &mut [u8], start: usize) -> (r: usize)
        requires
            old(self).wf(),
            start <= old(output)@.len(),
        ensures
            final(self).wf(),
            final(self).config() == old(self).config(),
            final(self).received() == old(self).received(),
            final(self).eof_seen() == old(self).eof_seen(),
            final(self).buffered() == old(self).buffered(),
            final(self).tail_decoded == old(self).tail_decoded,
            final(output)@.len() == old(output)@.len(),
            forall|k: int| 0 <= k < start ==> #[trigger] final(output)@[k] == old(output)@[k],
            r <= old(self).stash().len(),
            r <= old(output)@.len() - start,
            r == old(self).stash().len() || r == old(output)@.len() - start,
            final(self).delivered() == old(self).delivered() + final(output)@.subrange(start as int, start + r),
            final(output)@.subrange(start as int, start + r) == old(self).stash().take(r as int),
            final(self).stash() == old(self).stash().skip(r as int),
    {
        let ghost s0 = self.stash();
        let avail = self.bytes_contained_in_partial_chunk;
        proof {
            assert(output@.len() == output.len());
        }
        let room = output.len() - start;
        let r = if avail < room {
            avail
        } else {
            room
        };
        let mut t: usize = 0;
        while t < r
            invariant
                r <= avail <= 3,
                start + r <= output@.len(),
                output@.len() <= usize::MAX,
                t <= r,
                output@.len() == old(output)@.len(),
                s0 == self.decoded_partial_chunk@.take(avail as int),
                avail == self.bytes_contained_in_partial_chunk,
                forall|k: int| 0 <= k < start ==> #[trigger] output@[k] == old(output)@[k],
                forall|k: int| 0 <= k < t ==> #[trigger] output@[start + k] == s0[k],
            decreases r - t,
        {
            output[start + t] = self.decoded_partial_chunk[t];
            t = t + 1;
        }
        let left = avail - r;
        let mut u: usize = 0;
        while u < left
            invariant
                r + left == avail,
                avail <= 3,
                u <= left,
                forall|k: int| 0 <= k < u ==> #[trigger] self.decoded_partial_chunk@[k] == s0[r + k],
                forall|k: int| u <= k < 3 ==> #[trigger] self.decoded_partial_chunk@[k] == old(self).decoded_partial_chunk@[k],
                s0 == old(self).decoded_partial_chunk@.take(avail as int),
                forall|k: int| 0 <= k < r ==> #[trigger] output@[start + k] == s0[k],
                start + r <= output@.len(),
                output@.len() == old(output)@.len(),
                self.config == old(self).config,
                self.received == old(self).received,
                self.delivered == old(self).delivered,
                self.eof_seen == old(self).eof_seen,
                self.padding_removed == old(self).padding_removed,
                self.tail_decoded == old(self).tail_decoded,
                self.data == old(self).data,
                self.pos == old(self).pos,
                self.cap == old(self).cap,
                self.bytes_contained_in_partial_chunk == old(self).bytes_contained_in_partial_chunk,
            decreases left - u,
        {
            self.decoded_partial_chunk[u] = self.decoded_partial_chunk[u + r];
            u = u + 1;
        }
        self.bytes_contained_in_partial_chunk = left;
        self.delivered = Ghost(self.delivered@ + output@.subrange(start as int, start + r));
        proof {
            assert forall|i: int| 0 <= i < r implies #[trigger] output@.subrange(start as int, start + r)[i] == s0.take(r as int)[i] by {
                assert(output@[start + i] == s0[i]);
            }
            assert(output@.subrange(start as int, start + r) =~= s0.take(r as int));
            assert(self.stash() =~= s0.skip(r as int));
            assert(self.delivered@ + self.stash() =~= old(self).delivered@ + s0);
        }
        r
    }

    /// Number of buffered encoded bytes that can be decoded now: all of them
    /// once the end has been seen, else all but the last two, which may yet
    /// turn out to be padding.
    pub closed spec fn decodable(&self) -> int {
        if self.eof_seen {
            self.cap - self.pos
        } else if self.cap - self.pos >= 2 {
            self.cap - self.pos - 2
        } else {
            0
        }
    }

    /// At the end of the input, strips the padding from the buffered tail,
    /// after checking its length.
    fn strip_tail(&mut self) -> (r: Result<(), DecodeError>)
        requires
            old(self).wf(),
            old(self).eof_seen,
            !old(self).padding_removed,
        ensures
            r is Ok ==> final(self).wf() && final(self).padding_removed && !final(self).tail_decoded,
            r is Ok ==> final(self).stash() == old(self).stash(),
            r is Err ==> *final(self) == *old(self),
            r is Err ==> stream_error(old(self).config().alphabet(), old(self).config().padding(), old(self).received(), true, r->Err_0),
            final(self).config() == old(self).config(),
            final(self).received() == old(self).received(),
            final(self).delivered() == old(self).delivered(),
            final(self).eof_seen() == old(self).eof_seen(),
    {
        let ghost alpha = self.config.alphabet();
        let ghost e0 = self.effective();
        let ghost plen = self.plen();
        match self.config.padding_byte() {
            None => {
                self.padding_removed = true;
                Ok(())
            },
            Some(p) => {
                let pos = self.pos;
                let t = &self.data.as_slice()[pos..self.cap];
                match remove_padding(self.config, t) {
                    Err(e) => {
                        proof {
                            assert(e0.len() == plen + t@.len());
                        }
                        Err(e)
                    },
                    Ok(y) => {
                        let ylen = y.len();
                        proof {
                            self.config.lemma_valid();
                            lemma_strip_tail(alpha, p, e0, plen, t@);
                        }
                        self.cap = pos + ylen;
                        self.padding_removed = true;
                        proof {
                            assert(y@ =~= self.data@.subrange(pos as int, self.cap as int));
                        }
                        Ok(())
                    },
                }
            },
        }
    }

    /// An error from decoding the whole groups of the decodable window `dec`
    /// is an error of the whole input, or of every continuation of it.
    proof fn lemma_error_in_window(&self, dec: Seq<u8>, avail: int, room: int)
        requires
            self.wf(),
            !self.tail_decoded,
            self.eof_seen ==> self.padding_removed,
            0 <= avail <= self.decodable(),
            dec.len() == avail,
            forall|k: int| 0 <= k < dec.len() ==> #[trigger] dec[k] == self.effective()[self.plen() + k],
            self.plen() + avail <= self.effective().len(),
            ({
                let g = crate::decode::groups_that_fit(avail, room);
                first_index(invalid_at(self.config.alphabet(), dec), 0, 4 * g) < 4 * g
            }),
        ensures
            ({
                let g = crate::decode::groups_that_fit(avail, room);
                let f = first_index(invalid_at(self.config.alphabet(), dec), 0, 4 * g);
                stream_error(
                    self.config.alphabet(),
                    self.config.padding(),
                    self.received@,
                    self.eof_seen,
                    DecodeError::InvalidByte(dec[f]),
                )
            }),
    {
        let alpha = self.config.alphabet();
        let e = self.effective();
        let plen = self.plen();
        let g = crate::decode::groups_that_fit(avail, room);
        let f = first_index(invalid_at(alpha, dec), 0, 4 * g);
        lemma_first_index_spec(invalid_at(alpha, dec), 0, 4 * g);
        let k = plen + f;
        assert(e[k] == dec[f]);
        assert(4 * (k / 4) + 4 <= plen + 4 * g) by {
            assert(k / 4 == plen / 4 + f / 4);
        }
        assert forall|j: int| 0 <= j < k implies is_valid_symbol(alpha, #[trigger] e[j]) by {
            if j >= plen {
                assert(!invalid_at(alpha, dec)(j - plen));
                assert(dec[j - plen] == e[j]);
            }
        }
        if self.eof_seen {
            lemma_final_invalid_byte(alpha, self.config.padding(), self.received@, e, k);
        } else {
            lemma_early_invalid_byte(alpha, self.config.padding(), self.received@, k);
        }
    }

    /// Decodes as many whole groups of the decodable bytes as `output` has
    /// room for, into its beginning.
    fn decode_groups_into(&mut self, output: &mut [u8]) -> (r: Result<usize, DecodeError>)
        requires
            old(self).wf(),
            !old(self).tail_decoded,
            old(self).stash().len() == 0,
            old(self).eof_seen ==> old(self).padding_removed,
        ensures
            final(output)@.len() == old(output)@.len(),
            final(self).config() == old(self).config(),
            final(self).received() == old(self).received(),
            final(self).eof_seen() == old(self).eof_seen(),
            r is Err ==> *final(self) == *old(self),
            r is Err ==> stream_error(old(self).config().alphabet(), old(self).config().padding(), old(self).received(), old(self).eof_seen(), r->Err_0),
            r is Ok ==> {
                let b = r->Ok_0;
                &&& final(self).wf()
                &&& !final(self).tail_decoded
                &&& final(self).padding_removed == old(self).padding_removed
                &&& final(self).stash().len() == 0
                &&& b == 3 * crate::decode::groups_that_fit(old(self).decodable(), old(output)@.len() as int)
                &&& final(self).buffered() == old(self).buffered() - 4 * (b / 3)
                &&& final(self).delivered() == old(self).delivered() + final(output)@.take(b as int)
            },
    {
        let ghost alpha = self.config.alphabet();
        let ghost e = self.effective();
        let ghost plen = self.plen();
        let pos = self.pos;
        let avail = if self.eof_seen {
            self.cap - pos
        } else if self.cap - pos >= 2 {
            self.cap - pos - 2
        } else {
            0
        };
        let decodable = &self.data.as_slice()[pos..pos + avail];
        let (a, b) = match decode_full_chunks_without_padding(self.config, decodable, output, 0) {
            Ok(ab) => ab,
            Err(err) => {
                proof {
                    lemma_tail_window(e, plen, self.data@, pos as int, self.cap as int, avail as int, decodable@);
                    self.lemma_error_in_window(decodable@, avail as int, output@.len() as int);
                }
                return Err(err);
            },
        };
        proof {
            lemma_tail_window(e, plen, self.data@, pos as int, self.cap as int, avail as int, decodable@);
            assert forall|j: int| 0 <= j < b implies #[trigger] output@.take(b as int)[j] == decoded_byte(alpha, decodable@, j) by {
                assert(output@[0 + j] == decoded_byte(alpha, decodable@, j));
            }
            lemma_advance_groups(alpha, e, plen, decodable@, a as int, self.delivered@, output@.take(b as int));
            lemma_tail_advance(e, plen, self.data@, pos as int, self.cap as int, a as int);
        }
        self.pos = pos + a;
        self.delivered = Ghost(self.delivered@ + output@.take(b as int));
        proof {
            assert(self.stash() =~= Seq::<u8>::empty());
            assert(self.delivered@ + self.stash() =~= self.delivered@);
        }
        Ok(b)
    }

    /// Decodes one whole group into the stash, for a caller's buffer too
    /// small to hold it.
    fn decode_group_to_stash(&mut self) -> (r: Result<(), DecodeError>)
        requires
            old(self).wf(),
            !old(self).tail_decoded,
            old(self).stash().len() == 0,
            old(self).eof_seen ==> old(self).padding_removed,
            old(self).decodable() >= 4,
        ensures
            final(self).config() == old(self).config(),
            final(self).received() == old(self).received(),
            final(self).delivered() == old(self).delivered(),
            final(self).eof_seen() == old(self).eof_seen(),
            r is Err ==> *final(self) == *old(self),
            r is Err ==> stream_error(old(self).config().alphabet(), old(self).config().padding(), old(self).received(), old(self).eof_seen(), r->Err_0),
            r is Ok ==> final(self).wf() && final(self).stash().len() == 3,
    {
        let ghost alpha = self.config.alphabet();
        let ghost e = self.effective();
        let ghost plen = self.plen();
        let pos = self.pos;
        let mut group: [u8; 3] = [0u8; 3];
        let decodable = &self.data.as_slice()[pos..pos + 4];
        let (a, b) = match decode_full_chunks_without_padding(self.config, decodable, &mut group, 0) {
            Ok(ab) => ab,
            Err(err) => {
                proof {
                    lemma_tail_window(e, plen, self.data@, pos as int, self.cap as int, 4, decodable@);
                    self.lemma_error_in_window(decodable@, 4, 3);
                }
                return Err(err);
            },
        };
        proof {
            assert(a == 4 && b == 3);
            lemma_tail_window(e, plen, self.data@, pos as int, self.cap as int, 4, decodable@);
            lemma_advance_groups(alpha, e, plen, decodable@, 4, self.delivered@, group@.take(3));
            lemma_tail_advance(e, plen, self.data@, pos as int, self.cap as int, 4);
        }
        self.pos = pos + 4;
        self.decoded_partial_chunk = group;
        self.bytes_contained_in_partial_chunk = 3;
        Ok(())
    }

    /// At the end of the input, decodes the final partial group (padding
    /// already stripped) into the stash.
    fn decode_tail_to_stash(&mut self) -> (r: Result<(), DecodeError>)
        requires
            old(self).wf(),
            !old(self).tail_decoded,
            old(self).stash().len() == 0,
            old(self).padding_removed,
            old(self).buffered() < 4,
        ensures
            final(self).config() == old(self).config(),
            final(self).received() == old(self).received(),
            final(self).delivered() == old(self).delivered(),
            final(self).eof_seen() == old(self).eof_seen(),
            r is Err ==> *final(self) == *old(self),
            r is Err ==> stream_error(old(self).config().alphabet(), old(self).config().padding(), old(self).received(), true, r->Err_0),
            r is Ok ==> final(self).wf() && final(self).tail_decoded,
    {
        let ghost alpha = self.config.alphabet();
        let ghost e = self.effective();
        let ghost plen = self.plen();
        let pos = self.pos;
        let mut group: [u8; 3] = [0u8; 3];
        let input = &self.data.as_slice()[0..self.cap];
        let ghost g = plen / 4;
        proof {
            assert forall|j: int| 0 <= j < 4 * g implies !#[trigger] invalid_at(alpha, e)(j) by {
                assert(is_valid_symbol(alpha, e[j]));
            }
            lemma_first_index(invalid_at(alpha, e), 4 * g, 4 * g);
            lemma_decode_unpadded_split(alpha, e, g);
            assert(input@.subrange(pos as int, input@.len() as int) =~= e.subrange(4 * g, e.len() as int));
        }
        let n = match decode_partial_chunk(self.config, input, pos, &mut group, 0) {
            Ok(n) => n,
            Err(err) => return Err(err),
        };
        self.pos = self.cap;
        self.decoded_partial_chunk = group;
        self.bytes_contained_in_partial_chunk = n;
        self.tail_decoded = true;
        proof {
            let t = e.subrange(4 * g, e.len() as int);
            let ts = decode_unpadded(alpha, t)->Ok_0;
            let ys = decode_unpadded(alpha, e)->Ok_0;
            let out = self.delivered@ + self.stash();
            assert(self.stash() =~= group@.subrange(0, n as int));
            assert forall|j: int| 0 <= j < ys.len() implies #[trigger] out[j] == ys[j] by {
                if j >= 3 * g {
                    assert(out[j] == self.stash()[j - 3 * g]);
                    assert(ys[3 * g + (j - 3 * g)] == ts[j - 3 * g]);
                } else {
                    assert(out[j] == groups_decoded(alpha, e, plen)[j]);
                }
            }
            assert(out =~= ys);
            assert(e.subrange(e.len() as int, e.len() as int) =~= self.data@.subrange(self.pos as int, self.cap as int));
        }
        Ok(())
    }

    /// Reads decoded bytes into the beginning of `output` and returns how
    /// many. Bytes left over from an earlier call come first; whole groups go
    /// straight into `output`; a group that does not fit is decoded into the
    /// stash and handed out over the following calls. Returns zero only at
    /// the end of the input, or for an empty `output`. On an error nothing
    /// is consumed, and the same error comes again on the next call; once
    /// the end of the input has been seen the error is the one-shot
    /// decoding's, and before that it shows that no continuation of the
    /// input decodes.
    pub fn read(&mut self, output: &mut [u8]) -> (r: Result<usize, DecodeError>)
        requires
            old(self).wf(),
            !(old(self).stash().len() == 0 && !old(self).eof_seen() && old(self).buffered() < 6),
        ensures
            final(self).wf(),
            final(self).config() == old(self).config(),
            final(self).received() == old(self).received(),
            final(self).eof_seen() == old(self).eof_seen(),
            final(output)@.len() == old(output)@.len(),
            match r {
                Ok(n) => {
                    &&& n <= old(output)@.len()
                    &&& final(self).delivered() == old(self).delivered() + final(output)@.take(n as int)
                    &&& old(output)@.len() > 0 ==> n > 0 || final(self).is_done()
                },
                Err(e) => final(self).delivered() == old(self).delivered() && stream_error(
                    old(self).config().alphabet(),
                    old(self).config().padding(),
                    old(self).received(),
                    old(self).eof_seen(),
                    e,
                ),
            },
    {
        let ghost d0 = self.delivered@;
        if self.bytes_contained_in_partial_chunk > 0 {
            let n = self.deliver_stash(output, 0);
            proof {
                assert(output@.subrange(0, n as int) =~= output@.take(n as int));
            }
            return Ok(n);
        }
        if self.tail_decoded {
            proof {
                assert(d0 + output@.take(0) =~= d0);
            }
            return Ok(0);
        }
        if self.eof_seen && !self.padding_removed {
            match self.strip_tail() {
                Ok(()) => {},
                Err(e) => return Err(e),
            }
        }
        let b = match self.decode_groups_into(output) {
            Ok(b) => b,
            Err(e) => return Err(e),
        };
        let ghost d1 = self.delivered@;
        let remaining = self.cap - self.pos;
        if !self.eof_seen || remaining >= 4 {
            if b > 0 {
                return Ok(b);
            }
            match self.decode_group_to_stash() {
                Ok(()) => {},
                Err(e) => {
                    proof {
                        assert(d0 + output@.take(0) =~= d0);
                    }
                    return Err(e);
                },
            }
            let n = self.deliver_stash(output, 0);
            proof {
                assert(d1 =~= d0);
                assert(output@.subrange(0, n as int) =~= output@.take(n as int));
            }
            return Ok(n);
        }
        match self.decode_tail_to_stash() {
            Ok(()) => {},
            Err(e) => {
                if b > 0 {
                    return Ok(b);
                }
                proof {
                    assert(d0 + output@.take(0) =~= d0);
                }
                return Err(e);
            },
        }
        let ghost mid = output@;
        let n = self.deliver_stash(output, b);
        proof {
            assert(output@.take(b as int) =~= mid.take(b as int));
            assert(output@.take(b + n) =~= output@.take(b as int) + output@.subrange(b as int, b + n));
        }
        Ok(b + n)
    }
}

/// Once the reader has handed out everything, what it handed out is the
/// one-shot decoding of all the input it was given, whatever the sizes of
/// the pieces supplied and of the buffers read into. An input whose one-shot
/// decoding fails therefore never reaches this state.
pub proof fn lemma_decode_reader_output<C: Config>(r: DecodeReader<C>)
    requires
        r.wf(),
        r.is_done(),
    ensures
        decode_spec(r.config().alphabet(), r.config().padding(), r.received()) == Ok::<Seq<u8>, DecodeError>(r.delivered()),
{
    assert(r.stash() =~= Seq::<u8>::empty());
    assert(r.delivered() + r.stash() =~= r.delivered());
}

/// What an error from `DecodeReader::read` says of the input `rec`: at the
/// end of the input, it is the one-shot decoding's error; before it, no
/// continuation of the input decodes.
pub open spec fn stream_error(alpha: Seq<u8>, pad: Option<u8>, rec: Seq<u8>, eof: bool, e: DecodeError) -> bool {
    if eof {
        decode_spec(alpha, pad, rec) == Err::<Seq<u8>, DecodeError>(e)
    } else {
        forall|ext: Seq<u8>| #[trigger] decode_spec(alpha, pad, rec + ext) is Err
    }
}

/// A byte outside the alphabet, in a whole group that ends at least two
/// bytes before the end of what has arrived, makes every continuation fail:
/// stripping padding cannot reach it.
proof fn lemma_early_invalid_byte(alpha: Seq<u8>, pad: Option<u8>, rec: Seq<u8>, k: int)
    requires
        0 <= k,
        4 * (k / 4) + 4 <= rec.len() - 2,
        forall|j: int| 0 <= j < k ==> is_valid_symbol(alpha, #[trigger] rec[j]),
        !is_valid_symbol(alpha, rec[k]),
    ensures
        forall|ext: Seq<u8>| #[trigger] decode_spec(alpha, pad, rec + ext) is Err,
{
    assert forall|ext: Seq<u8>| #[trigger] decode_spec(alpha, pad, rec + ext) is Err by {
        let z = rec + ext;
        let y = match pad {
            Some(p) => strip_padding(z, p),
            None => z,
        };
        if pad is None || z.len() % 4 == 0 {
            assert(y.len() >= z.len() - 2);
            assert forall|j: int| 0 <= j <= k implies #[trigger] y[j] == rec[j] by {
                assert(z[j] == rec[j]);
            }
            let lim = if y.len() % 4 == 1 { 4 * (y.len() as int / 4) } else { y.len() as int };
            assert(k < lim);
            assert forall|j: int| 0 <= j < k implies !#[trigger] invalid_at(alpha, y)(j) by {
                assert(is_valid_symbol(alpha, rec[j]));
            }
            lemma_first_index(invalid_at(alpha, y), k, lim);
        }
    }
}

/// At the end of the input, a byte outside the alphabet in a whole group of
/// the effective input is the one-shot decoding's error.
proof fn lemma_final_invalid_byte(alpha: Seq<u8>, pad: Option<u8>, rec: Seq<u8>, e: Seq<u8>, k: int)
    requires
        pad is Some ==> rec.len() % 4 == 0 && e == strip_padding(rec, pad->0),
        pad is None ==> e == rec,
        0 <= k,
        4 * (k / 4) + 4 <= e.len(),
        forall|j: int| 0 <= j < k ==> is_valid_symbol(alpha, #[trigger] e[j]),
        !is_valid_symbol(alpha, e[k]),
    ensures
        decode_spec(alpha, pad, rec) == Err::<Seq<u8>, DecodeError>(DecodeError::InvalidByte(e[k])),
{
    let lim = if e.len() % 4 == 1 { 4 * (e.len() as int / 4) } else { e.len() as int };
    assert(k < lim);
    assert forall|j: int| 0 <= j < k implies !#[trigger] invalid_at(alpha, e)(j) by {
        assert(is_valid_symbol(alpha, e[j]));
    }
    lemma_first_index(invalid_at(alpha, e), k, lim);
}

/// Stripping the padding at the end of the input touches only the
/// buffered tail, never the decoded prefix.
proof fn lemma_strip_tail(alpha: Seq<u8>, p: u8, e0: Seq<u8>, plen: int, t: Seq<u8>)
    requires
        crate::model::valid_config(alpha, Some(p)),
        0 <= plen <= e0.len(),
        e0.subrange(plen, e0.len() as int) == t,
        forall|i: int| 0 <= i < plen ==> is_valid_symbol(alpha, #[trigger] e0[i]),
    ensures
        ({
            let e1 = strip_padding(e0, p);
            &&& e1 == e0.take(plen) + strip_padding(t, p)
            &&& e1.subrange(plen, e1.len() as int) == strip_padding(t, p)
            &&& forall|i: int| 0 <= i < plen ==> is_valid_symbol(alpha, #[trigger] e1[i])
            &&& groups_decoded(alpha, e1, plen) == groups_decoded(alpha, e0, plen)
        }),
{
    let u = e0.take(plen);
    assert(e0 =~= u + t);
    assert forall|i: int| 0 <= i < u.len() implies #[trigger] u[i] != p by {
        assert(is_valid_symbol(alpha, e0[i]));
        assert(forall|k: int| 0 <= k < 64 ==> #[trigger] alpha[k] != p);
        if u[i] == p {
            assert(!(exists|k: int| 0 <= k < 64 && alpha[k] == u[i]));
        }
    }
    lemma_strip_padding_tail(u, t, p);
    let e1 = strip_padding(e0, p);
    let y = strip_padding(t, p);
    assert(e1.subrange(plen, e1.len() as int) =~= y);
    assert forall|i: int| 0 <= i < plen implies is_valid_symbol(alpha, #[trigger] e1[i]) by {
        assert(e1[i] == e0[i]);
    }
    assert forall|j: int| 0 <= j < 3 * (plen / 4) implies #[trigger] groups_decoded(alpha, e1, plen)[j] == groups_decoded(alpha, e0, plen)[j] by {
        lemma_decoded_byte_agree(alpha, e1, e0, j, plen);
    }
    assert(groups_decoded(alpha, e1, plen) =~= groups_decoded(alpha, e0, plen));
}

/// The first `avail` buffered bytes are the effective input after its
/// decoded prefix.
proof fn lemma_tail_window(e: Seq<u8>, plen: int, data: Seq<u8>, pos: int, cap: int, avail: int, dec: Seq<u8>)
    requires
        0 <= plen <= e.len(),
        0 <= pos <= cap <= data.len(),
        e.subrange(plen, e.len() as int) == data.subrange(pos, cap),
        0 <= avail <= cap - pos,
        dec == data.subrange(pos, pos + avail),
    ensures
        forall|k: int| 0 <= k < dec.len() ==> #[trigger] dec[k] == e[plen + k],
        plen + avail <= e.len(),
{
    let w = e.subrange(plen, e.len() as int);
    assert(w.len() == e.len() - plen);
    assert(w.len() == cap - pos);
    assert forall|k: int| 0 <= k < dec.len() implies #[trigger] dec[k] == e[plen + k] by {
        assert(w[k] == e[plen + k]);
        assert(w[k] == data[pos + k]);
    }
}

/// Moving `a` bytes from the buffered tail to the decoded prefix.
proof fn lemma_tail_advance(e: Seq<u8>, plen: int, data: Seq<u8>, pos: int, cap: int, a: int)
    requires
        0 <= plen <= e.len(),
        0 <= pos <= cap <= data.len(),
        e.subrange(plen, e.len() as int) == data.subrange(pos, cap),
        0 <= a <= cap - pos,
    ensures
        e.subrange(plen + a, e.len() as int) == data.subrange(pos + a, cap),
{
    let w = e.subrange(plen, e.len() as int);
    assert(w.len() == e.len() - plen);
    assert(w.len() == cap - pos);
    assert forall|k: int| 0 <= k < cap - pos - a implies #[trigger] data.subrange(pos + a, cap)[k] == e[plen + a + k] by {
        assert(w[a + k] == e[plen + a + k]);
        assert(w[a + k] == data[pos + a + k]);
    }
    assert(e.subrange(plen + a, e.len() as int) =~= data.subrange(pos + a, cap));
}

/// A byte decoded from the window `dec` of the effective input, placed
/// after the bytes of the decoded prefix.
proof fn lemma_window_byte(alpha: Seq<u8>, e: Seq<u8>, plen: int, dec: Seq<u8>, a: int, j: int)
    requires
        0 <= plen,
        plen % 4 == 0,
        0 <= a <= dec.len(),
        a % 4 == 0,
        plen + dec.len() <= e.len(),
        forall|k: int| 0 <= k < dec.len() ==> #[trigger] dec[k] == e[plen + k],
        3 * (plen / 4) <= j < 3 * (plen / 4) + 3 * (a / 4),
    ensures
        decoded_byte(alpha, e, j) == decoded_byte(alpha, dec, j - 3 * (plen / 4)),
{
    let u = e.take(plen);
    let v = e.skip(plen);
    assert(e =~= u + v);
    let j2 = j - 3 * (plen / 4);
    assert(4 * (j2 / 3) + 4 <= a);
    lemma_decoded_byte_shift(alpha, u, v, j);
    assert forall|k: int| 0 <= k < a implies #[trigger] v[k] == dec[k] by {
        assert(dec[k] == e[plen + k]);
    }
    lemma_decoded_byte_agree(alpha, v, dec, j2, a);
}

/// Decoding `a` more symbols, in whole groups, extends the decoded prefix.
proof fn lemma_advance_groups(
    alpha: Seq<u8>,
    e: Seq<u8>,
    plen: int,
    dec: Seq<u8>,
    a: int,
    delivered: Seq<u8>,
    fresh: Seq<u8>,
)
    requires
        0 <= plen,
        plen % 4 == 0,
        0 <= a,
        a % 4 == 0,
        a <= dec.len(),
        plen + dec.len() <= e.len(),
        forall|k: int| 0 <= k < dec.len() ==> #[trigger] dec[k] == e[plen + k],
        forall|i: int| 0 <= i < plen ==> is_valid_symbol(alpha, #[trigger] e[i]),
        first_index(invalid_at(alpha, dec), 0, a) == a,
        delivered == groups_decoded(alpha, e, plen),
        fresh.len() == 3 * (a / 4),
        forall|j: int| 0 <= j < fresh.len() ==> #[trigger] fresh[j] == decoded_byte(alpha, dec, j),
    ensures
        forall|i: int| 0 <= i < plen + a ==> is_valid_symbol(alpha, #[trigger] e[i]),
        delivered + fresh == groups_decoded(alpha, e, plen + a),
{
    lemma_first_index_spec(invalid_at(alpha, dec), 0, a);
    assert forall|i: int| 0 <= i < plen + a implies is_valid_symbol(alpha, #[trigger] e[i]) by {
        if i >= plen {
            assert(!invalid_at(alpha, dec)(i - plen));
            assert(dec[i - plen] == e[i]);
        }
    }
    let out = delivered + fresh;
    let want = groups_decoded(alpha, e, plen + a);
    assert((plen + a) / 4 == plen / 4 + a / 4);
    assert forall|j: int| 0 <= j < out.len() implies #[trigger] out[j] == want[j] by {
        if j >= 3 * (plen / 4) {
            assert(out[j] == fresh[j - 3 * (plen / 4)]);
            lemma_window_byte(alpha, e, plen, dec, a, j);
        } else {
            assert(out[j] == delivered[j]);
        }
    }
    assert(out =~= want);
}

/// The configuration is usable.
pub open spec fn valid_codec<C: Config>(config: C) -> bool {
    crate::model::valid_config(config.alphabet(), config.padding())
}

} // verus!
